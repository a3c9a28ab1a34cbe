//! Finding the backup folder of a tracked source folder from the canonical
//! paths of one of its files, of the folder and of the file's backup.
//!
//! How a path splits into components depends on the platform. What the
//! contracts pin down exactly are portable paths: components that hold no
//! `/`, `\` or `:` and are not `.` or `..`, joined by single `/`, with or
//! without a leading `/`. Those split the same way everywhere.
use vstd::prelude::*;

verus! {

pub open spec fn is_prefix_of(a: Seq<char>, b: Seq<char>) -> bool {
    a.len() <= b.len() && b.subrange(0, a.len() as int) == a
}

/// A path component that every platform reads alike: not empty, free of the
/// separators `/` and `\` and of the drive marker `:`, and neither `.` nor `..`.
pub open spec fn portable_component(c: Seq<char>) -> bool {
    &&& c.len() > 0
    &&& forall|i: int| 0 <= i < c.len() ==> c[i] != '/' && c[i] != '\\' && c[i] != ':'
    &&& c != seq!['.']
    &&& c != seq!['.', '.']
}

pub open spec fn portable_parts(cs: Seq<Seq<char>>) -> bool {
    forall|i: int| 0 <= i < cs.len() ==> portable_component(#[trigger] cs[i])
}

/// The path made of the components `cs` joined by `/`, starting at the root
/// (`/`) when `rooted`. No component at all gives the root, or the empty path.
pub open spec fn joined(rooted: bool, cs: Seq<Seq<char>>) -> Seq<char>
    decreases cs.len(),
{
    if cs.len() == 0 {
        if rooted {
            seq!['/']
        } else {
            Seq::empty()
        }
    } else if cs.len() == 1 {
        if rooted {
            seq!['/'] + cs[0]
        } else {
            cs[0]
        }
    } else {
        joined(rooted, cs.drop_last()) + seq!['/'] + cs.last()
    }
}

/// The path `joined(rooted, cs)` after going up `levels` folders, stopping at
/// the root (or the empty path) once the components run out.
pub open spec fn ascended(rooted: bool, cs: Seq<Seq<char>>, levels: int) -> Seq<char> {
    if levels < cs.len() {
        joined(rooted, cs.take(cs.len() - levels))
    } else {
        joined(rooted, Seq::empty())
    }
}

pub open spec fn opt_text(o: Option<String>) -> Option<Seq<char>> {
    match o {
        Some(s) => Some(s@),
        None => None,
    }
}

/// `std::path::Path::parent`: the path without its final component, which is
/// a shorter leading part of the path. For a portable path that is the path
/// without its last component (the root, or the empty path, after the first
/// one); the root and the empty path have none. Which leading part it is for
/// other paths depends on the platform and is left unsaid.
#[verifier::external_body]
fn path_parent(p: &str) -> (r: Option<String>)
    ensures
        r matches Some(q) ==> q@.len() < p@.len() && is_prefix_of(q@, p@),
        p@.len() == 0 ==> r is None,
        forall|rooted: bool, cs: Seq<Seq<char>>|
            portable_parts(cs) && p@ == #[trigger] joined(rooted, cs) ==> opt_text(r) == if cs.len()
                == 0 {
                None
            } else {
                Some(joined(rooted, cs.drop_last()))
            },
{
    match std::path::Path::new(p).parent() {
        Some(q) => Some(q.to_string_lossy().to_string()),
        None => None,
    }
}

/// `std::path::Path::strip_prefix`: the trailing part of `path` that, joined
/// onto `base`, gives `path`, so never longer than `path`, and empty where
/// `path` is `base`. For portable paths: the components of `path` after those
/// of `base` where `base` starts it, and `None` where a non-empty `base` does
/// not; components are compared, so a `base` written with a trailing `/`
/// gives the same. Where components end for other paths depends on the platform and is
/// left unsaid.
#[verifier::external_body]
fn path_strip_prefix(path: &str, base: &str) -> (r: Option<String>)
    ensures
        r matches Some(q) ==> q@.len() <= path@.len(),
        path@ == base@ ==> r is Some && r.unwrap()@.len() == 0,
        forall|rooted: bool, ts: Seq<Seq<char>>, rs: Seq<Seq<char>>|
            portable_parts(ts) && portable_parts(rs) && path@ == #[trigger] joined(rooted, ts + rs)
                && base@ == #[trigger] joined(rooted, ts) ==> opt_text(r) == Some(
                joined(false, rs),
            ),
        forall|r1: bool, ps: Seq<Seq<char>>, r2: bool, ts: Seq<Seq<char>>|
            portable_parts(ps) && portable_parts(ts) && ts.len() > 0 && path@ == #[trigger] joined(
                r1,
                ps,
            ) && base@ == #[trigger] joined(r2, ts) && !(r1 == r2 && ts.len() <= ps.len()
                && ps.take(ts.len() as int) == ts) ==> r is None,
        forall|rooted: bool, ts: Seq<Seq<char>>, rs: Seq<Seq<char>>|
            portable_parts(ts) && portable_parts(rs) && ts.len() > 0 && path@ == #[trigger] joined(
                rooted,
                ts + rs,
            ) && base@ == #[trigger] joined(rooted, ts) + seq!['/'] ==> opt_text(r) == Some(
                joined(false, rs),
            ),
        forall|r1: bool, ps: Seq<Seq<char>>, r2: bool, ts: Seq<Seq<char>>|
            portable_parts(ps) && portable_parts(ts) && ts.len() > 0 && path@ == #[trigger] joined(
                r1,
                ps,
            ) && base@ == #[trigger] joined(r2, ts) + seq!['/'] && !(r1 == r2 && ts.len()
                <= ps.len() && ps.take(ts.len() as int) == ts) ==> r is None,
{
    match std::path::Path::new(path).strip_prefix(base) {
        Ok(q) => Some(q.to_string_lossy().to_string()),
        Err(_) => None,
    }
}

/// `std::path::Path::components`, counted: how many components a path has.
/// A relative portable path has as many as it joins; the empty path none.
/// The count for other paths depends on the platform and is left unsaid.
#[verifier::external_body]
fn path_component_count(p: &str) -> (r: usize)
    ensures
        p@.len() == 0 ==> r == 0,
        forall|cs: Seq<Seq<char>>|
            portable_parts(cs) && p@ == #[trigger] joined(false, cs) ==> r == cs.len(),
{
    std::path::Path::new(p).components().count()
}

proof fn lemma_ascend_step(rooted: bool, cs: Seq<Seq<char>>, i: int)
    requires
        0 <= i < cs.len(),
        portable_parts(cs),
    ensures
        ascended(rooted, cs, i) == joined(rooted, cs.take(cs.len() - i)),
        portable_parts(cs.take(cs.len() - i)),
        cs.take(cs.len() - i).len() > 0,
        cs.take(cs.len() - i).drop_last() == cs.take(cs.len() - (i + 1)),
        ascended(rooted, cs, i + 1) == joined(rooted, cs.take(cs.len() - i).drop_last()),
{
    assert(cs.take(cs.len() - i).drop_last() =~= cs.take(cs.len() - (i + 1)));
    if i + 1 == cs.len() {
        assert(cs.take(0) =~= Seq::<Seq<char>>::empty());
    }
}

/// Goes up `levels` parent folders from `path`, stopping early at a path
/// that has no parent. The result is a leading part of `path`; for a portable
/// path it is the path without its last `levels` components, or the root (or
/// the empty path) where it has fewer.
pub fn ascend(path: String, levels: usize) -> (r: String)
    ensures
        is_prefix_of(r@, path@),
        levels == 0 ==> r@ == path@,
        forall|rooted: bool, cs: Seq<Seq<char>>|
            portable_parts(cs) && path@ == #[trigger] joined(rooted, cs) ==> r@ == ascended(
                rooted,
                cs,
                levels as int,
            ),
{
    let ghost start = path@;
    let mut cur = path;
    let mut i: usize = 0;
    assert(start.subrange(0, start.len() as int) =~= start);
    assert forall|rooted: bool, cs: Seq<Seq<char>>|
        portable_parts(cs) && start == #[trigger] joined(rooted, cs) implies cur@ == ascended(
            rooted,
            cs,
            0,
        ) by {
        assert(cs.take(cs.len() as int) =~= cs);
    }
    while i < levels
        invariant
            is_prefix_of(cur@, start),
            i <= levels,
            i == 0 ==> cur@ == start,
            forall|rooted: bool, cs: Seq<Seq<char>>|
                portable_parts(cs) && start == #[trigger] joined(rooted, cs) ==> cur@ == ascended(
                    rooted,
                    cs,
                    i as int,
                ),
        ensures
            is_prefix_of(cur@, start),
            levels == 0 ==> cur@ == start,
            forall|rooted: bool, cs: Seq<Seq<char>>|
                portable_parts(cs) && start == #[trigger] joined(rooted, cs) ==> cur@ == ascended(
                    rooted,
                    cs,
                    levels as int,
                ),
        decreases levels - i,
    {
        let ghost before = cur@;
        match path_parent(cur.as_str()) {
            Some(parent) => {
                assert(start.subrange(0, parent@.len() as int) =~= before.subrange(
                    0,
                    parent@.len() as int,
                ));
                assert forall|rooted: bool, cs: Seq<Seq<char>>|
                    portable_parts(cs) && start == #[trigger] joined(rooted, cs) implies parent@
                    == ascended(rooted, cs, i + 1) by {
                    if (i as int) < cs.len() {
                        lemma_ascend_step(rooted, cs, i as int);
                        let cur_cs = cs.take(cs.len() - i);
                        assert(before == joined(rooted, cur_cs));
                    } else {
                        let none = Seq::<Seq<char>>::empty();
                        assert(before == joined(rooted, none));
                    }
                }
                cur = parent;
            },
            None => {
                assert forall|rooted: bool, cs: Seq<Seq<char>>|
                    portable_parts(cs) && start == #[trigger] joined(rooted, cs) implies before
                    == ascended(rooted, cs, levels as int) by {
                    if (i as int) < cs.len() {
                        lemma_ascend_step(rooted, cs, i as int);
                        let cur_cs = cs.take(cs.len() - i);
                        assert(before == joined(rooted, cur_cs));
                    }
                }
                break ;
            },
        }
        i = i + 1;
    }
    cur
}

/// The backup folder of a source folder, given where one of its files lies
/// below it (`relative`, with `depth` components) and the canonical location
/// of that file's backup: the backup's location, `depth` folders up. Where
/// the file does not lie below the folder, or the backup has no canonical
/// location, it is the recorded backup location.
pub fn backup_root_from_relative(
    backup_location: &str,
    relative: Option<String>,
    depth: usize,
    canonical_backup: Option<String>,
) -> (r: String)
    ensures
        relative is None || canonical_backup is None ==> r@ == backup_location@,
        relative is Some ==> (canonical_backup matches Some(b) ==> {
            &&& is_prefix_of(r@, b@)
            &&& depth == 0 ==> r@ == b@
            &&& forall|rooted: bool, bs: Seq<Seq<char>>|
                portable_parts(bs) && b@ == #[trigger] joined(rooted, bs) ==> r@ == ascended(
                    rooted,
                    bs,
                    depth as int,
                )
        }),
{
    match (relative, canonical_backup) {
        (Some(_), Some(backup)) => ascend(backup, depth),
        _ => String::from_str(backup_location),
    }
}

/// The backup folder of a source folder, found from the canonical location of
/// one of its files, the folder's canonical location and the canonical
/// location of the file's backup: as many folders above the backup as the file
/// lies below the source folder. Where a canonical location is missing, or the
/// file does not lie in the folder, it is the recorded backup location.
pub fn backup_root_for_source(
    backup_location: &str,
    canonical_source: Option<String>,
    canonical_root: Option<String>,
    canonical_backup: Option<String>,
) -> (r: String)
    ensures
        canonical_source is None || canonical_root is None || canonical_backup is None ==> r@
            == backup_location@,
        r@ == backup_location@ || (canonical_backup matches Some(b) && is_prefix_of(r@, b@)),
        canonical_source matches Some(s) ==> (canonical_root matches Some(t) ==> (
        canonical_backup matches Some(b) ==> (s@ == t@ ==> r@ == b@))),
        canonical_source matches Some(s) ==> (canonical_root matches Some(t) ==> (
        canonical_backup matches Some(b) ==> forall|
            rooted: bool,
            ts: Seq<Seq<char>>,
            rs: Seq<Seq<char>>,
            broot: bool,
            bs: Seq<Seq<char>>,
        |
            portable_parts(ts) && portable_parts(rs) && portable_parts(bs) && s@ == #[trigger] joined(
                rooted,
                ts + rs,
            ) && t@ == #[trigger] joined(rooted, ts) && b@ == #[trigger] joined(broot, bs) ==> r@
                == ascended(broot, bs, rs.len() as int))),
        canonical_source matches Some(s) ==> (canonical_root matches Some(t) ==> forall|
            r1: bool,
            ps: Seq<Seq<char>>,
            r2: bool,
            ts: Seq<Seq<char>>,
        |
            portable_parts(ps) && portable_parts(ts) && ts.len() > 0 && s@ == #[trigger] joined(
                r1,
                ps,
            ) && t@ == #[trigger] joined(r2, ts) && !(r1 == r2 && ts.len() <= ps.len() && ps.take(
                ts.len() as int,
            ) == ts) ==> r@ == backup_location@),
{
    let relative = match (&canonical_source, &canonical_root) {
        (Some(source), Some(root)) => path_strip_prefix(source.as_str(), root.as_str()),
        _ => None,
    };
    let depth = match &relative {
        Some(rel) => path_component_count(rel.as_str()),
        None => 0,
    };
    let ghost rel = relative;
    let ghost cb = canonical_backup;
    let r = backup_root_from_relative(backup_location, relative, depth, canonical_backup);
    proof {
        if let (Some(s), Some(t), Some(b)) = (canonical_source, canonical_root, cb) {
            assert forall|
                rooted: bool,
                ts: Seq<Seq<char>>,
                rs: Seq<Seq<char>>,
                broot: bool,
                bs: Seq<Seq<char>>,
            |
                portable_parts(ts) && portable_parts(rs) && portable_parts(bs) && s@
                    == #[trigger] joined(rooted, ts + rs) && t@ == #[trigger] joined(rooted, ts)
                    && b@ == #[trigger] joined(broot, bs) implies r@ == ascended(
                broot,
                bs,
                rs.len() as int,
            ) by {
                assert(opt_text(rel) == Some(joined(false, rs)));
                assert(rel.unwrap()@ == joined(false, rs));
            }
        }
    }
    r
}

/// `r` is `a`, one separator (`/`, or `\` where the platform writes that),
/// and `b`.
pub open spec fn separated(a: Seq<char>, b: Seq<char>, r: Seq<char>) -> bool {
    &&& r.len() == a.len() + 1 + b.len()
    &&& r.subrange(0, a.len() as int) == a
    &&& (r[a.len() as int] == '/' || r[a.len() as int] == '\\')
    &&& r.subrange((a.len() + 1) as int, r.len() as int) == b
}

/// `std::path::Path::join`: `rel` adjoined to `base`. For a portable `base`
/// and a non-empty relative portable `rel`: `base`, the platform's separator
/// and `rel`, or `base` directly followed by `rel` where `base` is the root or
/// empty. What it gives for other paths depends on the platform and is left
/// unsaid.
#[verifier::external_body]
fn path_join(base: &str, rel: &str) -> (r: String)
    ensures
        forall|rooted: bool, bs: Seq<Seq<char>>, rs: Seq<Seq<char>>|
            portable_parts(bs) && portable_parts(rs) && rs.len() > 0 && base@ == #[trigger] joined(
                rooted,
                bs,
            ) && rel@ == #[trigger] joined(false, rs) ==> if bs.len() > 0 {
                separated(base@, rel@, r@)
            } else {
                r@ == base@ + rel@
            },
{
    std::path::Path::new(base).join(rel).to_string_lossy().to_string()
}

/// Where the backup of a file found in a tracked folder goes: the file's
/// place below `source_root`, taken below `backup_root`, so that the backup
/// keeps the folder structure; `None` where the file does not lie below
/// `source_root`. A `source_root` written with a trailing `/` names the same
/// folder and gives the same place.
pub fn backup_path_for(file: &str, source_root: &str, backup_root: &str) -> (r: Option<String>)
    ensures
        forall|rooted: bool, ts: Seq<Seq<char>>, rs: Seq<Seq<char>>, broot: bool, bs: Seq<Seq<char>>|
            portable_parts(ts) && portable_parts(rs) && portable_parts(bs) && rs.len() > 0 && file@
                == #[trigger] joined(rooted, ts + rs) && source_root@ == #[trigger] joined(rooted, ts)
                && backup_root@ == #[trigger] joined(broot, bs) ==> r is Some && if bs.len() > 0 {
                separated(backup_root@, joined(false, rs), r.unwrap()@)
            } else {
                r.unwrap()@ == backup_root@ + joined(false, rs)
            },
        forall|r1: bool, ps: Seq<Seq<char>>, r2: bool, ts: Seq<Seq<char>>|
            portable_parts(ps) && portable_parts(ts) && ts.len() > 0 && file@ == #[trigger] joined(
                r1,
                ps,
            ) && source_root@ == #[trigger] joined(r2, ts) && !(r1 == r2 && ts.len() <= ps.len()
                && ps.take(ts.len() as int) == ts) ==> r is None,
        forall|rooted: bool, ts: Seq<Seq<char>>, rs: Seq<Seq<char>>, broot: bool, bs: Seq<Seq<char>>|
            portable_parts(ts) && portable_parts(rs) && portable_parts(bs) && ts.len() > 0 && rs.len()
                > 0 && file@ == #[trigger] joined(rooted, ts + rs) && source_root@ == #[trigger] joined(
                rooted,
                ts,
            ) + seq!['/'] && backup_root@ == #[trigger] joined(broot, bs) ==> r is Some && if bs.len()
                > 0 {
                separated(backup_root@, joined(false, rs), r.unwrap()@)
            } else {
                r.unwrap()@ == backup_root@ + joined(false, rs)
            },
        forall|r1: bool, ps: Seq<Seq<char>>, r2: bool, ts: Seq<Seq<char>>|
            portable_parts(ps) && portable_parts(ts) && ts.len() > 0 && file@ == #[trigger] joined(
                r1,
                ps,
            ) && source_root@ == #[trigger] joined(r2, ts) + seq!['/'] && !(r1 == r2 && ts.len()
                <= ps.len() && ps.take(ts.len() as int) == ts) ==> r is None,
{
    match path_strip_prefix(file, source_root) {
        Some(relative) => {
            let r = path_join(backup_root, relative.as_str());
            proof {
                assert forall|
                    rooted: bool,
                    ts: Seq<Seq<char>>,
                    rs: Seq<Seq<char>>,
                    broot: bool,
                    bs: Seq<Seq<char>>,
                |
                    portable_parts(ts) && portable_parts(rs) && portable_parts(bs) && rs.len() > 0
                        && file@ == #[trigger] joined(rooted, ts + rs) && source_root@
                        == #[trigger] joined(rooted, ts) && backup_root@ == #[trigger] joined(
                        broot,
                        bs,
                    ) implies if bs.len() > 0 {
                    separated(backup_root@, joined(false, rs), r@)
                } else {
                    r@ == backup_root@ + joined(false, rs)
                } by {
                    assert(relative@ == joined(false, rs));
                }
                assert forall|
                    rooted: bool,
                    ts: Seq<Seq<char>>,
                    rs: Seq<Seq<char>>,
                    broot: bool,
                    bs: Seq<Seq<char>>,
                |
                    portable_parts(ts) && portable_parts(rs) && portable_parts(bs) && ts.len() > 0
                        && rs.len() > 0 && file@ == #[trigger] joined(rooted, ts + rs)
                        && source_root@ == #[trigger] joined(rooted, ts) + seq!['/']
                        && backup_root@ == #[trigger] joined(broot, bs) implies if bs.len() > 0 {
                    separated(backup_root@, joined(false, rs), r@)
                } else {
                    r@ == backup_root@ + joined(false, rs)
                } by {
                    assert(relative@ == joined(false, rs));
                }
            }
            Some(r)
        },
        None => None,
    }
}

} // verus!
