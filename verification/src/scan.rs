//! Looking for files added to tracked folders: which folders to scan, where
//! their backups go, and which files there are not tracked yet.
use vstd::prelude::*;
use crate::entry::{
    EntryView, StoredEntry, text_of, entries_view, location_key, backup_location_key,
    backup_root_key, source_root_key, text_field, key_location, key_backup_location,
    key_backup_root, key_source_root,
};
use crate::location::{stripped, strip_windows_extended_prefix, str_eq};

verus! {

/// Where the backup folder of a tracked source folder is found.
#[derive(Debug, Clone, PartialEq, Eq)]
pub enum BackupRoot {
    /// Recorded in the entry (stripped).
    Recorded(String),
    /// Not recorded: to be derived from the entry's backup location, its
    /// location and the source root, as recorded.
    Derive { backup_location: String, location: String, source_root: String },
}

pub enum BackupRootView {
    Recorded(Seq<char>),
    Derive { backup_location: Seq<char>, location: Seq<char>, source_root: Seq<char> },
}

impl View for BackupRoot {
    type V = BackupRootView;

    open spec fn view(&self) -> BackupRootView {
        match self {
            BackupRoot::Recorded(r) => BackupRootView::Recorded(r@),
            BackupRoot::Derive { backup_location, location, source_root } => BackupRootView::Derive {
                backup_location: backup_location@,
                location: location@,
                source_root: source_root@,
            },
        }
    }
}

/// The source folder (stripped) and backup folder that an entry names, if it
/// names a source root, a location and a backup location.
pub open spec fn entry_root(e: EntryView) -> Option<(Seq<char>, BackupRootView)> {
    match (text_of(e, source_root_key()), text_of(e, location_key()), text_of(e, backup_location_key())) {
        (Some(sr), Some(l), Some(b)) => Some(
            (
                stripped(sr),
                match text_of(e, backup_root_key()) {
                    Some(br) => BackupRootView::Recorded(stripped(br)),
                    None => BackupRootView::Derive { backup_location: b, location: l, source_root: sr },
                },
            ),
        ),
        _ => None,
    }
}

pub open spec fn has_root(plan: Seq<(Seq<char>, BackupRootView)>, root: Seq<char>) -> bool {
    exists|i: int| 0 <= i < plan.len() && plan[i].0 == root
}

/// The source folders to scan, each once, in the order in which they first
/// appear, each with the backup folder of the first entry that names it.
pub open spec fn root_plan(es: Seq<EntryView>) -> Seq<(Seq<char>, BackupRootView)>
    decreases es.len(),
{
    if es.len() == 0 {
        Seq::empty()
    } else {
        let plan = root_plan(es.drop_last());
        match entry_root(es.last()) {
            Some(p) => if has_root(plan, p.0) {
                plan
            } else {
                plan.push(p)
            },
            None => plan,
        }
    }
}

pub open spec fn plan_view(plan: Seq<(String, BackupRoot)>) -> Seq<(Seq<char>, BackupRootView)> {
    plan.map_values(|p: (String, BackupRoot)| (p.0@, p.1@))
}

fn entry_root_of(e: &StoredEntry) -> (r: Option<(String, BackupRoot)>)
    ensures
        match r {
            Some(p) => entry_root(e@) == Some((p.0@, p.1@)),
            None => entry_root(e@) is None,
        },
{
    let source_root = text_field(e, key_source_root());
    let location = text_field(e, key_location());
    let backup_location = text_field(e, key_backup_location());
    match (source_root, location, backup_location) {
        (Some(sr), Some(l), Some(b)) => {
            let key = strip_windows_extended_prefix(sr.as_str());
            let root = match text_field(e, key_backup_root()) {
                Some(br) => BackupRoot::Recorded(strip_windows_extended_prefix(br.as_str())),
                None => BackupRoot::Derive { backup_location: b, location: l, source_root: sr },
            };
            Some((key, root))
        },
        _ => None,
    }
}

fn plan_has_root(plan: &Vec<(String, BackupRoot)>, root: &str) -> (r: bool)
    ensures
        r == has_root(plan_view(plan@), root@),
{
    let ghost pv = plan_view(plan@);
    let mut i: usize = 0;
    while i < plan.len()
        invariant
            i <= plan@.len(),
            pv == plan_view(plan@),
            forall|j: int| 0 <= j < i ==> pv[j].0 != root@,
        decreases plan@.len() - i,
    {
        if str_eq(plan[i].0.as_str(), root) {
            assert(pv[i as int].0 == root@);
            return true;
        }
        i = i + 1;
    }
    false
}

/// The source folders that the tracking list records, each once, with where
/// each one's backups go.
pub fn source_root_plan(tracked_files: &Vec<StoredEntry>) -> (r: Vec<(String, BackupRoot)>)
    ensures
        plan_view(r@) == root_plan(entries_view(tracked_files@)),
{
    let ghost es = entries_view(tracked_files@);
    let mut plan: Vec<(String, BackupRoot)> = Vec::new();
    let mut i: usize = 0;
    while i < tracked_files.len()
        invariant
            i <= tracked_files@.len(),
            es == entries_view(tracked_files@),
            plan_view(plan@) == root_plan(es.take(i as int)),
        decreases tracked_files@.len() - i,
    {
        assert(es.take(i + 1).drop_last() =~= es.take(i as int));
        assert(es.take(i + 1).last() == tracked_files@[i as int]@);
        if let Some((key, root)) = entry_root_of(&tracked_files[i]) {
            if !plan_has_root(&plan, key.as_str()) {
                let ghost before = plan_view(plan@);
                plan.push((key, root));
                assert(plan_view(plan@) =~= before.push((key@, root@)));
            }
        }
        i = i + 1;
    }
    assert(es.take(i as int) =~= es);
    plan
}

/// The stripped location of an entry recorded under the (stripped) source folder `root`.
pub open spec fn location_under(e: EntryView, root: Seq<char>) -> Option<Seq<char>> {
    match text_of(e, source_root_key()) {
        Some(sr) => if stripped(sr) == root {
            match text_of(e, location_key()) {
                Some(l) => Some(stripped(l)),
                None => None,
            }
        } else {
            None
        },
        None => None,
    }
}

/// The stripped locations of the entries recorded under `root`, in order.
pub open spec fn locations_under(es: Seq<EntryView>, root: Seq<char>) -> Seq<Seq<char>>
    decreases es.len(),
{
    if es.len() == 0 {
        Seq::empty()
    } else {
        match location_under(es.last(), root) {
            Some(l) => locations_under(es.drop_last(), root).push(l),
            None => locations_under(es.drop_last(), root),
        }
    }
}

pub open spec fn strings_view(s: Seq<String>) -> Seq<Seq<char>> {
    s.map_values(|x: String| x@)
}

/// The locations known under a source folder are, in order, the stripped
/// `location` strings of exactly the entries whose stripped `source_root`
/// string is that folder (entries without a location string add none); the
/// backup locations play no part.
pub proof fn law_known_locations(es: Seq<EntryView>, root: Seq<char>)
    ensures
        locations_under(es, root) == es.filter_map(
            |e: EntryView|
                match (text_of(e, source_root_key()), text_of(e, location_key())) {
                    (Some(sr), Some(l)) => if stripped(sr) == root {
                        Some(stripped(l))
                    } else {
                        None
                    },
                    _ => None,
                },
        ),
    decreases es.len(),
{
    if es.len() > 0 {
        law_known_locations(es.drop_last(), root);
        let rest = locations_under(es.drop_last(), root);
        if let Some(l) = location_under(es.last(), root) {
            assert(rest.push(l) =~= rest + seq![l]);
        }
    }
}

/// The locations of the files tracked under the source folder `root`.
pub fn tracked_locations_under(tracked_files: &Vec<StoredEntry>, root: &str) -> (r: Vec<String>)
    ensures
        strings_view(r@) == locations_under(entries_view(tracked_files@), root@),
{
    let ghost es = entries_view(tracked_files@);
    let mut out: Vec<String> = Vec::new();
    let mut i: usize = 0;
    while i < tracked_files.len()
        invariant
            i <= tracked_files@.len(),
            es == entries_view(tracked_files@),
            strings_view(out@) == locations_under(es.take(i as int), root@),
        decreases tracked_files@.len() - i,
    {
        assert(es.take(i + 1).drop_last() =~= es.take(i as int));
        assert(es.take(i + 1).last() == tracked_files@[i as int]@);
        if let Some(sr) = text_field(&tracked_files[i], key_source_root()) {
            let s = strip_windows_extended_prefix(sr.as_str());
            if str_eq(s.as_str(), root) {
                if let Some(l) = text_field(&tracked_files[i], key_location()) {
                    let ghost before = strings_view(out@);
                    out.push(strip_windows_extended_prefix(l.as_str()));
                    assert(strings_view(out@) =~= before.push(stripped(l@)));
                }
            }
        }
        i = i + 1;
    }
    assert(es.take(i as int) =~= es);
    out
}

/// Whether a file found in a tracked folder, at the normalized location
/// `candidate`, is not among the `known` locations.
pub fn is_untracked(known: &Vec<String>, candidate: &str) -> (r: bool)
    ensures
        r == !strings_view(known@).contains(candidate@),
{
    let ghost sv = strings_view(known@);
    let mut i: usize = 0;
    while i < known.len()
        invariant
            i <= known@.len(),
            sv == strings_view(known@),
            forall|j: int| 0 <= j < i ==> sv[j] != candidate@,
        decreases known@.len() - i,
    {
        if str_eq(known[i].as_str(), candidate) {
            assert(sv[i as int] == candidate@);
            return false;
        }
        i = i + 1;
    }
    true
}

/// Whether an entry names the source folder `root`.
pub open spec fn names_root(e: EntryView, root: Seq<char>) -> bool {
    match entry_root(e) {
        Some(p) => p.0 == root,
        None => false,
    }
}

/// Whether the `k`-th entry is the first to name its source folder, and
/// names it with `p`.
pub open spec fn first_naming(es: Seq<EntryView>, k: int, p: (Seq<char>, BackupRootView)) -> bool {
    &&& 0 <= k < es.len()
    &&& entry_root(es[k]) == Some(p)
    &&& forall|k2: int| 0 <= k2 < k ==> !names_root(#[trigger] es[k2], p.0)
}

/// Whether some entry is the first to name `p`'s folder, and names it with `p`.
pub open spec fn first_named(es: Seq<EntryView>, p: (Seq<char>, BackupRootView)) -> bool {
    exists|k: int| first_naming(es, k, p)
}

/// Each source folder is scanned once: the roots of the plan are distinct,
/// every folder an entry names is in the plan, and each comes with the backup
/// folder of the first entry that names it (later entries change nothing).
pub proof fn law_roots_scanned_once(es: Seq<EntryView>)
    ensures
        forall|i: int, j: int|
            0 <= i < j < root_plan(es).len() ==> #[trigger] root_plan(es)[i].0 != #[trigger] root_plan(
                es,
            )[j].0,
        forall|i: int|
            #![trigger root_plan(es)[i]]
            0 <= i < root_plan(es).len() ==> first_named(es, root_plan(es)[i]),
        forall|k: int|
            0 <= k < es.len() && (#[trigger] entry_root(es[k])) is Some ==> has_root(
                root_plan(es),
                entry_root(es[k]).unwrap().0,
            ),
    decreases es.len(),
{
    if es.len() > 0 {
        let t = es.drop_last();
        let n = t.len() as int;
        law_roots_scanned_once(t);
        let plan = root_plan(t);
        assert forall|k: int| 0 <= k < n implies #[trigger] es[k] == t[k] by {}
        assert forall|i: int| #![trigger plan[i]] 0 <= i < plan.len() implies first_named(es, plan[i]) by {
            assert(first_named(t, plan[i]));
            let k = choose|k: int| first_naming(t, k, plan[i]);
            assert(es[k] == t[k]);
            assert forall|k2: int| 0 <= k2 < k implies !names_root(#[trigger] es[k2], plan[i].0) by {
                assert(es[k2] == t[k2]);
            }
            assert(first_naming(es, k, plan[i]));
        }
        assert forall|k: int| 0 <= k < n && (#[trigger] entry_root(es[k])) is Some implies has_root(
            plan,
            entry_root(es[k]).unwrap().0,
        ) by {
            assert(es[k] == t[k]);
        }
        if let Some(p) = entry_root(es.last()) {
            if !has_root(plan, p.0) {
                let np = plan.push(p);
                assert(root_plan(es) == np);
                assert forall|k2: int| 0 <= k2 < n implies !names_root(#[trigger] es[k2], p.0) by {
                    assert(es[k2] == t[k2]);
                    if names_root(es[k2], p.0) {
                        assert(entry_root(t[k2]) is Some);
                    }
                }
                assert(first_naming(es, n, p));
                assert forall|i: int, j: int| 0 <= i < j < np.len() implies #[trigger] np[i].0
                    != #[trigger] np[j].0 by {
                    if j == plan.len() {
                        assert(np[i] == plan[i]);
                    } else {
                        assert(np[i] == plan[i] && np[j] == plan[j]);
                    }
                }
                assert forall|k: int| 0 <= k < es.len() && (#[trigger] entry_root(es[k])) is Some implies has_root(
                    np,
                    entry_root(es[k]).unwrap().0,
                ) by {
                    if k < n {
                        let i = choose|i: int| 0 <= i < plan.len() && plan[i].0 == entry_root(es[k]).unwrap().0;
                        assert(np[i] == plan[i]);
                    } else {
                        assert(np[plan.len() as int] == p);
                    }
                }
            } else {
                assert(root_plan(es) == plan);
                assert forall|k: int| 0 <= k < es.len() && (#[trigger] entry_root(es[k])) is Some implies has_root(
                    plan,
                    entry_root(es[k]).unwrap().0,
                ) by {
                    if k == n {
                        assert(es[k] == es.last());
                    }
                }
            }
        } else {
            assert(root_plan(es) == plan);
            assert forall|k: int| 0 <= k < es.len() && (#[trigger] entry_root(es[k])) is Some implies has_root(
                plan,
                entry_root(es[k]).unwrap().0,
            ) by {
                if k == n {
                    assert(es[k] == es.last());
                }
            }
        }
        let rp = root_plan(es);
        assert forall|i: int| #![trigger rp[i]] 0 <= i < rp.len() implies first_named(es, rp[i]) by {
            if i < plan.len() {
                assert(rp[i] == plan[i]);
                assert(first_named(es, plan[i]));
            } else {
                let p = entry_root(es.last()).unwrap();
                assert(rp[i] == p);
                assert forall|k2: int| 0 <= k2 < n implies !names_root(#[trigger] es[k2], p.0) by {
                    assert(es[k2] == t[k2]);
                    if names_root(es[k2], p.0) {
                        assert(entry_root(t[k2]) is Some);
                    }
                }
                assert(first_naming(es, n, p));
            }
        }
    } else {
        assert(root_plan(es).len() == 0);
    }
}

} // verus!
