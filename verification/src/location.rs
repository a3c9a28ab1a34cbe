use vstd::prelude::*;

verus! {

/// The marker that Windows puts in front of an extended-length UNC path.
pub open spec fn unc_marker() -> Seq<char> {
    seq!['\\', '\\', '?', '\\', 'U', 'N', 'C', '\\']
}

/// The marker that Windows puts in front of an extended-length path.
pub open spec fn extended_marker() -> Seq<char> {
    seq!['\\', '\\', '?', '\\']
}

/// The two backslashes that open an ordinary UNC path.
pub open spec fn unc_lead() -> Seq<char> {
    seq!['\\', '\\']
}

pub open spec fn starts_with(s: Seq<char>, prefix: Seq<char>) -> bool {
    prefix.len() <= s.len() && s.subrange(0, prefix.len() as int) == prefix
}

/// A location with the Windows extended-length marker taken off:
/// `\\?\UNC\server\share` becomes `\\server\share`, `\\?\C:\x` becomes `C:\x`,
/// and anything else is left as it is.
pub open spec fn stripped(path: Seq<char>) -> Seq<char> {
    if starts_with(path, unc_marker()) {
        unc_lead() + path.skip(unc_marker().len() as int)
    } else if starts_with(path, extended_marker()) {
        path.skip(extended_marker().len() as int)
    } else {
        path
    }
}


/// Whether `s` begins with `prefix`, compared character by character.
pub fn starts_with_str(s: &str, prefix: &str) -> (b: bool)
    ensures
        b == starts_with(s@, prefix@),
{
    let n = s.unicode_len();
    let m = prefix.unicode_len();
    if m > n {
        return false;
    }
    let mut i: usize = 0;
    while i < m
        invariant
            n == s@.len(),
            m == prefix@.len(),
            m <= n,
            i <= m,
            forall|j: int| 0 <= j < i ==> s@[j] == prefix@[j],
        decreases m - i,
    {
        if s.get_char(i) != prefix.get_char(i) {
            assert(s@.subrange(0, m as int)[i as int] != prefix@[i as int]);
            return false;
        }
        i = i + 1;
    }
    assert(s@.subrange(0, m as int) =~= prefix@);
    true
}

/// Whether two strings hold the same characters.
pub fn str_eq(a: &str, b: &str) -> (r: bool)
    ensures
        r == (a@ == b@),
{
    if a.unicode_len() != b.unicode_len() {
        return false;
    }
    let r = starts_with_str(a, b);
    proof {
        assert(a@.subrange(0, a@.len() as int) =~= a@);
        if r {
            assert(a@ =~= a@.subrange(0, b@.len() as int));
        }
    }
    r
}

/// Takes the Windows extended-length marker off a location, as `stripped` says.
pub fn strip_windows_extended_prefix(path: &str) -> (res: String)
    ensures
        res@ == stripped(path@),
{
    let unc = "\\\\?\\UNC\\";
    let ext = "\\\\?\\";
    let lead = "\\\\";
    proof {
        reveal_strlit("\\\\?\\UNC\\");
        reveal_strlit("\\\\?\\");
        reveal_strlit("\\\\");
        assert(unc@ =~= unc_marker());
        assert(ext@ =~= extended_marker());
        assert(lead@ =~= unc_lead());
    }
    let n = path.unicode_len();
    if starts_with_str(path, unc) {
        let rest = path.substring_char(8, n);
        let res = String::from_str(lead).concat(rest);
        assert(rest@ =~= path@.skip(8));
        res
    } else if starts_with_str(path, ext) {
        let rest = path.substring_char(4, n);
        assert(rest@ =~= path@.skip(4));
        String::from_str(rest)
    } else {
        String::from_str(path)
    }
}

/// The location recorded for a path: its canonical form if the file system
/// gave one, else the fallback text, with the extended-length marker stripped.
pub fn normalize_location(canonical: Option<String>, fallback: &str) -> (r: String)
    ensures
        r@ == stripped(
            match canonical {
                Some(c) => c@,
                None => fallback@,
            },
        ),
{
    match canonical {
        Some(c) => strip_windows_extended_prefix(c.as_str()),
        None => strip_windows_extended_prefix(fallback),
    }
}

/// Stripping never lengthens a location, leaves one without the
/// extended-length marker as it is, and keeps a UNC location a UNC location.
pub proof fn law_stripped_shape(path: Seq<char>)
    ensures
        stripped(path).len() <= path.len(),
        !starts_with(path, extended_marker()) ==> stripped(path) == path,
        starts_with(path, unc_marker()) ==> starts_with(stripped(path), unc_lead()),
{
    if starts_with(path, unc_marker()) {
        assert(path.subrange(0, 4) =~= path.subrange(0, 8).subrange(0, 4));
        assert(unc_marker().subrange(0, 4) =~= extended_marker());
        assert(stripped(path).subrange(0, 2) =~= unc_lead());
    }
}

} // verus!
