//! The tracking list's elements: JSON objects, modelled as key/value lists.
use vstd::prelude::*;
use crate::location::str_eq;

verus! {

/// A value stored under a key of a tracked entry.
#[derive(Debug, Clone, PartialEq, Eq)]
pub enum JsonField {
    /// A JSON string.
    Text(String),
    /// JSON `null`.
    Null,
    /// Any other JSON value, kept as its JSON text.
    Other(String),
}

/// What a `JsonField` holds, as characters.
pub enum FieldView {
    Text(Seq<char>),
    Null,
    Other(Seq<char>),
}

impl View for JsonField {
    type V = FieldView;

    open spec fn view(&self) -> FieldView {
        match self {
            JsonField::Text(s) => FieldView::Text(s@),
            JsonField::Null => FieldView::Null,
            JsonField::Other(s) => FieldView::Other(s@),
        }
    }
}

/// One element of the tracking list: a JSON object, given by its key/value
/// pairs, or any other JSON value, kept as its JSON text.
#[derive(Debug, Clone, PartialEq, Eq)]
pub enum StoredEntry {
    Object(Vec<(String, JsonField)>),
    Other(String),
}

/// What a `StoredEntry` holds, as characters.
pub enum EntryView {
    Object(Seq<(Seq<char>, FieldView)>),
    Other(Seq<char>),
}

pub open spec fn pair_view(p: (String, JsonField)) -> (Seq<char>, FieldView) {
    (p.0@, p.1@)
}

pub open spec fn fields_view(fs: Seq<(String, JsonField)>) -> Seq<(Seq<char>, FieldView)> {
    fs.map_values(|p: (String, JsonField)| pair_view(p))
}

impl View for StoredEntry {
    type V = EntryView;

    open spec fn view(&self) -> EntryView {
        match self {
            StoredEntry::Object(fs) => EntryView::Object(fields_view(fs@)),
            StoredEntry::Other(s) => EntryView::Other(s@),
        }
    }
}

/// The views of a list of entries.
pub open spec fn entries_view(es: Seq<StoredEntry>) -> Seq<EntryView> {
    es.map_values(|e: StoredEntry| e@)
}

pub open spec fn opt_text(o: Option<String>) -> Option<Seq<char>> {
    match o {
        Some(s) => Some(s@),
        None => None,
    }
}

/// The value stored under `key`: that of the first pair with this key.
pub open spec fn field_of(fs: Seq<(Seq<char>, FieldView)>, key: Seq<char>) -> Option<FieldView>
    decreases fs.len(),
{
    if fs.len() == 0 {
        None
    } else if fs[0].0 == key {
        Some(fs[0].1)
    } else {
        field_of(fs.drop_first(), key)
    }
}

/// The pairs with the value under `key` replaced by `v`, or with `(key, v)`
/// added at the end where no pair has that key.
pub open spec fn with_field(fs: Seq<(Seq<char>, FieldView)>, key: Seq<char>, v: FieldView) -> Seq<
    (Seq<char>, FieldView),
>
    decreases fs.len(),
{
    if fs.len() == 0 {
        seq![(key, v)]
    } else if fs[0].0 == key {
        seq![(key, v)] + fs.drop_first()
    } else {
        seq![fs[0]] + with_field(fs.drop_first(), key, v)
    }
}

/// The string stored under `key` in an object; `None` for a missing key,
/// a value that is not a string, or an entry that is not an object.
pub open spec fn text_of(e: EntryView, key: Seq<char>) -> Option<Seq<char>> {
    match e {
        EntryView::Object(fs) => match field_of(fs, key) {
            Some(FieldView::Text(t)) => Some(t),
            _ => None,
        },
        EntryView::Other(_) => None,
    }
}

pub open spec fn is_object(e: EntryView) -> bool {
    e is Object
}

/// An object with the string `t` stored under `key`; any other entry unchanged.
pub open spec fn with_text(e: EntryView, key: Seq<char>, t: Seq<char>) -> EntryView {
    match e {
        EntryView::Object(fs) => EntryView::Object(with_field(fs, key, FieldView::Text(t))),
        EntryView::Other(_) => e,
    }
}

/// Replacing a value by the one already there changes nothing.
pub proof fn lemma_with_field_same(fs: Seq<(Seq<char>, FieldView)>, key: Seq<char>, v: FieldView)
    requires
        field_of(fs, key) == Some(v),
    ensures
        with_field(fs, key, v) == fs,
    decreases fs.len(),
{
    if fs[0].0 == key {
        assert(with_field(fs, key, v) =~= fs);
    } else {
        lemma_with_field_same(fs.drop_first(), key, v);
        assert(with_field(fs, key, v) =~= fs);
    }
}

/// Reading a key after storing a value under it gives that value; other
/// keys read as before.
pub proof fn lemma_field_of_with_field(
    fs: Seq<(Seq<char>, FieldView)>,
    key: Seq<char>,
    v: FieldView,
    other: Seq<char>,
)
    ensures
        field_of(with_field(fs, key, v), other) == if other == key {
            Some(v)
        } else {
            field_of(fs, other)
        },
    decreases fs.len(),
{
    let r = with_field(fs, key, v);
    if fs.len() == 0 {
        assert(r.len() == 1 && r[0] == (key, v));
        if other != key {
            assert(field_of(r.drop_first(), other) is None);
        }
    } else if fs[0].0 == key {
        assert(r[0] == (key, v));
        assert(r.drop_first() =~= fs.drop_first());
    } else {
        assert(r[0] == fs[0]);
        assert(r.drop_first() =~= with_field(fs.drop_first(), key, v));
        lemma_field_of_with_field(fs.drop_first(), key, v, other);
    }
}

/// `with_field` is a replacement at the first pair with the key, or a push.
proof fn lemma_with_field_shape(fs: Seq<(Seq<char>, FieldView)>, key: Seq<char>, v: FieldView, i: int)
    requires
        0 <= i <= fs.len(),
        forall|j: int| 0 <= j < i ==> fs[j].0 != key,
        i < fs.len() ==> fs[i].0 == key,
    ensures
        i < fs.len() ==> with_field(fs, key, v) == fs.update(i, (key, v)),
        i == fs.len() ==> with_field(fs, key, v) == fs.push((key, v)),
    decreases fs.len(),
{
    if fs.len() == 0 {
        assert(with_field(fs, key, v) =~= fs.push((key, v)));
    } else if i == 0 {
        assert(with_field(fs, key, v) =~= fs.update(0, (key, v)));
    } else {
        let t = fs.drop_first();
        assert forall|j: int| 0 <= j < i - 1 implies t[j].0 != key by {
            assert(t[j] == fs[j + 1]);
        }
        lemma_with_field_shape(t, key, v, i - 1);
        if i < fs.len() {
            assert(with_field(fs, key, v) =~= fs.update(i, (key, v)));
        } else {
            assert(with_field(fs, key, v) =~= fs.push((key, v)));
        }
    }
}

/// Where the first pair with the key is, if any.
proof fn lemma_field_of_index(fs: Seq<(Seq<char>, FieldView)>, key: Seq<char>, i: int)
    requires
        0 <= i <= fs.len(),
        forall|j: int| 0 <= j < i ==> fs[j].0 != key,
        i < fs.len() ==> fs[i].0 == key,
    ensures
        i < fs.len() ==> field_of(fs, key) == Some(fs[i].1),
        i == fs.len() ==> field_of(fs, key) is None,
    decreases fs.len(),
{
    if fs.len() > 0 && i > 0 {
        let t = fs.drop_first();
        assert forall|j: int| 0 <= j < i - 1 implies t[j].0 != key by {
            assert(t[j] == fs[j + 1]);
        }
        lemma_field_of_index(t, key, i - 1);
    }
}

/// Finds the first pair with the key.
fn find_key(fs: &Vec<(String, JsonField)>, key: &str) -> (r: usize)
    ensures
        r <= fs@.len(),
        forall|j: int| 0 <= j < r ==> fields_view(fs@)[j].0 != key@,
        r < fs@.len() ==> fields_view(fs@)[r as int].0 == key@,
{
    let mut i: usize = 0;
    while i < fs.len()
        invariant
            i <= fs@.len(),
            forall|j: int| 0 <= j < i ==> fields_view(fs@)[j].0 != key@,
        decreases fs@.len() - i,
    {
        if str_eq(fs[i].0.as_str(), key) {
            return i;
        }
        i = i + 1;
    }
    i
}

/// The string stored under `key`, if the entry is an object and holds one there.
pub fn text_field(e: &StoredEntry, key: &str) -> (r: Option<String>)
    ensures
        opt_text(r) == text_of(e@, key@),
{
    match e {
        StoredEntry::Object(fs) => {
            let i = find_key(fs, key);
            proof {
                lemma_field_of_index(fields_view(fs@), key@, i as int);
            }
            if i < fs.len() {
                match &fs[i].1 {
                    JsonField::Text(t) => Some(t.clone()),
                    _ => None,
                }
            } else {
                None
            }
        },
        StoredEntry::Other(_) => None,
    }
}

/// Stores the string `t` under `key`, replacing what was there, or adding the
/// key at the end. An entry that is not an object is left as it is.
pub fn set_text_field(e: &mut StoredEntry, key: &str, t: String)
    ensures
        final(e)@ == with_text(old(e)@, key@, t@),
{
    match e {
        StoredEntry::Object(fs) => {
            let i = find_key(fs, key);
            let ghost old_fs = fields_view(fs@);
            proof {
                lemma_with_field_shape(old_fs, key@, FieldView::Text(t@), i as int);
            }
            let pair = (String::from_str(key), JsonField::Text(t));
            if i < fs.len() {
                fs.set(i, pair);
                assert(fields_view(fs@) =~= old_fs.update(i as int, (key@, FieldView::Text(t@))));
            } else {
                fs.push(pair);
                assert(fields_view(fs@) =~= old_fs.push((key@, FieldView::Text(t@))));
            }
        },
        StoredEntry::Other(_) => {},
    }
}

pub open spec fn location_key() -> Seq<char> {
    seq!['l', 'o', 'c', 'a', 't', 'i', 'o', 'n']
}

pub open spec fn backup_location_key() -> Seq<char> {
    seq!['b', 'a', 'c', 'k', 'u', 'p', '_', 'l', 'o', 'c', 'a', 't', 'i', 'o', 'n']
}

pub open spec fn backup_root_key() -> Seq<char> {
    seq!['b', 'a', 'c', 'k', 'u', 'p', '_', 'r', 'o', 'o', 't']
}

pub open spec fn source_root_key() -> Seq<char> {
    seq!['s', 'o', 'u', 'r', 'c', 'e', '_', 'r', 'o', 'o', 't']
}

pub open spec fn name_key() -> Seq<char> {
    seq!['n', 'a', 'm', 'e']
}

pub open spec fn hash_key() -> Seq<char> {
    seq!['h', 'a', 's', 'h']
}

pub open spec fn backup_hash_key() -> Seq<char> {
    seq!['b', 'a', 'c', 'k', 'u', 'p', '_', 'h', 'a', 's', 'h']
}

pub fn key_location() -> (k: &'static str)
    ensures
        k@ == location_key(),
{
    proof {
        reveal_strlit("location");
    }
    "location"
}

pub fn key_backup_location() -> (k: &'static str)
    ensures
        k@ == backup_location_key(),
{
    proof {
        reveal_strlit("backup_location");
    }
    "backup_location"
}

pub fn key_backup_root() -> (k: &'static str)
    ensures
        k@ == backup_root_key(),
{
    proof {
        reveal_strlit("backup_root");
    }
    "backup_root"
}

pub fn key_source_root() -> (k: &'static str)
    ensures
        k@ == source_root_key(),
{
    proof {
        reveal_strlit("source_root");
    }
    "source_root"
}

pub fn key_name() -> (k: &'static str)
    ensures
        k@ == name_key(),
{
    proof {
        reveal_strlit("name");
    }
    "name"
}

pub fn key_hash() -> (k: &'static str)
    ensures
        k@ == hash_key(),
{
    proof {
        reveal_strlit("hash");
    }
    "hash"
}

pub fn key_backup_hash() -> (k: &'static str)
    ensures
        k@ == backup_hash_key(),
{
    proof {
        reveal_strlit("backup_hash");
    }
    "backup_hash"
}

} // verus!
