//! Operations on the tracking list: normalizing, merging, building and removing entries.
use vstd::prelude::*;
use crate::entry::{
    lemma_field_of_with_field,
    is_object,
    opt_text,
    JsonField, fields_view, name_key, hash_key, backup_hash_key, source_root_key, key_name, key_hash,
    key_backup_hash, key_source_root,
    EntryView, FieldView, StoredEntry, text_of, with_text, entries_view, location_key,
    backup_location_key, backup_root_key, text_field, set_text_field, lemma_with_field_same,
    key_location, key_backup_location, key_backup_root,
};
use crate::location::{stripped, strip_windows_extended_prefix, str_eq};

verus! {

/// The entry with the string under `key` given its extended-length marker
/// stripped; an entry without a string there is unchanged.
pub open spec fn normalized_text(e: EntryView, key: Seq<char>) -> EntryView {
    match text_of(e, key) {
        Some(t) => with_text(e, key, stripped(t)),
        None => e,
    }
}

/// The entry with its `location`, `backup_location` and `backup_root` strings stripped.
pub open spec fn normalized_entry(e: EntryView) -> EntryView {
    normalized_text(
        normalized_text(normalized_text(e, location_key()), backup_location_key()),
        backup_root_key(),
    )
}

fn normalize_text_field(e: &mut StoredEntry, key: &str)
    ensures
        final(e)@ == normalized_text(old(e)@, key@),
{
    if let Some(value) = text_field(e, key) {
        let normalized = strip_windows_extended_prefix(value.as_str());
        if !str_eq(normalized.as_str(), value.as_str()) {
            set_text_field(e, key, normalized);
        } else {
            proof {
                if let EntryView::Object(fs) = e@ {
                    lemma_with_field_same(fs, key@, FieldView::Text(value@));
                }
            }
        }
    }
}

/// Strips the extended-length marker off the location strings of one entry.
pub fn normalize_entry(e: &mut StoredEntry)
    ensures
        final(e)@ == normalized_entry(old(e)@),
{
    normalize_text_field(e, key_location());
    normalize_text_field(e, key_backup_location());
    normalize_text_field(e, key_backup_root());
}

/// Strips the extended-length marker off the location strings of every entry.
pub fn normalize_locations_in_entries(entries: &mut Vec<StoredEntry>)
    ensures
        entries_view(final(entries)@) == entries_view(old(entries)@).map_values(
            |e: EntryView| normalized_entry(e),
        ),
{
    let ghost start = entries_view(entries@);
    let mut i: usize = 0;
    while i < entries.len()
        invariant
            i <= entries@.len(),
            entries@.len() == start.len(),
            forall|j: int| 0 <= j < i ==> entries@[j]@ == normalized_entry(start[j]),
            forall|j: int| i <= j < entries@.len() ==> entries@[j]@ == start[j],
        decreases entries@.len() - i,
    {
        normalize_entry(&mut entries[i]);
        i = i + 1;
    }
    assert(entries_view(entries@) =~= start.map_values(|e: EntryView| normalized_entry(e)));
}

/// An index from keys to positions, later pairs taking precedence over earlier ones.
pub open spec fn index_map(s: Seq<(Seq<char>, int)>) -> Map<Seq<char>, int>
    decreases s.len(),
{
    if s.len() == 0 {
        Map::empty()
    } else {
        index_map(s.drop_last()).insert(s.last().0, s.last().1)
    }
}

/// The position of each stripped location among the entries; where several
/// entries share a location, the last of them.
pub open spec fn location_index(es: Seq<EntryView>) -> Map<Seq<char>, int>
    decreases es.len(),
{
    if es.len() == 0 {
        Map::empty()
    } else {
        match text_of(es.last(), location_key()) {
            Some(l) => location_index(es.drop_last()).insert(stripped(l), es.len() - 1),
            None => location_index(es.drop_last()),
        }
    }
}

/// Merging the keyed entries `new` into `es`, one after the other, while `m`
/// tells where each known location stands: an entry whose location is known
/// replaces the entry there; any other is added at the end and its location
/// becomes known.
pub open spec fn merge_from(
    es: Seq<EntryView>,
    m: Map<Seq<char>, int>,
    new: Seq<(Seq<char>, EntryView)>,
) -> Seq<EntryView>
    decreases new.len(),
{
    if new.len() == 0 {
        es
    } else if m.contains_key(new[0].0) {
        merge_from(es.update(m[new[0].0], new[0].1), m, new.drop_first())
    } else {
        merge_from(es.push(new[0].1), m.insert(new[0].0, es.len() as int), new.drop_first())
    }
}

/// The tracking list after merging keyed entries into it.
pub open spec fn merged(es: Seq<EntryView>, new: Seq<(Seq<char>, EntryView)>) -> Seq<EntryView> {
    merge_from(es, location_index(es), new)
}

pub open spec fn keyed_view(new: Seq<(String, StoredEntry)>) -> Seq<(Seq<char>, EntryView)> {
    new.map_values(|p: (String, StoredEntry)| (p.0@, p.1@))
}

pub open spec fn index_view(s: Seq<(String, usize)>) -> Seq<(Seq<char>, int)> {
    s.map_values(|p: (String, usize)| (p.0@, p.1 as int))
}

/// The value of a key in `index_map` is that of its last pair.
proof fn lemma_index_map_last(s: Seq<(Seq<char>, int)>, k: Seq<char>, j: int)
    requires
        -1 <= j < s.len(),
        forall|i: int| j < i < s.len() ==> s[i].0 != k,
        j >= 0 ==> s[j].0 == k,
    ensures
        j >= 0 ==> index_map(s).contains_key(k) && index_map(s)[k] == s[j].1,
        j < 0 ==> !index_map(s).contains_key(k),
    decreases s.len(),
{
    if s.len() > 0 && j < s.len() - 1 {
        let t = s.drop_last();
        assert forall|i: int| j < i < t.len() implies t[i].0 != k by {
            assert(t[i] == s[i]);
        }
        lemma_index_map_last(t, k, j);
    }
}

/// Finds the last pair with the key.
fn find_last(idx: &Vec<(String, usize)>, key: &str) -> (r: Option<usize>)
    ensures
        match r {
            Some(v) => index_map(index_view(idx@)).contains_key(key@) && index_map(
                index_view(idx@),
            )[key@] == v as int,
            None => !index_map(index_view(idx@)).contains_key(key@),
        },
        r matches Some(v) ==> exists|j: int| 0 <= j < idx@.len() && idx@[j].1 == v,
{
    let ghost s = index_view(idx@);
    let mut i: usize = idx.len();
    while i > 0
        invariant
            i <= idx@.len(),
            s == index_view(idx@),
            forall|j: int| i <= j < s.len() ==> s[j].0 != key@,
        decreases i,
    {
        if str_eq(idx[i - 1].0.as_str(), key) {
            proof {
                lemma_index_map_last(s, key@, i - 1);
            }
            return Some(idx[i - 1].1);
        }
        i = i - 1;
    }
    proof {
        lemma_index_map_last(s, key@, -1);
    }
    None
}

/// Merges keyed entries into the tracking list: an entry whose key is the
/// (stripped) location of an entry already there replaces it in place; any
/// other is added at the end. Keys added this way are matched by later entries.
pub fn merge_tracked_entries(
    tracked_files: &mut Vec<StoredEntry>,
    tracked_entries: Vec<(String, StoredEntry)>,
)
    ensures
        entries_view(final(tracked_files)@) == merged(
            entries_view(old(tracked_files)@),
            keyed_view(tracked_entries@),
        ),
{
    let ghost start = entries_view(tracked_files@);
    let mut idx: Vec<(String, usize)> = Vec::new();
    let mut i: usize = 0;
    while i < tracked_files.len()
        invariant
            i <= tracked_files@.len(),
            start == entries_view(tracked_files@),
            index_map(index_view(idx@)) == location_index(start.take(i as int)),
            forall|j: int| 0 <= j < idx@.len() ==> idx@[j].1 < i,
        decreases tracked_files@.len() - i,
    {
        assert(start.take(i + 1).drop_last() =~= start.take(i as int));
        assert(start.take(i + 1).last() == tracked_files@[i as int]@);
        let ghost before = index_view(idx@);
        if let Some(location) = text_field(&tracked_files[i], key_location()) {
            let key = strip_windows_extended_prefix(location.as_str());
            idx.push((key, i));
            assert(index_view(idx@).drop_last() =~= before);
            assert(index_view(idx@).last() == (stripped(location@), i as int));
        }
        i = i + 1;
    }
    assert(start.take(i as int) =~= start);
    let ghost target = merged(start, keyed_view(tracked_entries@));
    let mut rest = tracked_entries;
    while rest.len() > 0
        invariant
            merge_from(
                entries_view(tracked_files@),
                index_map(index_view(idx@)),
                keyed_view(rest@),
            ) == target,
            forall|j: int| 0 <= j < idx@.len() ==> idx@[j].1 < tracked_files@.len(),
        decreases rest@.len(),
    {
        let ghost before = entries_view(tracked_files@);
        let ghost krest = keyed_view(rest@);
        let ghost old_idx = index_view(idx@);
        let (location, file_info) = rest.remove(0);
        assert(keyed_view(rest@) =~= krest.drop_first());
        match find_last(&idx, location.as_str()) {
            Some(index) => {
                tracked_files.set(index, file_info);
                assert(entries_view(tracked_files@) =~= before.update(index as int, krest[0].1));
            },
            None => {
                let new_index = tracked_files.len();
                tracked_files.push(file_info);
                idx.push((location, new_index));
                assert(entries_view(tracked_files@) =~= before.push(krest[0].1));
                assert(index_view(idx@).drop_last() =~= old_idx);
                assert(index_view(idx@).last() == (krest[0].0, before.len() as int));
            },
        }
    }
}

/// A string value, or `null` where there is none.
pub open spec fn text_or_null(o: Option<Seq<char>>) -> FieldView {
    match o {
        Some(t) => FieldView::Text(t),
        None => FieldView::Null,
    }
}

/// The object recorded for a tracked file.
pub open spec fn tracked_object(
    name: Seq<char>,
    hash: Seq<char>,
    location: Seq<char>,
    backup_location: Seq<char>,
    backup_hash: Option<Seq<char>>,
) -> EntryView {
    EntryView::Object(
        seq![
            (name_key(), FieldView::Text(name)),
            (hash_key(), FieldView::Text(hash)),
            (location_key(), FieldView::Text(location)),
            (backup_location_key(), FieldView::Text(backup_location)),
            (backup_hash_key(), text_or_null(backup_hash)),
        ],
    )
}

/// The object recorded for a file tracked as part of a folder: the fields of
/// `tracked_object` together with the roots of the source and of the backup.
pub open spec fn tracked_object_with_root(
    name: Seq<char>,
    hash: Seq<char>,
    location: Seq<char>,
    backup_location: Seq<char>,
    backup_root: Seq<char>,
    backup_hash: Option<Seq<char>>,
    source_root: Seq<char>,
) -> EntryView {
    EntryView::Object(
        seq![
            (name_key(), FieldView::Text(name)),
            (hash_key(), FieldView::Text(hash)),
            (location_key(), FieldView::Text(location)),
            (backup_location_key(), FieldView::Text(backup_location)),
            (backup_root_key(), FieldView::Text(backup_root)),
            (backup_hash_key(), text_or_null(backup_hash)),
            (source_root_key(), FieldView::Text(source_root)),
        ],
    )
}

fn text_or_null_field(o: Option<String>) -> (f: JsonField)
    ensures
        f@ == text_or_null(opt_text(o)),
{
    match o {
        Some(t) => JsonField::Text(t),
        None => JsonField::Null,
    }
}

/// Builds the entry for a tracked file from its name, its hash, its
/// normalized location, the normalized location of its backup and the hash
/// of the backup (if it could be read); the entry is keyed by its location.
pub fn build_tracked_entry(
    name: String,
    source_hash: String,
    source_location: String,
    backup_location: String,
    backup_hash: Option<String>,
) -> (r: (String, StoredEntry))
    ensures
        r.0@ == source_location@,
        r.1@ == tracked_object(
            name@,
            source_hash@,
            source_location@,
            backup_location@,
            opt_text(backup_hash),
        ),
{
    let key = source_location.clone();
    let mut fs: Vec<(String, JsonField)> = Vec::new();
    fs.push((String::from_str(key_name()), JsonField::Text(name)));
    fs.push((String::from_str(key_hash()), JsonField::Text(source_hash)));
    fs.push((String::from_str(key_location()), JsonField::Text(source_location)));
    fs.push((String::from_str(key_backup_location()), JsonField::Text(backup_location)));
    fs.push((String::from_str(key_backup_hash()), text_or_null_field(backup_hash)));
    let r = (key, StoredEntry::Object(fs));
    assert(fields_view(fs@) =~= seq![
        (name_key(), FieldView::Text(name@)),
        (hash_key(), FieldView::Text(source_hash@)),
        (location_key(), FieldView::Text(source_location@)),
        (backup_location_key(), FieldView::Text(backup_location@)),
        (backup_hash_key(), text_or_null(opt_text(backup_hash))),
    ]);
    r
}

/// Builds the entry for a file tracked as part of a folder: as
/// `build_tracked_entry`, with the (normalized) roots of the source folder and
/// of its backup besides.
pub fn build_tracked_entry_with_root(
    name: String,
    source_hash: String,
    source_location: String,
    backup_location: String,
    backup_hash: Option<String>,
    source_root: String,
    backup_root: String,
) -> (r: (String, StoredEntry))
    ensures
        r.0@ == source_location@,
        r.1@ == tracked_object_with_root(
            name@,
            source_hash@,
            source_location@,
            backup_location@,
            backup_root@,
            opt_text(backup_hash),
            source_root@,
        ),
{
    let key = source_location.clone();
    let mut fs: Vec<(String, JsonField)> = Vec::new();
    fs.push((String::from_str(key_name()), JsonField::Text(name)));
    fs.push((String::from_str(key_hash()), JsonField::Text(source_hash)));
    fs.push((String::from_str(key_location()), JsonField::Text(source_location)));
    fs.push((String::from_str(key_backup_location()), JsonField::Text(backup_location)));
    fs.push((String::from_str(key_backup_root()), JsonField::Text(backup_root)));
    fs.push((String::from_str(key_backup_hash()), text_or_null_field(backup_hash)));
    fs.push((String::from_str(key_source_root()), JsonField::Text(source_root)));
    let r = (key, StoredEntry::Object(fs));
    assert(fields_view(fs@) =~= seq![
        (name_key(), FieldView::Text(name@)),
        (hash_key(), FieldView::Text(source_hash@)),
        (location_key(), FieldView::Text(source_location@)),
        (backup_location_key(), FieldView::Text(backup_location@)),
        (backup_root_key(), FieldView::Text(backup_root@)),
        (backup_hash_key(), text_or_null(opt_text(backup_hash))),
        (source_root_key(), FieldView::Text(source_root@)),
    ]);
    r
}

/// The list as read back for tracking: a list whose first element is not an
/// object is dropped whole.
pub open spec fn usable_list(es: Seq<EntryView>) -> Seq<EntryView> {
    if es.len() > 0 && !is_object(es[0]) {
        Seq::empty()
    } else {
        es
    }
}

pub open spec fn normalized_list(es: Seq<EntryView>) -> Seq<EntryView> {
    es.map_values(|e: EntryView| normalized_entry(e))
}

/// The tracking list after recording new keyed entries in it.
pub open spec fn recorded(es: Seq<EntryView>, new: Seq<(Seq<char>, EntryView)>) -> Seq<EntryView> {
    merged(normalized_list(usable_list(es)), new)
}

/// Records newly built entries in the tracking list as read back: drops a
/// list whose first element is not an object, normalizes the locations, and
/// merges the new entries in.
pub fn record_tracked_entries(
    tracked_files: Vec<StoredEntry>,
    tracked_entries: Vec<(String, StoredEntry)>,
) -> (r: Vec<StoredEntry>)
    ensures
        entries_view(r@) == recorded(entries_view(tracked_files@), keyed_view(tracked_entries@)),
{
    let mut tracked_files = tracked_files;
    let malformed = tracked_files.len() > 0 && match &tracked_files[0] {
        StoredEntry::Object(_) => false,
        StoredEntry::Other(_) => true,
    };
    if malformed {
        tracked_files = Vec::new();
        assert(entries_view(tracked_files@) =~= Seq::<EntryView>::empty());
    }
    normalize_locations_in_entries(&mut tracked_files);
    merge_tracked_entries(&mut tracked_files, tracked_entries);
    tracked_files
}

/// Whether an entry stays when the file at `location` is untracked: it has
/// no location string, or a different one once stripped.
pub open spec fn kept_on_untrack(e: EntryView, location: Seq<char>) -> bool {
    !located_at(e, location)
}

/// Whether an entry's location string, stripped, is `location`.
pub open spec fn located_at(e: EntryView, location: Seq<char>) -> bool {
    match text_of(e, location_key()) {
        Some(l) => stripped(l) == location,
        None => false,
    }
}

/// The entries, in order, that stay when `location` is untracked.
pub open spec fn kept_entries(es: Seq<EntryView>, location: Seq<char>) -> Seq<EntryView>
    decreases es.len(),
{
    if es.len() == 0 {
        Seq::empty()
    } else if kept_on_untrack(es.last(), location) {
        kept_entries(es.drop_last(), location).push(es.last())
    } else {
        kept_entries(es.drop_last(), location)
    }
}

/// The tracking list after untracking the file at `location`.
pub open spec fn untracked(es: Seq<EntryView>, location: Seq<char>) -> Seq<EntryView> {
    kept_entries(normalized_list(es), location)
}

/// Untracks the file whose normalized location is `location`: normalizes
/// the list and drops every entry tracked there.
pub fn untrack_location(tracked_files: Vec<StoredEntry>, location: &str) -> (r: Vec<StoredEntry>)
    ensures
        entries_view(r@) == untracked(entries_view(tracked_files@), location@),
{
    let mut tracked_files = tracked_files;
    normalize_locations_in_entries(&mut tracked_files);
    let ghost es = entries_view(tracked_files@);
    let mut kept: Vec<StoredEntry> = Vec::new();
    let mut rest = tracked_files;
    let ghost total = rest@.len();
    while rest.len() > 0
        invariant
            total == es.len(),
            rest@.len() <= total,
            entries_view(kept@) == kept_entries(es.take(total - rest@.len()), location@),
            forall|j: int| 0 <= j < rest@.len() ==> rest@[j]@ == es[total - rest@.len() + j],
        decreases rest@.len(),
    {
        let ghost done = total - rest@.len();
        let e = rest.remove(0);
        assert(es.take(done + 1).drop_last() =~= es.take(done));
        assert(e@ == es[done]);
        let keep = match text_field(&e, key_location()) {
            Some(l) => {
                let s = strip_windows_extended_prefix(l.as_str());
                !str_eq(s.as_str(), location)
            },
            None => true,
        };
        let ghost before = entries_view(kept@);
        if keep {
            kept.push(e);
            assert(entries_view(kept@) =~= before.push(e@));
        }
    }
    assert(es.take(total as int) =~= es);
    kept
}

/// `location_index` gives a location the position of the last entry there.
pub proof fn lemma_location_index_last(es: Seq<EntryView>, location: Seq<char>, k: int)
    requires
        -1 <= k < es.len(),
        forall|j: int| k < j < es.len() ==> !located_at(#[trigger] es[j], location),
        k >= 0 ==> located_at(es[k], location),
    ensures
        k >= 0 ==> location_index(es).contains_key(location) && location_index(es)[location] == k,
        k < 0 ==> !location_index(es).contains_key(location),
    decreases es.len(),
{
    if es.len() > 0 && k < es.len() - 1 {
        let t = es.drop_last();
        assert forall|j: int| k < j < t.len() implies !located_at(#[trigger] t[j], location) by {
            assert(t[j] == es[j]);
        }
        assert(!located_at(es[es.len() - 1], location));
        lemma_location_index_last(t, location, k);
    }
}

/// The three location keys that normalization touches.
pub open spec fn is_location_field(key: Seq<char>) -> bool {
    key == location_key() || key == backup_location_key() || key == backup_root_key()
}

/// Normalizing an entry strips the strings under `location`,
/// `backup_location` and `backup_root`, and leaves every other key reading as
/// before (`source_root` included).
pub proof fn law_normalize_touches_only_locations(e: EntryView, key: Seq<char>)
    ensures
        text_of(normalized_entry(e), key) == if is_location_field(key) {
            match text_of(e, key) {
                Some(t) => Some(stripped(t)),
                None => None,
            }
        } else {
            text_of(e, key)
        },
{
    let e1 = normalized_text(e, location_key());
    let e2 = normalized_text(e1, backup_location_key());
    if let EntryView::Object(fs) = e {
        if let Some(t) = text_of(e, location_key()) {
            lemma_field_of_with_field(fs, location_key(), FieldView::Text(stripped(t)), key);
        }
    }
    if let EntryView::Object(fs1) = e1 {
        if let Some(t) = text_of(e1, backup_location_key()) {
            lemma_field_of_with_field(fs1, backup_location_key(), FieldView::Text(stripped(t)), key);
        }
    }
    if let EntryView::Object(fs2) = e2 {
        if let Some(t) = text_of(e2, backup_root_key()) {
            lemma_field_of_with_field(fs2, backup_root_key(), FieldView::Text(stripped(t)), key);
        }
    }
}

/// Tracking a file whose location is already tracked replaces the last entry
/// at that location, in place; the list keeps its length.
pub proof fn law_track_known_location(es: Seq<EntryView>, location: Seq<char>, e: EntryView, k: int)
    requires
        0 <= k < normalized_list(usable_list(es)).len(),
        located_at(normalized_list(usable_list(es))[k], location),
        forall|j: int|
            k < j < normalized_list(usable_list(es)).len() ==> !located_at(
                #[trigger] normalized_list(usable_list(es))[j],
                location,
            ),
    ensures
        recorded(es, seq![(location, e)]) == normalized_list(usable_list(es)).update(k, e),
{
    let ns = normalized_list(usable_list(es));
    lemma_location_index_last(ns, location, k);
    let new = seq![(location, e)];
    let m = location_index(ns);
    assert(new[0] == (location, e));
    assert(new.drop_first() =~= Seq::<(Seq<char>, EntryView)>::empty());
    assert(merge_from(ns.update(k, e), m, new.drop_first()) == ns.update(k, e));
    assert(merge_from(ns, m, new) == merge_from(ns.update(k, e), m, new.drop_first()));
}

/// Tracking a file whose location is not tracked adds its entry at the end.
pub proof fn law_track_new_location(es: Seq<EntryView>, location: Seq<char>, e: EntryView)
    requires
        forall|j: int|
            0 <= j < normalized_list(usable_list(es)).len() ==> !located_at(
                #[trigger] normalized_list(usable_list(es))[j],
                location,
            ),
    ensures
        recorded(es, seq![(location, e)]) == normalized_list(usable_list(es)).push(e),
{
    let ns = normalized_list(usable_list(es));
    lemma_location_index_last(ns, location, -1);
    let new = seq![(location, e)];
    let m = location_index(ns);
    let m2 = m.insert(location, ns.len() as int);
    assert(new[0] == (location, e));
    assert(new.drop_first() =~= Seq::<(Seq<char>, EntryView)>::empty());
    assert(merge_from(ns.push(e), m2, new.drop_first()) == ns.push(e));
    assert(merge_from(ns, m, new) == merge_from(ns.push(e), m2, new.drop_first()));
}

/// Untracking a location keeps exactly the entries not at that location, in
/// their order: no entry left is at the location.
pub proof fn law_untrack_removes_location(es: Seq<EntryView>, location: Seq<char>)
    ensures
        forall|i: int|
            0 <= i < untracked(es, location).len() ==> !located_at(
                #[trigger] untracked(es, location)[i],
                location,
            ),
        untracked(es, location).len() <= es.len(),
{
    lemma_kept_entries(normalized_list(es), location);
}

/// Untracking a location keeps every entry of the normalized list whose
/// location string, stripped, is not that location (or that has no location
/// string), drops every other one, and keeps their order: a location that only
/// starts with the untracked one is kept.
pub proof fn law_untrack_is_filter(es: Seq<EntryView>, location: Seq<char>)
    ensures
        untracked(es, location) == normalized_list(es).filter(
            |e: EntryView|
                match text_of(e, location_key()) {
                    Some(l) => stripped(l) != location,
                    None => true,
                },
        ),
{
    lemma_kept_is_filter(normalized_list(es), location);
}

proof fn lemma_kept_is_filter(s: Seq<EntryView>, location: Seq<char>)
    ensures
        kept_entries(s, location) == s.filter(
            |e: EntryView|
                match text_of(e, location_key()) {
                    Some(l) => stripped(l) != location,
                    None => true,
                },
        ),
    decreases s.len(),
{
    reveal(Seq::filter);
    if s.len() > 0 {
        lemma_kept_is_filter(s.drop_last(), location);
    }
}

proof fn lemma_kept_entries(es: Seq<EntryView>, location: Seq<char>)
    ensures
        forall|i: int|
            0 <= i < kept_entries(es, location).len() ==> !located_at(
                #[trigger] kept_entries(es, location)[i],
                location,
            ),
        kept_entries(es, location).len() <= es.len(),
    decreases es.len(),
{
    if es.len() > 0 {
        lemma_kept_entries(es.drop_last(), location);
    }
}

/// Updating a file (untracking it, then tracking it again) leaves its new
/// entry last, after the other entries; unless an entry that stays has a
/// location that only a further stripping would bring to the same place.
pub proof fn law_untrack_then_track(es: Seq<EntryView>, location: Seq<char>, e: EntryView)
    requires
        forall|i: int|
            0 <= i < usable_list(untracked(es, location)).len() ==> match text_of(
                #[trigger] usable_list(untracked(es, location))[i],
                location_key(),
            ) {
                Some(t) => stripped(stripped(t)) != location,
                None => true,
            },
    ensures
        recorded(untracked(es, location), seq![(location, e)]) == normalized_list(
            usable_list(untracked(es, location)),
        ).push(e),
{
    let u = usable_list(untracked(es, location));
    let ns = normalized_list(u);
    assert forall|j: int| 0 <= j < ns.len() implies !located_at(#[trigger] ns[j], location) by {
        law_normalize_touches_only_locations(u[j], location_key());
    }
    law_track_new_location(untracked(es, location), location, e);
}

} // verus!
