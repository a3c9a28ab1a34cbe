//! Reading the tracking list from the text of the tracking file.
use vstd::prelude::*;
use crate::entry::{EntryView, JsonField, StoredEntry, entries_view};

verus! {

/// What `str::trim` leaves of a text: the text without leading and trailing
/// white space (as Unicode defines it).
pub uninterp spec fn trimmed(text: Seq<char>) -> Seq<char>;

/// The elements of the JSON array that a text holds, each as an entry; `None`
/// where the text is not JSON, or holds JSON that is not an array.
pub uninterp spec fn json_array_entries(text: Seq<char>) -> Option<Seq<EntryView>>;

/// `str::trim`: the text without leading and trailing white space, which is
/// never longer than the text.
#[verifier::external_body]
fn trim_text(text: &str) -> (r: &str)
    ensures
        r@ == trimmed(text@),
        r@.len() <= text@.len(),
{
    text.trim()
}

/// `serde_json::from_str` read as a `serde_json::Value`: the elements of the
/// array the text holds, each object as its key/value pairs (strings and
/// `null` as such, other values as their JSON text), each other element as
/// its JSON text; `None` where the text is not JSON or not an array.
#[verifier::external_body]
fn parse_json_array(text: &str) -> (r: Option<Vec<StoredEntry>>)
    ensures
        match r {
            Some(v) => json_array_entries(text@) == Some(entries_view(v@)),
            None => json_array_entries(text@) is None,
        },
{
    match serde_json::from_str::<serde_json::Value>(text) {
        Ok(serde_json::Value::Array(items)) => Some(items.iter().map(|item| match item {
            serde_json::Value::Object(map) => StoredEntry::Object(map.iter().map(|(k, f)| (k.clone(), match f {
                serde_json::Value::String(t) => JsonField::Text(t.clone()),
                serde_json::Value::Null => JsonField::Null,
                other => JsonField::Other(other.to_string()),
            })).collect()),
            other => StoredEntry::Other(other.to_string()),
        }).collect()),
        _ => None,
    }
}

/// The tracking list a parse gave: its entries, or none where the text was
/// not a JSON array.
pub fn list_from_parsed(parsed: Option<Vec<StoredEntry>>) -> (r: Vec<StoredEntry>)
    ensures
        match parsed {
            Some(v) => r@ == v@,
            None => r@.len() == 0,
        },
{
    match parsed {
        Some(v) => v,
        None => Vec::new(),
    }
}

/// The tracking list held by the text of the tracking file: the elements of
/// the JSON array it holds; none where the text is blank, not JSON, or not an
/// array.
pub fn tracking_list_from_text(text: &str) -> (r: Vec<StoredEntry>)
    ensures
        entries_view(r@) == if trimmed(text@).len() == 0 {
            Seq::empty()
        } else {
            match json_array_entries(trimmed(text@)) {
                Some(es) => es,
                None => Seq::empty(),
            }
        },
{
    let content = trim_text(text);
    if content.unicode_len() == 0 {
        let r: Vec<StoredEntry> = Vec::new();
        assert(entries_view(r@) =~= Seq::<EntryView>::empty());
        return r;
    }
    let r = list_from_parsed(parse_json_array(content));
    assert(r@.len() == 0 ==> entries_view(r@) =~= Seq::<EntryView>::empty());
    r
}

} // verus!
