//! Laws over repeated operations on the tracking list: tracking the same
//! file twice, tracking then untracking, and merging keyed entries.
use vstd::prelude::*;
use crate::entry::{
    EntryView, FieldView, text_of, location_key, backup_location_key, backup_root_key,
    lemma_with_field_same,
};
use crate::location::stripped;
use crate::tracking::{
    normalized_text, normalized_entry, normalized_list, usable_list, recorded, located_at,
    location_index, merge_from, merged, kept_entries, untracked, is_location_field,
    law_normalize_touches_only_locations, law_track_known_location, law_track_new_location,
    lemma_location_index_last,
};

verus! {

/// The string under `key`, if any, is unchanged by one more strip once it has
/// been stripped.
pub open spec fn settles_at(e: EntryView, key: Seq<char>) -> bool {
    match text_of(e, key) {
        Some(t) => stripped(stripped(t)) == stripped(t),
        None => true,
    }
}

/// Each location string of the entry settles after one strip.
pub open spec fn settles(e: EntryView) -> bool {
    settles_at(e, location_key()) && settles_at(e, backup_location_key()) && settles_at(
        e,
        backup_root_key(),
    )
}

/// The string under `key`, if any, carries no marker to strip.
pub open spec fn normal_at(e: EntryView, key: Seq<char>) -> bool {
    match text_of(e, key) {
        Some(t) => stripped(t) == t,
        None => true,
    }
}

/// No location string of the entry carries a marker to strip.
pub open spec fn is_normal(e: EntryView) -> bool {
    normal_at(e, location_key()) && normal_at(e, backup_location_key()) && normal_at(
        e,
        backup_root_key(),
    )
}

/// A freshly built entry for `location`: an object, tracked at `location`,
/// which carries no marker to strip.
pub open spec fn fresh_entry(e: EntryView, location: Seq<char>) -> bool {
    &&& e is Object
    &&& text_of(e, location_key()) == Some(location)
    &&& stripped(location) == location
}

proof fn lemma_normalized_is_normal(e: EntryView)
    requires
        settles(e),
    ensures
        is_normal(normalized_entry(e)),
{
    law_normalize_touches_only_locations(e, location_key());
    law_normalize_touches_only_locations(e, backup_location_key());
    law_normalize_touches_only_locations(e, backup_root_key());
}

proof fn lemma_normal_text_fixed(e: EntryView, key: Seq<char>)
    requires
        normal_at(e, key),
    ensures
        normalized_text(e, key) == e,
{
    if let EntryView::Object(fs) = e {
        if let Some(t) = text_of(e, key) {
            lemma_with_field_same(fs, key, FieldView::Text(t));
        }
    }
}

/// An entry without markers is unchanged by normalization.
proof fn lemma_normal_fixed(e: EntryView)
    requires
        is_normal(e),
    ensures
        normalized_entry(e) == e,
{
    lemma_normal_text_fixed(e, location_key());
    lemma_normal_text_fixed(e, backup_location_key());
    lemma_normal_text_fixed(e, backup_root_key());
}

proof fn lemma_normal_list_fixed(es: Seq<EntryView>)
    requires
        forall|i: int| 0 <= i < es.len() ==> is_normal(#[trigger] es[i]),
    ensures
        normalized_list(es) == es,
{
    assert forall|i: int| 0 <= i < es.len() implies normalized_list(es)[i] == es[i] by {
        lemma_normal_fixed(es[i]);
    }
    assert(normalized_list(es) =~= es);
}

/// Where `location_index` places a location: the last entry there, if any.
proof fn lemma_location_index_sound(es: Seq<EntryView>, location: Seq<char>)
    ensures
        location_index(es).contains_key(location) ==> {
            &&& 0 <= location_index(es)[location] < es.len()
            &&& located_at(es[location_index(es)[location]], location)
            &&& forall|j: int|
                location_index(es)[location] < j < es.len() ==> !located_at(
                    #[trigger] es[j],
                    location,
                )
        },
        !location_index(es).contains_key(location) ==> forall|j: int|
            0 <= j < es.len() ==> !located_at(#[trigger] es[j], location),
    decreases es.len(),
{
    if es.len() > 0 {
        let t = es.drop_last();
        let n = es.len() - 1;
        lemma_location_index_sound(t, location);
        let last = es[n];
        assert(es.last() == last);
        let mt = location_index(t);
        let m = location_index(es);
        if located_at(last, location) {
            let l = text_of(last, location_key()).unwrap();
            assert(m == mt.insert(stripped(l), n));
        } else {
            match text_of(last, location_key()) {
                Some(l) => {
                    assert(m == mt.insert(stripped(l), n));
                },
                None => {
                    assert(m == mt);
                },
            }
            assert(m.contains_key(location) == mt.contains_key(location));
            if mt.contains_key(location) {
                assert(m[location] == mt[location]);
                assert(es[mt[location]] == t[mt[location]]);
                assert forall|j: int| mt[location] < j < es.len() implies !located_at(
                    #[trigger] es[j],
                    location,
                ) by {
                    if j < n {
                        assert(es[j] == t[j]);
                    }
                }
            } else {
                assert forall|j: int| 0 <= j < es.len() implies !located_at(
                    #[trigger] es[j],
                    location,
                ) by {
                    if j < n {
                        assert(es[j] == t[j]);
                    }
                }
            }
        }
    }
}

/// The list recorded from a usable list of settled entries: the normalized
/// list (whose entries carry no markers) with the fresh entry at the place of
/// the last entry at its location, or at the end; no later entry is there.
proof fn lemma_record_once(es: Seq<EntryView>, location: Seq<char>, e: EntryView) -> (k: int)
    requires
        forall|i: int| 0 <= i < usable_list(es).len() ==> settles(#[trigger] usable_list(es)[i]),
        fresh_entry(e, location),
    ensures
        0 <= k <= normalized_list(usable_list(es)).len(),
        forall|i: int|
            0 <= i < normalized_list(usable_list(es)).len() ==> is_normal(
                #[trigger] normalized_list(usable_list(es))[i],
            ),
        normalized_list(usable_list(es)).len() > 0 ==> normalized_list(usable_list(es))[0] is Object,
        forall|j: int|
            k < j < normalized_list(usable_list(es)).len() ==> !located_at(
                #[trigger] normalized_list(usable_list(es))[j],
                location,
            ),
        k == normalized_list(usable_list(es)).len() ==> recorded(es, seq![(location, e)])
            == normalized_list(usable_list(es)).push(e),
        k < normalized_list(usable_list(es)).len() ==> recorded(es, seq![(location, e)])
            == normalized_list(usable_list(es)).update(k, e),
        k < normalized_list(usable_list(es)).len() ==> located_at(
            normalized_list(usable_list(es))[k],
            location,
        ),
{
    let u = usable_list(es);
    let ns = normalized_list(u);
    assert forall|i: int| 0 <= i < ns.len() implies is_normal(#[trigger] ns[i]) by {
        lemma_normalized_is_normal(u[i]);
    }
    if u.len() > 0 {
        assert(u[0] is Object);
    }
    lemma_location_index_sound(ns, location);
    let m = location_index(ns);
    if m.contains_key(location) {
        let k = m[location];
        law_track_known_location(es, location, e, k);
        k
    } else {
        law_track_new_location(es, location, e);
        ns.len() as int
    }
}

/// The list, all of whose entries carry no markers, with `e` at position `k`
/// (or added at the end), normalized again: only `e` changes.
proof fn lemma_renormalize(ns: Seq<EntryView>, k: int, e: EntryView)
    requires
        0 <= k <= ns.len(),
        forall|i: int| 0 <= i < ns.len() ==> is_normal(#[trigger] ns[i]),
    ensures
        k < ns.len() ==> normalized_list(ns.update(k, e)) == ns.update(k, normalized_entry(e)),
        k == ns.len() ==> normalized_list(ns.push(e)) == ns.push(normalized_entry(e)),
{
    let r = if k < ns.len() {
        ns.update(k, e)
    } else {
        ns.push(e)
    };
    assert forall|i: int| 0 <= i < r.len() && i != k implies normalized_entry(#[trigger] r[i])
        == r[i] by {
        lemma_normal_fixed(ns[i]);
    }
    if k < ns.len() {
        assert(normalized_list(ns.update(k, e)) =~= ns.update(k, normalized_entry(e)));
    } else {
        assert(normalized_list(ns.push(e)) =~= ns.push(normalized_entry(e)));
    }
}

proof fn lemma_fresh_normalized_located(e: EntryView, location: Seq<char>)
    requires
        fresh_entry(e, location),
    ensures
        located_at(normalized_entry(e), location),
        normalized_entry(e) is Object,
{
    law_normalize_touches_only_locations(e, location_key());
}

/// Tracking the same fresh entry twice leaves the list as tracking it once
/// did, for a list whose location strings settle after one strip.
pub proof fn law_track_twice(es: Seq<EntryView>, location: Seq<char>, e: EntryView)
    requires
        forall|i: int| 0 <= i < usable_list(es).len() ==> settles(#[trigger] usable_list(es)[i]),
        fresh_entry(e, location),
    ensures
        recorded(recorded(es, seq![(location, e)]), seq![(location, e)]) == recorded(
            es,
            seq![(location, e)],
        ),
{
    let ns = normalized_list(usable_list(es));
    let r1 = recorded(es, seq![(location, e)]);
    let k = lemma_record_once(es, location, e);
    lemma_renormalize(ns, k, e);
    lemma_fresh_normalized_located(e, location);
    let ne = normalized_entry(e);
    if ns.len() > 0 {
        assert(ns[0] is Object);
    }
    assert(r1[0] is Object);
    assert(usable_list(r1) == r1);
    let ns2 = normalized_list(r1);
    assert(ns2[k] == ne);
    assert forall|j: int| k < j < ns2.len() implies !located_at(#[trigger] ns2[j], location) by {
        assert(ns2[j] == ns[j]);
    }
    law_track_known_location(r1, location, e, k);
    assert(ns2.update(k, e) =~= r1);
}

proof fn lemma_kept_update(s: Seq<EntryView>, k: int, x: EntryView, location: Seq<char>)
    requires
        0 <= k < s.len(),
        located_at(s[k], location),
        located_at(x, location),
    ensures
        kept_entries(s.update(k, x), location) == kept_entries(s, location),
    decreases s.len(),
{
    let t = s.update(k, x);
    if k == s.len() - 1 {
        assert(t.drop_last() =~= s.drop_last());
    } else {
        assert(t.drop_last() =~= s.drop_last().update(k, x));
        lemma_kept_update(s.drop_last(), k, x, location);
    }
}

/// Tracking a fresh entry and then untracking its location leaves the list as
/// untracking alone would, for a list that is empty or starts with an object
/// and whose location strings settle after one strip.
pub proof fn law_track_then_untrack(es: Seq<EntryView>, location: Seq<char>, e: EntryView)
    requires
        es.len() == 0 || es[0] is Object,
        forall|i: int| 0 <= i < es.len() ==> settles(#[trigger] es[i]),
        fresh_entry(e, location),
    ensures
        untracked(recorded(es, seq![(location, e)]), location) == untracked(es, location),
{
    assert(usable_list(es) == es);
    let ns = normalized_list(es);
    let r1 = recorded(es, seq![(location, e)]);
    let k = lemma_record_once(es, location, e);
    lemma_renormalize(ns, k, e);
    lemma_fresh_normalized_located(e, location);
    let ne = normalized_entry(e);
    assert(untracked(r1, location) == kept_entries(normalized_list(r1), location));
    if k == ns.len() {
        assert(ns.push(ne).drop_last() =~= ns);
        assert(ns.push(ne).last() == ne);
    } else {
        lemma_kept_update(ns, k, ne, location);
    }
}

/// The entries kept on untracking are entries of the list, so they share
/// what all entries of the list have: being objects without markers, and
/// none of them is at the untracked location.
proof fn lemma_kept_normal_objects(s: Seq<EntryView>, location: Seq<char>)
    requires
        forall|i: int| 0 <= i < s.len() ==> is_normal(#[trigger] s[i]) && s[i] is Object,
    ensures
        forall|i: int|
            0 <= i < kept_entries(s, location).len() ==> is_normal(
                #[trigger] kept_entries(s, location)[i],
            ) && kept_entries(s, location)[i] is Object && !located_at(
                kept_entries(s, location)[i],
                location,
            ),
    decreases s.len(),
{
    if s.len() > 0 {
        let t = s.drop_last();
        assert forall|i: int| 0 <= i < t.len() implies is_normal(#[trigger] t[i]) && t[i] is Object by {
            assert(t[i] == s[i]);
        }
        lemma_kept_normal_objects(t, location);
        let kt = kept_entries(t, location);
        if !located_at(s.last(), location) {
            let ks = kt.push(s.last());
            assert forall|i: int| 0 <= i < ks.len() implies is_normal(#[trigger] ks[i]) && ks[i] is Object
                && !located_at(ks[i], location) by {
                if i < kt.len() {
                    assert(ks[i] == kt[i]);
                }
            }
        }
    }
}

/// Updating a file (untracking it, then tracking a fresh entry for it) leaves
/// the normalized list without the entries at its location, followed by the
/// new entry, for a list of objects whose location strings settle after one strip.
pub proof fn law_update_file(es: Seq<EntryView>, location: Seq<char>, e: EntryView)
    requires
        forall|i: int| 0 <= i < es.len() ==> settles(#[trigger] es[i]) && es[i] is Object,
        fresh_entry(e, location),
    ensures
        recorded(untracked(es, location), seq![(location, e)]) == untracked(es, location).push(e),
        untracked(es, location) == kept_entries(normalized_list(es), location),
{
    let ns = normalized_list(es);
    assert forall|i: int| 0 <= i < ns.len() implies is_normal(#[trigger] ns[i]) && ns[i] is Object by {
        lemma_normalized_is_normal(es[i]);
    }
    lemma_kept_normal_objects(ns, location);
    let u = untracked(es, location);
    if u.len() > 0 {
        assert(u[0] is Object);
    }
    assert(usable_list(u) == u);
    lemma_normal_list_fixed(u);
    law_track_new_location(u, location, e);
}

/// The stripped location string of an entry, if it has one.
pub open spec fn loc_key(e: EntryView) -> Option<Seq<char>> {
    match text_of(e, location_key()) {
        Some(t) => Some(stripped(t)),
        None => None,
    }
}

/// No two entries share a (stripped) location.
pub open spec fn distinct_locations(es: Seq<EntryView>) -> bool {
    forall|i: int, j: int|
        0 <= i < es.len() && 0 <= j < es.len() && i != j && (#[trigger] loc_key(es[i])) is Some
            ==> loc_key(es[i]) != #[trigger] loc_key(es[j])
}

/// Every keyed entry is tracked at its key, which carries no marker.
pub open spec fn keyed_by_location(new: Seq<(Seq<char>, EntryView)>) -> bool {
    forall|j: int| 0 <= j < new.len() ==> loc_key(#[trigger] new[j].1) == Some(new[j].0)
}

/// The index tells where each location stands, and knows every location.
pub open spec fn index_fits(es: Seq<EntryView>, m: Map<Seq<char>, int>) -> bool {
    &&& forall|k: Seq<char>|
        #[trigger] m.contains_key(k) ==> 0 <= m[k] < es.len() && loc_key(es[m[k]]) == Some(k)
    &&& forall|i: int|
        0 <= i < es.len() && (#[trigger] loc_key(es[i])) is Some ==> m.contains_key(
            loc_key(es[i]).unwrap(),
        )
}

pub open spec fn has_location(es: Seq<EntryView>, k: Seq<char>) -> bool {
    exists|i: int| 0 <= i < es.len() && #[trigger] loc_key(es[i]) == Some(k)
}

/// Whether some keyed entry has the location `o` as its key.
pub open spec fn key_in(new: Seq<(Seq<char>, EntryView)>, o: Option<Seq<char>>) -> bool {
    exists|j: int| 0 <= j < new.len() && Some(#[trigger] new[j].0) == o
}

/// Whether no later keyed entry has the key of the `j`-th.
pub open spec fn last_for_key(new: Seq<(Seq<char>, EntryView)>, j: int) -> bool {
    forall|j2: int| j < j2 < new.len() ==> #[trigger] new[j2].0 != new[j].0
}

pub open spec fn holds_entry(es: Seq<EntryView>, v: EntryView) -> bool {
    exists|i: int| 0 <= i < es.len() && #[trigger] es[i] == v
}

proof fn lemma_location_index_fits(es: Seq<EntryView>)
    ensures
        index_fits(es, location_index(es)),
{
    let m = location_index(es);
    assert forall|k: Seq<char>| #[trigger] m.contains_key(k) implies 0 <= m[k] < es.len()
        && loc_key(es[m[k]]) == Some(k) by {
        lemma_location_index_sound(es, k);
    }
    assert forall|i: int| 0 <= i < es.len() && (#[trigger] loc_key(es[i])) is Some implies m.contains_key(
        loc_key(es[i]).unwrap(),
    ) by {
        let k = loc_key(es[i]).unwrap();
        lemma_location_index_sound(es, k);
        assert(located_at(es[i], k));
    }
}

proof fn lemma_merge_from_distinct(es: Seq<EntryView>, m: Map<Seq<char>, int>, new: Seq<(Seq<char>, EntryView)>)
    requires
        distinct_locations(es),
        index_fits(es, m),
        keyed_by_location(new),
    ensures
        distinct_locations(merge_from(es, m, new)),
        forall|k: Seq<char>| #[trigger] m.contains_key(k) ==> has_location(merge_from(es, m, new), k),
        forall|j: int| 0 <= j < new.len() ==> has_location(merge_from(es, m, new), #[trigger] new[j].0),
        merge_from(es, m, new).len() >= es.len(),
        forall|i: int|
            0 <= i < es.len() && !key_in(new, loc_key(#[trigger] es[i])) ==> merge_from(es, m, new)[i]
                == es[i],
        forall|j: int|
            0 <= j < new.len() && last_for_key(new, j) ==> holds_entry(
                merge_from(es, m, new),
                #[trigger] new[j].1,
            ),
    decreases new.len(),
{
    let res = merge_from(es, m, new);
    if new.len() == 0 {
        assert forall|k: Seq<char>| #[trigger] m.contains_key(k) implies has_location(res, k) by {
            assert(loc_key(es[m[k]]) == Some(k));
        }
    } else {
        let k = new[0].0;
        let v = new[0].1;
        let rest = new.drop_first();
        assert(loc_key(v) == Some(k));
        assert forall|j: int| 0 <= j < rest.len() implies loc_key(#[trigger] rest[j].1) == Some(
            rest[j].0,
        ) by {
            assert(rest[j] == new[j + 1]);
        }
        if m.contains_key(k) {
            let p = m[k];
            let es2 = es.update(p, v);
            assert forall|i: int| 0 <= i < es.len() implies #[trigger] loc_key(es2[i]) == loc_key(
                es[i],
            ) by {}
            assert(distinct_locations(es2)) by {
                assert forall|i: int, j: int|
                    0 <= i < es2.len() && 0 <= j < es2.len() && i != j && (#[trigger] loc_key(
                        es2[i],
                    )) is Some implies loc_key(es2[i]) != #[trigger] loc_key(es2[j]) by {
                    assert(loc_key(es2[i]) == loc_key(es[i]));
                    assert(loc_key(es2[j]) == loc_key(es[j]));
                }
            }
            assert(index_fits(es2, m)) by {
                assert forall|k2: Seq<char>| #[trigger] m.contains_key(k2) implies 0 <= m[k2]
                    < es2.len() && loc_key(es2[m[k2]]) == Some(k2) by {
                    assert(loc_key(es2[m[k2]]) == loc_key(es[m[k2]]));
                }
                assert forall|i: int| 0 <= i < es2.len() && (#[trigger] loc_key(es2[i])) is Some implies m.contains_key(
                    loc_key(es2[i]).unwrap(),
                ) by {
                    assert(loc_key(es2[i]) == loc_key(es[i]));
                }
            }
            lemma_merge_from_distinct(es2, m, rest);
            assert(res == merge_from(es2, m, rest));
            lemma_merge_tail(es, es2, new, p, res);
            assert forall|j: int| 0 <= j < new.len() implies has_location(res, #[trigger] new[j].0) by {
                if j > 0 {
                    assert(new[j] == rest[j - 1]);
                }
            }
        } else {
            let n = es.len() as int;
            let es2 = es.push(v);
            let m2 = m.insert(k, n);
            assert forall|i: int| 0 <= i < es.len() implies #[trigger] loc_key(es[i]) != Some(k) by {
                if loc_key(es[i]) == Some(k) {
                    assert(m.contains_key(loc_key(es[i]).unwrap()));
                }
            }
            assert(distinct_locations(es2)) by {
                assert forall|i: int, j: int|
                    0 <= i < es2.len() && 0 <= j < es2.len() && i != j && (#[trigger] loc_key(
                        es2[i],
                    )) is Some implies loc_key(es2[i]) != #[trigger] loc_key(es2[j]) by {
                    if i < n {
                        assert(es2[i] == es[i]);
                    }
                    if j < n {
                        assert(es2[j] == es[j]);
                    }
                }
            }
            assert(index_fits(es2, m2)) by {
                assert forall|k2: Seq<char>| #[trigger] m2.contains_key(k2) implies 0 <= m2[k2]
                    < es2.len() && loc_key(es2[m2[k2]]) == Some(k2) by {
                    if k2 != k {
                        assert(es2[m[k2]] == es[m[k2]]);
                    }
                }
                assert forall|i: int| 0 <= i < es2.len() && (#[trigger] loc_key(es2[i])) is Some implies m2.contains_key(
                    loc_key(es2[i]).unwrap(),
                ) by {
                    if i < n {
                        assert(es2[i] == es[i]);
                    }
                }
            }
            lemma_merge_from_distinct(es2, m2, rest);
            assert(res == merge_from(es2, m2, rest));
            lemma_merge_tail(es, es2, new, n, res);
            assert forall|k2: Seq<char>| #[trigger] m.contains_key(k2) implies has_location(res, k2) by {
                assert(m2.contains_key(k2));
            }
            assert(m2.contains_key(k));
            assert forall|j: int| 0 <= j < new.len() implies has_location(res, #[trigger] new[j].0) by {
                if j > 0 {
                    assert(new[j] == rest[j - 1]);
                }
            }
        }
    }
}

/// One merge step put the first keyed entry at `p` of `es2`, which is `es`
/// otherwise (or `es` with it added); what the rest of the merge keeps of
/// `es2` carries over to `es`.
proof fn lemma_merge_tail(
    es: Seq<EntryView>,
    es2: Seq<EntryView>,
    new: Seq<(Seq<char>, EntryView)>,
    p: int,
    res: Seq<EntryView>,
)
    requires
        new.len() > 0,
        0 <= p <= es.len(),
        p < es.len() ==> es2 == es.update(p, new[0].1) && loc_key(es[p]) == Some(new[0].0),
        p == es.len() ==> es2 == es.push(new[0].1),
        loc_key(new[0].1) == Some(new[0].0),
        res.len() >= es2.len(),
        forall|i: int|
            0 <= i < es2.len() && !key_in(new.drop_first(), loc_key(#[trigger] es2[i])) ==> res[i]
                == es2[i],
        forall|j: int|
            0 <= j < new.drop_first().len() && last_for_key(new.drop_first(), j) ==> holds_entry(
                res,
                #[trigger] new.drop_first()[j].1,
            ),
    ensures
        res.len() >= es.len(),
        forall|i: int| 0 <= i < es.len() && !key_in(new, loc_key(#[trigger] es[i])) ==> res[i] == es[i],
        forall|j: int| 0 <= j < new.len() && last_for_key(new, j) ==> holds_entry(res, #[trigger] new[j].1),
{
    let rest = new.drop_first();
    assert forall|i: int| 0 <= i < es.len() && !key_in(new, loc_key(#[trigger] es[i])) implies res[i]
        == es[i] by {
        if i == p {
            assert(Some(new[0].0) == loc_key(es[i]));
        }
        assert(es2[i] == es[i]);
        if key_in(rest, loc_key(es2[i])) {
            let j = choose|j: int| 0 <= j < rest.len() && Some(#[trigger] rest[j].0) == loc_key(es2[i]);
            assert(new[j + 1] == rest[j]);
        }
    }
    assert forall|j: int| 0 <= j < new.len() && last_for_key(new, j) implies holds_entry(res, #[trigger] new[j].1) by {
        if j == 0 {
            assert(es2[p] == new[0].1);
            if key_in(rest, loc_key(es2[p])) {
                let j2 = choose|j2: int| 0 <= j2 < rest.len() && Some(#[trigger] rest[j2].0) == loc_key(es2[p]);
                assert(new[j2 + 1] == rest[j2]);
            }
            assert(res[p] == new[0].1);
        } else {
            assert(rest[j - 1] == new[j]);
            assert forall|j2: int| j - 1 < j2 < rest.len() implies #[trigger] rest[j2].0 != rest[j - 1].0 by {
                assert(rest[j2] == new[j2 + 1]);
            }
            assert(last_for_key(rest, j - 1));
        }
    }
}

/// Merging entries keyed by their own marker-free location into a list whose
/// locations are distinct never duplicates a location: the locations stay
/// distinct, each key ends up as the location of exactly one entry, which is
/// the last entry given with that key, and entries at no key stay in place.
pub proof fn law_merge_keeps_locations_distinct(es: Seq<EntryView>, new: Seq<(Seq<char>, EntryView)>)
    requires
        distinct_locations(es),
        keyed_by_location(new),
    ensures
        distinct_locations(merged(es, new)),
        forall|j: int| 0 <= j < new.len() ==> has_location(merged(es, new), #[trigger] new[j].0),
        forall|j: int|
            0 <= j < new.len() && last_for_key(new, j) ==> holds_entry(
                merged(es, new),
                #[trigger] new[j].1,
            ),
        merged(es, new).len() >= es.len(),
        forall|i: int|
            0 <= i < es.len() && !key_in(new, loc_key(#[trigger] es[i])) ==> merged(es, new)[i]
                == es[i],
{
    lemma_location_index_fits(es);
    lemma_merge_from_distinct(es, location_index(es), new);
}

} // verus!
