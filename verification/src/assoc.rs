//! String-keyed association lists with unique keys, viewed as maps.
//! They stand in for hash maps wherever the library keeps per-name
//! state: provider registries, key pools, request bodies.

use crate::text::str_eq;
use vstd::map::*;
use vstd::pervasive::VecAdditionalExecFns;
use vstd::prelude::*;
use vstd::string::StringExecFns;

verus! {

/// The map an association list denotes: a later entry for the same key
/// overrides an earlier one.
pub open spec fn assoc_map<V>(entries: Seq<(String, V)>) -> Map<Seq<char>, V>
    decreases entries.len(),
{
    if entries.len() == 0 {
        Map::empty()
    } else {
        assoc_map(entries.drop_last()).insert(entries.last().0@, entries.last().1)
    }
}

/// Whether the entries carry pairwise distinct keys.
pub open spec fn unique_keys<V>(entries: Seq<(String, V)>) -> bool {
    forall|i: int, j: int|
        0 <= i < j < entries.len() ==> #[trigger] entries[i].0@ != #[trigger] entries[j].0@
}

/// The index of the first entry with key `k`, scanning from `i`.
pub open spec fn assoc_find<V>(entries: Seq<(String, V)>, k: Seq<char>, i: int) -> Option<int>
    decreases entries.len() - i,
{
    if i < 0 || i >= entries.len() {
        None
    } else if entries[i].0@ == k {
        Some(i)
    } else {
        assoc_find(entries, k, i + 1)
    }
}

/// A key occurs among the entries exactly when the denoted map has it.
pub proof fn lemma_assoc_dom<V>(entries: Seq<(String, V)>, k: Seq<char>)
    ensures
        assoc_map(entries).dom().contains(k) <==> exists|i: int|
            0 <= i < entries.len() && #[trigger] entries[i].0@ == k,
    decreases entries.len(),
{
    if entries.len() > 0 {
        lemma_assoc_dom(entries.drop_last(), k);
        if entries.last().0@ == k {
            assert(entries[entries.len() - 1].0@ == k);
        } else {
            if assoc_map(entries).dom().contains(k) {
                let i = choose|i: int|
                    0 <= i < entries.drop_last().len() && #[trigger] entries.drop_last()[i].0@
                        == k;
                assert(entries[i].0@ == k);
            }
            if exists|i: int| 0 <= i < entries.len() && #[trigger] entries[i].0@ == k {
                let i = choose|i: int| 0 <= i < entries.len() && #[trigger] entries[i].0@ == k;
                assert(i < entries.len() - 1);
                assert(entries.drop_last()[i].0@ == k);
            }
        }
    }
}

/// With unique keys, the entry at a found index carries the denoted
/// map's value for that key.
pub proof fn lemma_assoc_value_at<V>(entries: Seq<(String, V)>, j: int)
    requires
        unique_keys(entries),
        0 <= j < entries.len(),
    ensures
        assoc_map(entries).dom().contains(entries[j].0@),
        assoc_map(entries)[entries[j].0@] == entries[j].1,
    decreases entries.len(),
{
    if j == entries.len() - 1 {
        lemma_assoc_dom(entries.drop_last(), entries[j].0@);
    } else {
        assert(unique_keys(entries.drop_last())) by {
            assert(forall|i1: int, j1: int|
                0 <= i1 < j1 < entries.drop_last().len() ==> entries.drop_last()[i1]
                    == entries[i1] && entries.drop_last()[j1] == entries[j1]);
        }
        assert(entries.drop_last()[j] == entries[j]);
        lemma_assoc_value_at(entries.drop_last(), j);
        assert(entries.last().0@ != entries[j].0@);
    }
}

/// Removing an entry removes exactly its key from the denoted map when
/// keys are unique.
pub proof fn lemma_assoc_remove<V>(entries: Seq<(String, V)>, i: int)
    requires
        unique_keys(entries),
        0 <= i < entries.len(),
    ensures
        unique_keys(entries.remove(i)),
        assoc_map(entries.remove(i)) == assoc_map(entries).remove(entries[i].0@),
    decreases entries.len(),
{
    let rem = entries.remove(i);
    assert forall|i1: int, j1: int| 0 <= i1 < j1 < rem.len() implies #[trigger] rem[i1].0@
        != #[trigger] rem[j1].0@ by {
        if j1 < i {
            assert(rem[i1] == entries[i1] && rem[j1] == entries[j1]);
        } else if i1 < i {
            assert(rem[i1] == entries[i1] && rem[j1] == entries[j1 + 1]);
        } else {
            assert(rem[i1] == entries[i1 + 1] && rem[j1] == entries[j1 + 1]);
        }
    }
    if i == entries.len() - 1 {
        assert(rem =~= entries.drop_last());
        lemma_assoc_dom(entries.drop_last(), entries[i].0@);
        assert(!assoc_map(entries.drop_last()).dom().contains(entries[i].0@)) by {
            if assoc_map(entries.drop_last()).dom().contains(entries[i].0@) {
                let l = choose|l: int|
                    0 <= l < entries.drop_last().len() && #[trigger] entries.drop_last()[l].0@
                        == entries[i].0@;
                assert(entries[l].0@ == entries[i].0@);
            }
        }
        assert(assoc_map(entries).remove(entries[i].0@) =~= assoc_map(entries.drop_last()));
    } else {
        assert(unique_keys(entries.drop_last())) by {
            assert(forall|i1: int, j1: int|
                0 <= i1 < j1 < entries.drop_last().len() ==> entries.drop_last()[i1]
                    == entries[i1] && entries.drop_last()[j1] == entries[j1]);
        }
        assert(entries.drop_last()[i] == entries[i]);
        lemma_assoc_remove(entries.drop_last(), i);
        assert(rem.drop_last() =~= entries.drop_last().remove(i));
        assert(rem.last() == entries.last());
        assert(entries.last().0@ != entries[i].0@);
        assert(assoc_map(rem) == assoc_map(entries.drop_last().remove(i)).insert(
            entries.last().0@,
            entries.last().1,
        ));
        assert(assoc_map(entries).remove(entries[i].0@) =~= assoc_map(
            entries.drop_last(),
        ).remove(entries[i].0@).insert(entries.last().0@, entries.last().1));
    }
}

/// Replacing the value at an entry updates exactly its key in the
/// denoted map when keys are unique.
pub proof fn lemma_assoc_update<V>(entries: Seq<(String, V)>, j: int, p: (String, V))
    requires
        unique_keys(entries),
        0 <= j < entries.len(),
        p.0@ == entries[j].0@,
    ensures
        unique_keys(entries.update(j, p)),
        assoc_map(entries.update(j, p)) == assoc_map(entries).insert(p.0@, p.1),
    decreases entries.len(),
{
    let upd = entries.update(j, p);
    assert forall|i1: int, j1: int| 0 <= i1 < j1 < upd.len() implies #[trigger] upd[i1].0@
        != #[trigger] upd[j1].0@ by {
        assert(upd[i1].0@ == entries[i1].0@ && upd[j1].0@ == entries[j1].0@);
    }
    if j == entries.len() - 1 {
        assert(upd.drop_last() =~= entries.drop_last());
        assert(upd.last() == p);
        assert(assoc_map(entries).insert(p.0@, p.1) =~= assoc_map(entries.drop_last()).insert(
            p.0@,
            p.1,
        ));
    } else {
        assert(unique_keys(entries.drop_last())) by {
            assert(forall|i1: int, j1: int|
                0 <= i1 < j1 < entries.drop_last().len() ==> entries.drop_last()[i1]
                    == entries[i1] && entries.drop_last()[j1] == entries[j1]);
        }
        assert(entries.drop_last()[j] == entries[j]);
        lemma_assoc_update(entries.drop_last(), j, p);
        assert(upd.drop_last() =~= entries.drop_last().update(j, p));
        assert(upd.last() == entries.last());
        assert(entries.last().0@ != p.0@);
        assert(assoc_map(upd) == assoc_map(entries.drop_last().update(j, p)).insert(
            entries.last().0@,
            entries.last().1,
        ));
        assert(assoc_map(entries).insert(p.0@, p.1) =~= assoc_map(entries.drop_last()).insert(
            p.0@,
            p.1,
        ).insert(entries.last().0@, entries.last().1));
    }
}

/// Appending an entry inserts its key into the denoted map; uniqueness
/// is kept when the key is fresh.
pub proof fn lemma_assoc_push<V>(entries: Seq<(String, V)>, p: (String, V))
    requires
        unique_keys(entries),
        forall|i: int| 0 <= i < entries.len() ==> entries[i].0@ != p.0@,
    ensures
        unique_keys(entries.push(p)),
        assoc_map(entries.push(p)) == assoc_map(entries).insert(p.0@, p.1),
{
    let pu = entries.push(p);
    assert forall|i1: int, j1: int| 0 <= i1 < j1 < pu.len() implies #[trigger] pu[i1].0@
        != #[trigger] pu[j1].0@ by {
        if j1 < entries.len() {
            assert(pu[i1] == entries[i1] && pu[j1] == entries[j1]);
        } else {
            assert(pu[i1] == entries[i1] && pu[j1] == p);
        }
    }
    assert(pu.drop_last() =~= entries);
    assert(pu.last() == p);
}

/// The index of the entry for `key`, if one exists.
pub fn assoc_index_of<V>(entries: &Vec<(String, V)>, key: &str) -> (r: Option<usize>)
    ensures
        match r {
            Some(i) => assoc_find(entries@, key@, 0) == Some(i as int) && i < entries@.len()
                && entries@[i as int].0@ == key@,
            None => assoc_find(entries@, key@, 0) is None && forall|l: int|
                0 <= l < entries@.len() ==> entries@[l].0@ != key@,
        },
{
    let len = entries.len();
    let mut i: usize = 0;
    while i < len
        invariant
            len == entries@.len(),
            i <= len,
            assoc_find(entries@, key@, 0) == assoc_find(entries@, key@, i as int),
            forall|l: int| 0 <= l < i ==> entries@[l].0@ != key@,
        decreases len - i,
    {
        if str_eq(entries[i].0.as_str(), key) {
            return Some(i);
        }
        i += 1;
    }
    None
}

/// The value stored under `key`, if any.
pub fn assoc_get<'a, V>(entries: &'a Vec<(String, V)>, key: &str) -> (r: Option<&'a V>)
    requires
        unique_keys(entries@),
    ensures
        r is Some <==> assoc_map(entries@).dom().contains(key@),
        r matches Some(v) ==> *v == assoc_map(entries@)[key@],
{
    match assoc_index_of(entries, key) {
        Some(i) => {
            proof {
                lemma_assoc_value_at(entries@, i as int);
            }
            Some(&entries[i].1)
        }
        None => {
            proof {
                lemma_assoc_dom(entries@, key@);
            }
            None
        }
    }
}

/// Store `value` under `key`: the denoted map gains or replaces exactly
/// that key.
pub fn assoc_upsert<V>(entries: &mut Vec<(String, V)>, key: String, value: V)
    requires
        unique_keys(old(entries)@),
    ensures
        unique_keys(final(entries)@),
        assoc_map(final(entries)@) == assoc_map(old(entries)@).insert(key@, value),
{
    match assoc_index_of(entries, key.as_str()) {
        Some(i) => {
            proof {
                lemma_assoc_update(entries@, i as int, (key, value));
            }
            entries.set(i, (key, value));
        }
        None => {
            proof {
                lemma_assoc_push(entries@, (key, value));
            }
            entries.push((key, value));
        }
    }
}

/// Take the entry for `key` out, handing back its value; the denoted
/// map loses exactly that key.
pub fn assoc_remove_entry<V>(entries: &mut Vec<(String, V)>, key: &str) -> (r: Option<V>)
    requires
        unique_keys(old(entries)@),
    ensures
        unique_keys(final(entries)@),
        r is Some <==> assoc_map(old(entries)@).dom().contains(key@),
        r matches Some(v) ==> v == assoc_map(old(entries)@)[key@] && assoc_map(final(entries)@)
            == assoc_map(old(entries)@).remove(key@),
        r is None ==> final(entries)@ == old(entries)@,
{
    match assoc_index_of(entries, key) {
        Some(i) => {
            proof {
                lemma_assoc_value_at(entries@, i as int);
                lemma_assoc_remove(entries@, i as int);
            }
            let (_, v) = entries.remove(i);
            Some(v)
        }
        None => {
            proof {
                lemma_assoc_dom(entries@, key@);
            }
            None
        }
    }
}

} // verus!
