//! Maps written down as lists of entries with text keys, for the
//! collections of the node that are kept in vectors.

use vstd::prelude::*;

verus! {

/// The map that a list of entries writes down: a later entry replaces an
/// earlier one with the same key.
pub open spec fn entries_map<V>(entries: Seq<(Seq<char>, V)>) -> Map<Seq<char>, V>
    decreases entries.len(),
{
    if entries.len() == 0 {
        Map::empty()
    } else {
        entries_map(entries.drop_last()).insert(entries.last().0, entries.last().1)
    }
}

/// Whether no key occurs twice among the entries.
pub open spec fn keys_distinct<V>(entries: Seq<(Seq<char>, V)>) -> bool {
    forall|i: int, j: int|
        0 <= i < j < entries.len() ==> (#[trigger] entries[i]).0 != (#[trigger] entries[j]).0
}

/// A key is in the map of a list of entries exactly when an entry has it.
pub proof fn lemma_entries_map_domain<V>(entries: Seq<(Seq<char>, V)>, key: Seq<char>)
    ensures
        entries_map(entries).dom().finite(),
        entries_map(entries).contains_key(key) <==> exists|i: int|
            0 <= i < entries.len() && (#[trigger] entries[i]).0 == key,
    decreases entries.len(),
{
    if entries.len() > 0 {
        let front = entries.drop_last();
        lemma_entries_map_domain(front, key);
        if entries_map(entries).contains_key(key) {
            if entries.last().0 == key {
                assert(entries[entries.len() - 1].0 == key);
            } else {
                let i = choose|i: int| 0 <= i < front.len() && (#[trigger] front[i]).0 == key;
                assert(entries[i].0 == key);
            }
        }
        if exists|i: int| 0 <= i < entries.len() && (#[trigger] entries[i]).0 == key {
            let i = choose|i: int| 0 <= i < entries.len() && (#[trigger] entries[i]).0 == key;
            if i < entries.len() - 1 {
                assert(front[i].0 == key);
            }
        }
    }
}

/// Where no key occurs twice, each entry is what the map holds under its
/// key, and the map has as many keys as there are entries.
pub proof fn lemma_entries_map_distinct<V>(entries: Seq<(Seq<char>, V)>)
    requires
        keys_distinct(entries),
    ensures
        entries_map(entries).len() == entries.len(),
        forall|i: int|
            0 <= i < entries.len() ==> entries_map(entries).contains_key(
                (#[trigger] entries[i]).0,
            ) && entries_map(entries)[entries[i].0] == entries[i].1,
    decreases entries.len(),
{
    if entries.len() > 0 {
        let front = entries.drop_last();
        let last = entries.last();
        assert forall|i: int, j: int| 0 <= i < j < front.len() implies (#[trigger] front[i]).0 != (
        #[trigger] front[j]).0 by {
            assert(entries[i].0 != entries[j].0);
        }
        lemma_entries_map_distinct(front);
        lemma_entries_map_domain(front, last.0);
        if entries_map(front).contains_key(last.0) {
            let i = choose|i: int| 0 <= i < front.len() && (#[trigger] front[i]).0 == last.0;
            assert(entries[i].0 == entries[entries.len() - 1].0);
        }
        assert forall|i: int| 0 <= i < entries.len() implies entries_map(entries).contains_key(
            (#[trigger] entries[i]).0,
        ) && entries_map(entries)[entries[i].0] == entries[i].1 by {
            if i < entries.len() - 1 {
                assert(front[i] == entries[i]);
                assert(entries[i].0 != entries[entries.len() - 1].0);
            }
        }
    }
}

/// Replacing the value of one entry, where no key occurs twice, is an
/// insertion into the map.
pub proof fn lemma_entries_map_update<V>(entries: Seq<(Seq<char>, V)>, at: int, value: V)
    requires
        keys_distinct(entries),
        0 <= at < entries.len(),
    ensures
        keys_distinct(entries.update(at, (entries[at].0, value))),
        entries_map(entries.update(at, (entries[at].0, value))) == entries_map(entries).insert(
            entries[at].0,
            value,
        ),
    decreases entries.len(),
{
    let key = entries[at].0;
    let updated = entries.update(at, (key, value));
    assert forall|i: int, j: int| 0 <= i < j < updated.len() implies (#[trigger] updated[i]).0 != (
    #[trigger] updated[j]).0 by {
        assert(entries[i].0 != entries[j].0);
    }
    let front = entries.drop_last();
    if at == entries.len() - 1 {
        assert(updated.drop_last() =~= front);
        assert(entries_map(updated) =~= entries_map(entries).insert(key, value));
    } else {
        assert forall|i: int, j: int| 0 <= i < j < front.len() implies (#[trigger] front[i]).0 != (
        #[trigger] front[j]).0 by {
            assert(entries[i].0 != entries[j].0);
        }
        lemma_entries_map_update(front, at, value);
        assert(updated.drop_last() =~= front.update(at, (key, value)));
        assert(front[at].0 == key);
        assert(entries[at].0 != entries[entries.len() - 1].0);
        assert(updated.last() == entries.last());
        assert(entries_map(updated) =~= entries_map(entries).insert(key, value));
    }
}

/// Appending an entry with a new key, where no key occurs twice, leaves
/// no key twice and is an insertion into the map.
pub proof fn lemma_entries_map_push<V>(entries: Seq<(Seq<char>, V)>, key: Seq<char>, value: V)
    requires
        keys_distinct(entries),
        forall|i: int| 0 <= i < entries.len() ==> (#[trigger] entries[i]).0 != key,
    ensures
        keys_distinct(entries.push((key, value))),
        entries_map(entries.push((key, value))) == entries_map(entries).insert(key, value),
{
    let after = entries.push((key, value));
    assert(after.drop_last() =~= entries);
    assert forall|i: int, j: int| 0 <= i < j < after.len() implies (#[trigger] after[i]).0 != (
    #[trigger] after[j]).0 by {
        if j < entries.len() {
            assert(entries[i].0 != entries[j].0);
        } else {
            assert(entries[i].0 != key);
        }
    }
}

/// Taking out one entry, where no key occurs twice, leaves no key twice
/// and takes its key out of the map.
pub proof fn lemma_entries_map_remove<V>(entries: Seq<(Seq<char>, V)>, at: int)
    requires
        keys_distinct(entries),
        0 <= at < entries.len(),
    ensures
        keys_distinct(entries.remove(at)),
        entries_map(entries.remove(at)) == entries_map(entries).remove(entries[at].0),
    decreases entries.len(),
{
    let key = entries[at].0;
    let after = entries.remove(at);
    assert forall|i: int, j: int| 0 <= i < j < after.len() implies (#[trigger] after[i]).0 != (
    #[trigger] after[j]).0 by {
        let ii = if i < at {
            i
        } else {
            i + 1
        };
        let jj = if j < at {
            j
        } else {
            j + 1
        };
        assert(after[i] == entries[ii] && after[j] == entries[jj]);
        assert(entries[ii].0 != entries[jj].0);
    }
    let front = entries.drop_last();
    if at == entries.len() - 1 {
        assert(after =~= front);
        lemma_entries_map_domain(front, key);
        if entries_map(front).contains_key(key) {
            let i = choose|i: int| 0 <= i < front.len() && (#[trigger] front[i]).0 == key;
            assert(entries[i].0 != entries[at].0);
        }
        assert(entries_map(after) =~= entries_map(entries).remove(key));
    } else {
        assert forall|i: int, j: int| 0 <= i < j < front.len() implies (#[trigger] front[i]).0 != (
        #[trigger] front[j]).0 by {
            assert(entries[i].0 != entries[j].0);
        }
        lemma_entries_map_remove(front, at);
        assert(after.drop_last() =~= front.remove(at));
        assert(after.last() == entries.last());
        assert(front[at].0 == key);
        assert(entries[at].0 != entries[entries.len() - 1].0);
        assert(entries_map(after) =~= entries_map(entries).remove(key));
    }
}

} // verus!
