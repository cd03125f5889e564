//! Lists of entries, each under a name of its own, read as maps from names.
use vstd::prelude::*;

verus! {

/// The entry at index `i` stands under `key`.
pub open spec fn key_at<V>(entries: Seq<(String, V)>, key: Seq<char>, i: int) -> bool {
    0 <= i < entries.len() && entries[i].0@ == key
}

/// No key occurs twice.
pub open spec fn distinct_keys<V>(entries: Seq<(String, V)>) -> bool {
    forall|i: int, j: int|
        0 <= i < entries.len() && 0 <= j < entries.len() && i != j ==> (#[trigger] entries[i]).0@
            != (#[trigger] entries[j]).0@
}

/// The keys, in the order of the entries.
pub open spec fn keys<V>(entries: Seq<(String, V)>) -> Seq<Seq<char>> {
    Seq::new(entries.len(), |i: int| entries[i].0@)
}

/// The map that the entries stand for: each key to the value of its entry.
pub open spec fn as_map<V>(entries: Seq<(String, V)>) -> Map<Seq<char>, V> {
    Map::new(
        |key: Seq<char>| exists|i: int| key_at(entries, key, i),
        |key: Seq<char>| entries[choose|i: int| key_at(entries, key, i)].1,
    )
}

/// Each entry is found under its key.
pub proof fn lemma_entry<V>(entries: Seq<(String, V)>, i: int)
    requires
        distinct_keys(entries),
        0 <= i < entries.len(),
    ensures
        as_map(entries).contains_key(entries[i].0@),
        as_map(entries)[entries[i].0@] == entries[i].1,
{
    let key = entries[i].0@;
    assert(key_at(entries, key, i));
    let c = choose|c: int| key_at(entries, key, c);
    assert(c == i);
}

/// A key of the map is the key of some entry.
pub proof fn lemma_index_of<V>(entries: Seq<(String, V)>, key: Seq<char>) -> (i: int)
    requires
        distinct_keys(entries),
        as_map(entries).contains_key(key),
    ensures
        key_at(entries, key, i),
        as_map(entries)[key] == entries[i].1,
{
    let i = choose|i: int| key_at(entries, key, i);
    lemma_entry(entries, i);
    i
}

/// Putting an entry under a new key at index `at` adds it to the map.
pub proof fn lemma_insert<V>(entries: Seq<(String, V)>, at: int, entry: (String, V))
    requires
        distinct_keys(entries),
        0 <= at <= entries.len(),
        forall|i: int| 0 <= i < entries.len() ==> (#[trigger] entries[i]).0@ != entry.0@,
    ensures
        distinct_keys(entries.insert(at, entry)),
        as_map(entries.insert(at, entry)) == as_map(entries).insert(entry.0@, entry.1),
{
    let after = entries.insert(at, entry);
    assert(distinct_keys(after)) by {
        assert forall|a: int, b: int|
            0 <= a < after.len() && 0 <= b < after.len() && a != b implies (#[trigger] after[a]).0@
            != (#[trigger] after[b]).0@ by {
            let a0 = if a < at { a } else { a - 1 };
            let b0 = if b < at { b } else { b - 1 };
            if a != at && b != at {
                assert(entries[a0].0@ != entries[b0].0@);
            } else if a == at {
                assert(entries[b0].0@ != entry.0@);
            } else {
                assert(entries[a0].0@ != entry.0@);
            }
        }
    }
    let goal = as_map(entries).insert(entry.0@, entry.1);
    assert forall|key: Seq<char>| as_map(after).contains_key(key) <==> goal.contains_key(key) by {
        if as_map(after).contains_key(key) {
            let i = choose|i: int| key_at(after, key, i);
            if i != at {
                let i0 = if i < at { i } else { i - 1 };
                assert(key_at(entries, key, i0));
            }
        }
        if as_map(entries).contains_key(key) {
            let i = choose|i: int| key_at(entries, key, i);
            let i1 = if i < at { i } else { i + 1 };
            assert(key_at(after, key, i1));
        }
        if key == entry.0@ {
            assert(key_at(after, key, at));
        }
    }
    assert forall|key: Seq<char>| as_map(after).contains_key(key) implies as_map(after)[key]
        == goal[key] by {
        let i = choose|i: int| key_at(after, key, i);
        lemma_entry(after, i);
        if i != at {
            let i0 = if i < at { i } else { i - 1 };
            lemma_entry(entries, i0);
        }
    }
    assert(as_map(after) =~= goal);
}

/// Adding an entry under a new key at the end adds it to the map.
pub proof fn lemma_push<V>(entries: Seq<(String, V)>, entry: (String, V))
    requires
        distinct_keys(entries),
        forall|i: int| 0 <= i < entries.len() ==> (#[trigger] entries[i]).0@ != entry.0@,
    ensures
        distinct_keys(entries.push(entry)),
        as_map(entries.push(entry)) == as_map(entries).insert(entry.0@, entry.1),
{
    lemma_insert(entries, entries.len() as int, entry);
    assert(entries.insert(entries.len() as int, entry) =~= entries.push(entry));
}

/// Replacing the entry at `i` by one under the same key replaces its value.
pub proof fn lemma_update<V>(entries: Seq<(String, V)>, i: int, entry: (String, V))
    requires
        distinct_keys(entries),
        0 <= i < entries.len(),
        entries[i].0@ == entry.0@,
    ensures
        distinct_keys(entries.update(i, entry)),
        keys(entries.update(i, entry)) == keys(entries),
        as_map(entries.update(i, entry)) == as_map(entries).insert(entry.0@, entry.1),
{
    let after = entries.update(i, entry);
    assert(keys(after) =~= keys(entries));
    assert(distinct_keys(after)) by {
        assert forall|a: int, b: int|
            0 <= a < after.len() && 0 <= b < after.len() && a != b implies (#[trigger] after[a]).0@
            != (#[trigger] after[b]).0@ by {
            assert(entries[a].0@ != entries[b].0@);
        }
    }
    let goal = as_map(entries).insert(entry.0@, entry.1);
    assert forall|key: Seq<char>| as_map(after).contains_key(key) <==> goal.contains_key(key) by {
        if as_map(after).contains_key(key) {
            let j = choose|j: int| key_at(after, key, j);
            assert(key_at(entries, key, j));
        }
        if as_map(entries).contains_key(key) {
            let j = choose|j: int| key_at(entries, key, j);
            assert(key_at(after, key, j));
        }
        if key == entry.0@ {
            assert(key_at(after, key, i));
        }
    }
    assert forall|key: Seq<char>| as_map(after).contains_key(key) implies as_map(after)[key]
        == goal[key] by {
        let j = choose|j: int| key_at(after, key, j);
        lemma_entry(after, j);
        lemma_entry(entries, j);
    }
    assert(as_map(after) =~= goal);
}

/// Taking the entry at `i` away takes its key out of the map.
pub proof fn lemma_remove<V>(entries: Seq<(String, V)>, i: int)
    requires
        distinct_keys(entries),
        0 <= i < entries.len(),
    ensures
        distinct_keys(entries.remove(i)),
        as_map(entries.remove(i)) == as_map(entries).remove(entries[i].0@),
{
    let after = entries.remove(i);
    let gone = entries[i].0@;
    assert(distinct_keys(after)) by {
        assert forall|a: int, b: int|
            0 <= a < after.len() && 0 <= b < after.len() && a != b implies (#[trigger] after[a]).0@
            != (#[trigger] after[b]).0@ by {
            let a0 = if a < i { a } else { a + 1 };
            let b0 = if b < i { b } else { b + 1 };
            assert(entries[a0].0@ != entries[b0].0@);
        }
    }
    let goal = as_map(entries).remove(gone);
    assert forall|key: Seq<char>| as_map(after).contains_key(key) <==> goal.contains_key(key) by {
        if as_map(after).contains_key(key) {
            let j = choose|j: int| key_at(after, key, j);
            let j0 = if j < i { j } else { j + 1 };
            assert(key_at(entries, key, j0));
            assert(entries[j0].0@ != entries[i].0@);
        }
        if as_map(entries).contains_key(key) && key != gone {
            let j = choose|j: int| key_at(entries, key, j);
            let j1 = if j < i { j } else { j - 1 };
            assert(key_at(after, key, j1));
        }
    }
    assert forall|key: Seq<char>| as_map(after).contains_key(key) implies as_map(after)[key]
        == goal[key] by {
        let j = choose|j: int| key_at(after, key, j);
        let j0 = if j < i { j } else { j + 1 };
        lemma_entry(after, j);
        lemma_entry(entries, j0);
    }
    assert(as_map(after) =~= goal);
}

/// There are as many keys in the map as entries.
pub proof fn lemma_len<V>(entries: Seq<(String, V)>)
    requires
        distinct_keys(entries),
    ensures
        as_map(entries).dom().finite(),
        as_map(entries).len() == entries.len(),
    decreases entries.len(),
{
    if entries.len() == 0 {
        assert(as_map(entries) =~= Map::<Seq<char>, V>::empty());
    } else {
        let last = entries.last();
        let front = entries.drop_last();
        assert forall|i: int, j: int|
            0 <= i < front.len() && 0 <= j < front.len() && i != j implies (#[trigger] front[i]).0@
            != (#[trigger] front[j]).0@ by {
            assert(entries[i].0@ != entries[j].0@);
        }
        lemma_len(front);
        assert forall|i: int| 0 <= i < front.len() implies (#[trigger] front[i]).0@ != last.0@ by {
            assert(entries[i].0@ != entries[entries.len() - 1].0@);
        }
        lemma_push(front, last);
        assert(front.push(last) =~= entries);
        assert(!as_map(front).contains_key(last.0@)) by {
            if as_map(front).contains_key(last.0@) {
                let i = choose|i: int| key_at(front, last.0@, i);
                assert(entries[i].0@ != entries[entries.len() - 1].0@);
            }
        }
    }
}

/// Where `key` stands among the entries, if it does.
pub fn position<V>(entries: &Vec<(String, V)>, key: &str) -> (found: Option<usize>)
    ensures
        match found {
            Some(i) => key_at(entries@, key@, i as int),
            None => !as_map(entries@).contains_key(key@),
        },
{
    let wanted = key.to_string();
    let mut i: usize = 0;
    while i < entries.len()
        invariant
            i <= entries.len(),
            wanted@ == key@,
            forall|j: int| 0 <= j < i ==> !key_at(entries@, key@, j),
        decreases entries.len() - i,
    {
        if entries[i].0 == wanted {
            return Some(i);
        }
        i = i + 1;
    }
    None
}

} // verus!
