//! Small tables keyed by strings, kept as vectors of `(key, value)` entries
//! with distinct keys, and the map each table stands for.

use vstd::prelude::*;

verus! {

/// The keys of a table have no duplicates.
pub open spec fn keys_distinct<V>(e: Seq<(String, V)>) -> bool {
    forall|i: int, j: int| 0 <= i < j < e.len() ==> (#[trigger] e[i]).0@ != (#[trigger] e[j]).0@
}

/// Whether the table has an entry for `k`.
pub open spec fn has_key<V>(e: Seq<(String, V)>, k: Seq<char>) -> bool {
    exists|i: int| 0 <= i < e.len() && (#[trigger] e[i]).0@ == k
}

/// The map a table stands for: each key to the value stored with it.
pub open spec fn key_map<V>(e: Seq<(String, V)>) -> Map<Seq<char>, V> {
    Map::new(
        |k: Seq<char>| has_key(e, k),
        |k: Seq<char>| e[choose|i: int| 0 <= i < e.len() && (#[trigger] e[i]).0@ == k].1,
    )
}

pub proof fn lemma_key_map_at<V>(e: Seq<(String, V)>, i: int)
    requires
        keys_distinct(e),
        0 <= i < e.len(),
    ensures
        key_map(e).contains_key(e[i].0@),
        key_map(e)[e[i].0@] == e[i].1,
{
    let k = e[i].0@;
    assert(e[i].0@ == k);
    let j = choose|j: int| 0 <= j < e.len() && (#[trigger] e[j]).0@ == k;
    if j != i {
        if j < i {
            assert(e[j].0@ != e[i].0@);
        } else {
            assert(e[i].0@ != e[j].0@);
        }
    }
}

/// Replacing the value at `i` (keeping its key) updates that key in the map.
pub proof fn lemma_key_map_update<V>(e: Seq<(String, V)>, i: int, v: V)
    requires
        keys_distinct(e),
        0 <= i < e.len(),
    ensures
        keys_distinct(e.update(i, (e[i].0, v))),
        key_map(e.update(i, (e[i].0, v))) == key_map(e).insert(e[i].0@, v),
{
    let e2 = e.update(i, (e[i].0, v));
    assert forall|a: int, b: int| 0 <= a < b < e2.len() implies (#[trigger] e2[a]).0@ != (
    #[trigger] e2[b]).0@ by {
        assert(e[a].0@ != e[b].0@);
    }
    let m1 = key_map(e2);
    let m2 = key_map(e).insert(e[i].0@, v);
    assert forall|k: Seq<char>| m1.contains_key(k) <==> m2.contains_key(k) by {
        assert(e2[i].0@ == e[i].0@);
        if m2.contains_key(k) && k != e[i].0@ {
            let j = choose|j: int| 0 <= j < e.len() && (#[trigger] e[j]).0@ == k;
            assert(e2[j].0@ == k);
        }
        if m1.contains_key(k) {
            let j = choose|j: int| 0 <= j < e2.len() && (#[trigger] e2[j]).0@ == k;
            assert(e[j].0@ == k);
        }
    }
    assert forall|k: Seq<char>| m1.contains_key(k) implies m1[k] == m2[k] by {
        let j = choose|j: int| 0 <= j < e2.len() && (#[trigger] e2[j]).0@ == k;
        lemma_key_map_at(e2, j);
        if j != i {
            lemma_key_map_at(e, j);
        }
    }
    assert(m1 =~= m2);
}

/// Appending an entry for a new key adds it to the map.
pub proof fn lemma_key_map_push<V>(e: Seq<(String, V)>, k: String, v: V)
    requires
        keys_distinct(e),
        !key_map(e).contains_key(k@),
    ensures
        keys_distinct(e.push((k, v))),
        key_map(e.push((k, v))) == key_map(e).insert(k@, v),
{
    let e2 = e.push((k, v));
    assert forall|a: int, b: int| 0 <= a < b < e2.len() implies (#[trigger] e2[a]).0@ != (
    #[trigger] e2[b]).0@ by {
        if b == e.len() {
            assert(e[a].0@ == e2[a].0@);
        } else {
            assert(e[a].0@ != e[b].0@);
        }
    }
    let m1 = key_map(e2);
    let m2 = key_map(e).insert(k@, v);
    assert forall|x: Seq<char>| m1.contains_key(x) <==> m2.contains_key(x) by {
        if m2.contains_key(x) && x != k@ {
            let j = choose|j: int| 0 <= j < e.len() && (#[trigger] e[j]).0@ == x;
            assert(e2[j].0@ == x);
        }
        if m1.contains_key(x) && x != k@ {
            let j = choose|j: int| 0 <= j < e2.len() && (#[trigger] e2[j]).0@ == x;
            assert(e[j].0@ == x);
        }
        if x == k@ {
            assert(e2[e.len() as int].0@ == k@);
        }
    }
    assert forall|x: Seq<char>| m1.contains_key(x) implies m1[x] == m2[x] by {
        let j = choose|j: int| 0 <= j < e2.len() && (#[trigger] e2[j]).0@ == x;
        lemma_key_map_at(e2, j);
        if j < e.len() {
            lemma_key_map_at(e, j);
        }
    }
    assert(m1 =~= m2);
}

/// Removing the entry at `i` removes its key from the map.
pub proof fn lemma_key_map_remove<V>(e: Seq<(String, V)>, i: int)
    requires
        keys_distinct(e),
        0 <= i < e.len(),
    ensures
        keys_distinct(e.remove(i)),
        key_map(e.remove(i)) == key_map(e).remove(e[i].0@),
{
    let e2 = e.remove(i);
    assert forall|a: int, b: int| 0 <= a < b < e2.len() implies (#[trigger] e2[a]).0@ != (
    #[trigger] e2[b]).0@ by {
        let a2 = if a < i {
            a
        } else {
            a + 1
        };
        let b2 = if b < i {
            b
        } else {
            b + 1
        };
        assert(e[a2].0@ != e[b2].0@);
    }
    let m1 = key_map(e2);
    let m2 = key_map(e).remove(e[i].0@);
    assert forall|x: Seq<char>| m1.contains_key(x) <==> m2.contains_key(x) by {
        if m2.contains_key(x) {
            let j = choose|j: int| 0 <= j < e.len() && (#[trigger] e[j]).0@ == x;
            assert(j != i);
            if j < i {
                assert(e2[j].0@ == x);
            } else {
                assert(e2[j - 1].0@ == x);
            }
        }
        if m1.contains_key(x) {
            let j = choose|j: int| 0 <= j < e2.len() && (#[trigger] e2[j]).0@ == x;
            let j2 = if j < i {
                j
            } else {
                j + 1
            };
            assert(e[j2].0@ == x);
            if j < i {
                assert(e[j].0@ != e[i].0@);
            } else {
                assert(e[i].0@ != e[j + 1].0@);
            }
        }
    }
    assert forall|x: Seq<char>| m1.contains_key(x) implies m1[x] == m2[x] by {
        let j = choose|j: int| 0 <= j < e2.len() && (#[trigger] e2[j]).0@ == x;
        lemma_key_map_at(e2, j);
        let j2 = if j < i {
            j
        } else {
            j + 1
        };
        lemma_key_map_at(e, j2);
    }
    assert(m1 =~= m2);
}

/// A table with distinct keys stands for a finite map with one key per
/// entry.
pub proof fn lemma_key_map_len<V>(e: Seq<(String, V)>)
    requires
        keys_distinct(e),
    ensures
        key_map(e).dom().finite(),
        key_map(e).dom().len() == e.len(),
    decreases e.len(),
{
    if e.len() == 0 {
        assert(key_map(e).dom() =~= Set::<Seq<char>>::empty());
    } else {
        let init = e.drop_last();
        let last = e.last();
        assert(keys_distinct(init)) by {
            assert forall|a: int, b: int| 0 <= a < b < init.len() implies (#[trigger] init[a]).0@
                != (#[trigger] init[b]).0@ by {
                assert(init[a] == e[a] && init[b] == e[b]);
            }
        }
        lemma_key_map_len(init);
        assert(!key_map(init).contains_key(last.0@)) by {
            if key_map(init).contains_key(last.0@) {
                let j = choose|j: int| 0 <= j < init.len() && (#[trigger] init[j]).0@ == last.0@;
                assert(e[j].0@ != e[e.len() - 1].0@);
            }
        }
        lemma_key_map_push(init, last.0, last.1);
        assert(init.push((last.0, last.1)) =~= e);
    }
}

/// Filtering a sequence extended by one element.
pub proof fn lemma_filter_push<A>(s: Seq<A>, x: A, p: spec_fn(A) -> bool)
    ensures
        s.push(x).filter(p) == (if p(x) {
            s.filter(p).push(x)
        } else {
            s.filter(p)
        }),
{
    reveal(Seq::filter);
    assert(s.push(x).drop_last() =~= s);
}

/// The views of a sequence of strings.
pub open spec fn string_views(s: Seq<String>) -> Seq<Seq<char>> {
    s.map_values(|x: String| x@)
}

/// Whether `ids` holds a string equal to `id`.
pub fn contains_string(ids: &[String], id: &String) -> (b: bool)
    ensures
        b == string_views(ids@).contains(id@),
{
    let mut i: usize = 0;
    while i < ids.len()
        invariant
            i <= ids@.len(),
            forall|j: int| 0 <= j < i ==> (#[trigger] ids@[j])@ != id@,
        decreases ids@.len() - i,
    {
        if ids[i] == *id {
            assert(string_views(ids@)[i as int] == id@);
            return true;
        }
        i = i + 1;
    }
    proof {
        if string_views(ids@).contains(id@) {
            let j = choose|j: int| 0 <= j < string_views(ids@).len() && string_views(ids@)[j] == id@;
            assert(ids@[j]@ == id@);
        }
    }
    false
}

/// Mapping the values of a map commutes with inserting a key.
pub proof fn lemma_map_values_insert<K, V, W>(m: Map<K, V>, k: K, v: V, f: spec_fn(V) -> W)
    ensures
        m.insert(k, v).map_values(f) == m.map_values(f).insert(k, f(v)),
{
    assert(m.insert(k, v).map_values(f) =~= m.map_values(f).insert(k, f(v)));
}

/// Mapping the values of a map commutes with removing a key.
pub proof fn lemma_map_values_remove<K, V, W>(m: Map<K, V>, k: K, f: spec_fn(V) -> W)
    ensures
        m.remove(k).map_values(f) == m.map_values(f).remove(k),
{
    assert(m.remove(k).map_values(f) =~= m.map_values(f).remove(k));
}

/// Position of the entry for `k`, if any.
pub fn find_key<V>(e: &Vec<(String, V)>, k: &String) -> (idx: Option<usize>)
    requires
        keys_distinct(e@),
    ensures
        idx matches Some(i) ==> i < e@.len() && e@[i as int].0@ == k@,
        idx is None ==> !key_map(e@).contains_key(k@),
{
    let mut i: usize = 0;
    while i < e.len()
        invariant
            i <= e@.len(),
            forall|j: int| 0 <= j < i ==> (#[trigger] e@[j]).0@ != k@,
        decreases e@.len() - i,
    {
        if e[i].0 == *k {
            return Some(i);
        }
        i = i + 1;
    }
    proof {
        if key_map(e@).contains_key(k@) {
            let j = choose|j: int| 0 <= j < e@.len() && (#[trigger] e@[j]).0@ == k@;
        }
    }
    None
}

} // verus!
