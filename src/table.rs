//! Keyed tables held as sequences of `(key, value)` pairs with unique keys,
//! viewed as maps. Manifest dependencies and lock-file packages are such
//! tables.
use vstd::prelude::*;

verus! {

/// No key occurs twice.
pub open spec fn unique_keys<W>(s: Seq<(Seq<char>, W)>) -> bool {
    forall|i: int, j: int| 0 <= i < j < s.len() ==> #[trigger] s[i].0 != #[trigger] s[j].0
}

/// Some entry has key `k`.
pub open spec fn has_key<W>(s: Seq<(Seq<char>, W)>, k: Seq<char>) -> bool {
    exists|i: int| 0 <= i < s.len() && #[trigger] s[i].0 == k
}

/// The table as a map from key to value.
pub open spec fn table_map<W>(s: Seq<(Seq<char>, W)>) -> Map<Seq<char>, W> {
    Map::new(
        |k: Seq<char>| has_key(s, k),
        |k: Seq<char>| s[choose|i: int| 0 <= i < s.len() && #[trigger] s[i].0 == k].1,
    )
}

pub proof fn lemma_table_index<W>(s: Seq<(Seq<char>, W)>, i: int)
    requires
        unique_keys(s),
        0 <= i < s.len(),
    ensures
        table_map(s).contains_key(s[i].0),
        table_map(s)[s[i].0] == s[i].1,
{
    let k = s[i].0;
    assert(has_key(s, k));
    let j = choose|j: int| 0 <= j < s.len() && #[trigger] s[j].0 == k;
    assert(i == j);
}

/// Replacing the value of an entry is a map insert.
pub proof fn lemma_table_set<W>(s: Seq<(Seq<char>, W)>, i: int, w: W)
    requires
        unique_keys(s),
        0 <= i < s.len(),
    ensures
        unique_keys(s.update(i, (s[i].0, w))),
        table_map(s.update(i, (s[i].0, w))) == table_map(s).insert(s[i].0, w),
{
    let k = s[i].0;
    let t = s.update(i, (k, w));
    assert forall|a: int, b: int| 0 <= a < b < t.len() implies #[trigger] t[a].0 != #[trigger] t[b].0 by {
        assert(s[a].0 != s[b].0);
    }
    lemma_table_index(t, i);
    assert forall|q: Seq<char>| #[trigger] table_map(t).dom().contains(q) == table_map(s).insert(k, w).dom().contains(q) by {
        if has_key(t, q) {
            let j = choose|j: int| 0 <= j < t.len() && #[trigger] t[j].0 == q;
            if j != i {
                assert(s[j].0 == q);
            }
        }
        if has_key(s, q) {
            let j = choose|j: int| 0 <= j < s.len() && #[trigger] s[j].0 == q;
            assert(t[j].0 == q);
        }
    }
    assert forall|q: Seq<char>| table_map(t).contains_key(q) implies table_map(t)[q] == table_map(s).insert(k, w)[q] by {
        if q != k {
            let j = choose|j: int| 0 <= j < t.len() && #[trigger] t[j].0 == q;
            lemma_table_index(t, j);
            lemma_table_index(s, j);
        }
    }
    assert(table_map(t) =~= table_map(s).insert(k, w));
}

/// Appending an entry with a new key is a map insert.
pub proof fn lemma_table_push<W>(s: Seq<(Seq<char>, W)>, k: Seq<char>, w: W)
    requires
        unique_keys(s),
        !has_key(s, k),
    ensures
        unique_keys(s.push((k, w))),
        table_map(s.push((k, w))) == table_map(s).insert(k, w),
{
    let t = s.push((k, w));
    let n = s.len() as int;
    assert forall|a: int, b: int| 0 <= a < b < t.len() implies #[trigger] t[a].0 != #[trigger] t[b].0 by {
        if b < n {
            assert(s[a].0 != s[b].0);
        } else {
            assert(t[a].0 == s[a].0);
        }
    }
    lemma_table_index(t, n);
    assert forall|q: Seq<char>| #[trigger] table_map(t).dom().contains(q) == table_map(s).insert(k, w).dom().contains(q) by {
        if has_key(t, q) {
            let j = choose|j: int| 0 <= j < t.len() && #[trigger] t[j].0 == q;
            if j != n {
                assert(s[j].0 == q);
            }
        }
        if has_key(s, q) {
            let j = choose|j: int| 0 <= j < s.len() && #[trigger] s[j].0 == q;
            assert(t[j].0 == q);
        }
    }
    assert forall|q: Seq<char>| table_map(t).contains_key(q) implies table_map(t)[q] == table_map(s).insert(k, w)[q] by {
        if q != k {
            let j = choose|j: int| 0 <= j < s.len() && #[trigger] s[j].0 == q;
            lemma_table_index(t, j);
            lemma_table_index(s, j);
        }
    }
    assert(table_map(t) =~= table_map(s).insert(k, w));
}

/// Removing an entry is a map remove.
pub proof fn lemma_table_remove<W>(s: Seq<(Seq<char>, W)>, i: int)
    requires
        unique_keys(s),
        0 <= i < s.len(),
    ensures
        unique_keys(s.remove(i)),
        table_map(s.remove(i)) == table_map(s).remove(s[i].0),
{
    let k = s[i].0;
    let t = s.remove(i);
    assert forall|a: int, b: int| 0 <= a < b < t.len() implies #[trigger] t[a].0 != #[trigger] t[b].0 by {
        let oa = if a < i { a } else { a + 1 };
        let ob = if b < i { b } else { b + 1 };
        assert(t[a] == s[oa]);
        assert(t[b] == s[ob]);
        assert(s[oa].0 != s[ob].0);
    }
    assert forall|q: Seq<char>| #[trigger] table_map(t).dom().contains(q) == table_map(s).remove(k).dom().contains(q) by {
        if has_key(t, q) {
            let j = choose|j: int| 0 <= j < t.len() && #[trigger] t[j].0 == q;
            let oj = if j < i { j } else { j + 1 };
            assert(t[j] == s[oj]);
            assert(s[oj].0 != s[i].0);
        }
        if has_key(s, q) && q != k {
            let oj = choose|j: int| 0 <= j < s.len() && #[trigger] s[j].0 == q;
            let j = if oj < i { oj } else { oj - 1 };
            assert(t[j] == s[oj]);
        }
    }
    assert forall|q: Seq<char>| table_map(t).contains_key(q) implies table_map(t)[q] == table_map(s).remove(k)[q] by {
        let j = choose|j: int| 0 <= j < t.len() && #[trigger] t[j].0 == q;
        let oj = if j < i { j } else { j + 1 };
        assert(t[j] == s[oj]);
        lemma_table_index(t, j);
        lemma_table_index(s, oj);
    }
    assert(table_map(t) =~= table_map(s).remove(k));
}

} // verus!
