//! Properties of the byte order and of the stable insertion sort that the
//! canonical map encoding uses.

use vstd::prelude::*;
use crate::bytes::lex_lt;
use super::canonical::{insert_by_key, sort_by_key};

verus! {

/// `lex_lt` never relates a byte string to itself.
pub proof fn lemma_lex_irreflexive(a: Seq<u8>)
    ensures
        !lex_lt(a, a),
    decreases a.len(),
{
    if a.len() > 0 {
        lemma_lex_irreflexive(a.drop_first());
    }
}

/// `lex_lt` is transitive.
pub proof fn lemma_lex_transitive(a: Seq<u8>, b: Seq<u8>, c: Seq<u8>)
    requires
        lex_lt(a, b),
        lex_lt(b, c),
    ensures
        lex_lt(a, c),
    decreases a.len(),
{
    if a.len() > 0 && b.len() > 0 && c.len() > 0 && a[0] == b[0] && b[0] == c[0] {
        lemma_lex_transitive(a.drop_first(), b.drop_first(), c.drop_first());
    }
}

/// Two different byte strings are ordered one way or the other.
pub proof fn lemma_lex_total(a: Seq<u8>, b: Seq<u8>)
    requires
        a != b,
    ensures
        lex_lt(a, b) || lex_lt(b, a),
    decreases a.len(),
{
    if a.len() == 0 {
        assert(b.len() > 0) by {
            if b.len() == 0 {
                assert(a =~= b);
            }
        }
    } else if b.len() > 0 && a[0] == b[0] {
        if a.drop_first() == b.drop_first() {
            assert(a =~= seq![a[0]] + a.drop_first());
            assert(b =~= seq![b[0]] + b.drop_first());
        }
        lemma_lex_total(a.drop_first(), b.drop_first());
    }
}

/// `lex_lt` is asymmetric.
pub proof fn lemma_lex_asymmetric(a: Seq<u8>, b: Seq<u8>)
    requires
        lex_lt(a, b),
    ensures
        !lex_lt(b, a),
{
    if lex_lt(b, a) {
        lemma_lex_transitive(a, b, a);
        lemma_lex_irreflexive(a);
    }
}

/// Keys never decrease along the sequence.
pub open spec fn key_sorted<V>(s: Seq<(Seq<u8>, V)>) -> bool {
    forall|i: int, j: int| 0 <= i < j < s.len() ==> !lex_lt(#[trigger] s[j].0, #[trigger] s[i].0)
}

/// Inserting is placing `e` at some position.
pub proof fn lemma_insert_is_insert<V>(s: Seq<(Seq<u8>, V)>, e: (Seq<u8>, V))
    ensures
        exists|j: int| 0 <= j <= s.len() && insert_by_key(s, e) == s.insert(j, e),
    decreases s.len(),
{
    if s.len() == 0 {
        assert(insert_by_key(s, e) =~= s.insert(0, e));
    } else if lex_lt(e.0, s.last().0) {
        lemma_insert_is_insert(s.drop_last(), e);
        let j = choose|j: int| 0 <= j <= s.drop_last().len() && insert_by_key(s.drop_last(), e) == s.drop_last().insert(j, e);
        assert(s.drop_last().insert(j, e).push(s.last()) =~= s.insert(j, e));
    } else {
        assert(s.push(e) =~= s.insert(s.len() as int, e));
    }
}

/// Insertion keeps a key-sorted sequence key-sorted.
pub proof fn lemma_insert_sorted<V>(s: Seq<(Seq<u8>, V)>, e: (Seq<u8>, V))
    requires
        key_sorted(s),
    ensures
        key_sorted(insert_by_key(s, e)),
        insert_by_key(s, e).len() == s.len() + 1,
    decreases s.len(),
{
    if s.len() == 0 {
    } else if lex_lt(e.0, s.last().0) {
        let d = s.drop_last();
        assert(key_sorted(d)) by {
            assert forall|i: int, j: int| 0 <= i < j < d.len() implies !lex_lt(#[trigger] d[j].0, #[trigger] d[i].0) by {
                assert(d[i] == s[i] && d[j] == s[j]);
            }
        }
        lemma_insert_sorted(d, e);
        lemma_insert_is_insert(d, e);
        let r = insert_by_key(d, e);
        let t = r.push(s.last());
        assert forall|i: int, j: int| 0 <= i < j < t.len() implies !lex_lt(#[trigger] t[j].0, #[trigger] t[i].0) by {
            if j == t.len() - 1 {
                let k = choose|k: int| 0 <= k <= d.len() && r == d.insert(k, e);
                if i == k {
                    lemma_lex_asymmetric(e.0, s.last().0);
                } else if i < k {
                    assert(t[i] == s[i]);
                } else {
                    assert(t[i] == s[i - 1]);
                }
            }
        }
    } else {
        let t = s.push(e);
        assert forall|i: int, j: int| 0 <= i < j < t.len() implies !lex_lt(#[trigger] t[j].0, #[trigger] t[i].0) by {
            if j == t.len() - 1 && i < s.len() - 1 {
                assert(!lex_lt(s[s.len() - 1].0, s[i].0));
                if lex_lt(e.0, s[i].0) {
                    if s[s.len() - 1].0 == s[i].0 {
                    } else {
                        lemma_lex_total(s[s.len() - 1].0, s[i].0);
                        lemma_lex_transitive(e.0, s[i].0, s[s.len() - 1].0);
                    }
                }
            }
        }
    }
}

/// The sort yields a key-sorted sequence of the same length.
pub proof fn lemma_sort_sorted<V>(s: Seq<(Seq<u8>, V)>)
    ensures
        key_sorted(sort_by_key(s)),
        sort_by_key(s).len() == s.len(),
    decreases s.len(),
{
    if s.len() > 0 {
        lemma_sort_sorted(s.drop_last());
        lemma_insert_sorted(sort_by_key(s.drop_last()), s.last());
    }
}

/// Every entry of the sorted sequence is an entry of the input.
pub proof fn lemma_sort_members<V>(s: Seq<(Seq<u8>, V)>)
    ensures
        forall|i: int| 0 <= i < sort_by_key(s).len() ==> s.contains(#[trigger] sort_by_key(s)[i]),
    decreases s.len(),
{
    if s.len() > 0 {
        let d = s.drop_last();
        lemma_sort_members(d);
        lemma_sort_sorted(d);
        lemma_insert_is_insert(sort_by_key(d), s.last());
        let sd = sort_by_key(d);
        let k = choose|k: int| 0 <= k <= sd.len() && insert_by_key(sd, s.last()) == sd.insert(k, s.last());
        assert forall|i: int| 0 <= i < sort_by_key(s).len() implies s.contains(#[trigger] sort_by_key(s)[i]) by {
            let x = sort_by_key(s)[i];
            if i == k {
                assert(s[s.len() - 1] == x);
            } else {
                let i2 = if i < k { i } else { i - 1 };
                assert(x == sd[i2]);
                assert(d.contains(x));
                let m = choose|m: int| 0 <= m < d.len() && d[m] == x;
                assert(s[m] == x);
            }
        }
    }
}

/// Sorting an already key-sorted sequence changes nothing.
pub proof fn lemma_sort_of_sorted<V>(s: Seq<(Seq<u8>, V)>)
    requires
        key_sorted(s),
    ensures
        sort_by_key(s) == s,
    decreases s.len(),
{
    if s.len() > 0 {
        let d = s.drop_last();
        assert(key_sorted(d)) by {
            assert forall|i: int, j: int| 0 <= i < j < d.len() implies !lex_lt(#[trigger] d[j].0, #[trigger] d[i].0) by {
                assert(d[i] == s[i] && d[j] == s[j]);
            }
        }
        lemma_sort_of_sorted(d);
        if d.len() > 0 {
            assert(!lex_lt(s[s.len() - 1].0, s[s.len() - 2].0));
        }
        assert(d.push(s.last()) =~= s);
    }
}

/// Replacing every value while keeping the keys commutes with sorting.
pub proof fn lemma_sort_map_values<V, W>(s: Seq<(Seq<u8>, V)>, f: spec_fn((Seq<u8>, V)) -> (Seq<u8>, W))
    requires
        forall|e: (Seq<u8>, V)| #[trigger] f(e).0 == e.0,
    ensures
        sort_by_key(s.map_values(f)) == sort_by_key(s).map_values(f),
    decreases s.len(),
{
    if s.len() > 0 {
        let d = s.drop_last();
        assert(s.map_values(f).drop_last() =~= d.map_values(f));
        lemma_sort_map_values(d, f);
        lemma_insert_map_values(sort_by_key(d), s.last(), f);
    } else {
        assert(s.map_values(f) =~= s.map_values(f));
    }
}

proof fn lemma_insert_map_values<V, W>(s: Seq<(Seq<u8>, V)>, e: (Seq<u8>, V), f: spec_fn((Seq<u8>, V)) -> (Seq<u8>, W))
    requires
        forall|x: (Seq<u8>, V)| #[trigger] f(x).0 == x.0,
    ensures
        insert_by_key(s.map_values(f), f(e)) == insert_by_key(s, e).map_values(f),
    decreases s.len(),
{
    if s.len() == 0 {
        assert(insert_by_key(s, e).map_values(f) =~= seq![f(e)]);
    } else {
        let d = s.drop_last();
        assert(s.map_values(f).drop_last() =~= d.map_values(f));
        assert(s.map_values(f).last() == f(s.last()));
        if lex_lt(e.0, s.last().0) {
            lemma_insert_map_values(d, e, f);
            assert(insert_by_key(d, e).push(s.last()).map_values(f) =~= insert_by_key(d, e).map_values(f).push(f(s.last())));
        } else {
            assert(s.push(e).map_values(f) =~= s.map_values(f).push(f(e)));
        }
    }
}

/// No two entries share a key.
pub open spec fn distinct_keys<V>(s: Seq<(Seq<u8>, V)>) -> bool {
    forall|i: int, j: int| 0 <= i < j < s.len() ==> #[trigger] s[i].0 != #[trigger] s[j].0
}

/// Keys strictly increase along the sequence.
pub open spec fn strictly_sorted<V>(s: Seq<(Seq<u8>, V)>) -> bool {
    forall|i: int, j: int| 0 <= i < j < s.len() ==> lex_lt(#[trigger] s[i].0, #[trigger] s[j].0)
}

/// Every entry of the input is an entry of the sorted sequence.
pub proof fn lemma_sort_keeps_all<V>(s: Seq<(Seq<u8>, V)>)
    ensures
        forall|i: int| 0 <= i < s.len() ==> sort_by_key(s).contains(#[trigger] s[i]),
    decreases s.len(),
{
    if s.len() > 0 {
        let d = s.drop_last();
        lemma_sort_keeps_all(d);
        let sd = sort_by_key(d);
        lemma_insert_is_insert(sd, s.last());
        let k = choose|k: int| 0 <= k <= sd.len() && insert_by_key(sd, s.last()) == sd.insert(k, s.last());
        let r = sort_by_key(s);
        assert forall|i: int| 0 <= i < s.len() implies r.contains(#[trigger] s[i]) by {
            if i == s.len() - 1 {
                assert(r[k] == s[i]);
            } else {
                assert(d[i] == s[i]);
                assert(sd.contains(d[i]));
                let m = choose|m: int| 0 <= m < sd.len() && sd[m] == d[i];
                if m < k {
                    assert(r[m] == sd[m]);
                } else {
                    assert(r[m + 1] == sd[m]);
                }
            }
        }
    }
}

/// Sorting keeps keys distinct.
pub proof fn lemma_sort_distinct<V>(s: Seq<(Seq<u8>, V)>)
    requires
        distinct_keys(s),
    ensures
        distinct_keys(sort_by_key(s)),
    decreases s.len(),
{
    if s.len() > 0 {
        let d = s.drop_last();
        assert(distinct_keys(d)) by {
            assert forall|i: int, j: int| 0 <= i < j < d.len() implies #[trigger] d[i].0 != #[trigger] d[j].0 by {
                assert(d[i] == s[i] && d[j] == s[j]);
            }
        }
        lemma_sort_distinct(d);
        lemma_sort_members(d);
        let sd = sort_by_key(d);
        let e = s.last();
        lemma_insert_is_insert(sd, e);
        let k = choose|k: int| 0 <= k <= sd.len() && insert_by_key(sd, e) == sd.insert(k, e);
        let r = sort_by_key(s);
        assert forall|m: int| 0 <= m < sd.len() implies #[trigger] sd[m].0 != e.0 by {
            assert(d.contains(sd[m]));
            let t = choose|t: int| 0 <= t < d.len() && d[t] == sd[m];
            assert(s[t] == sd[m]);
        }
        assert forall|i: int, j: int| 0 <= i < j < r.len() implies #[trigger] r[i].0 != #[trigger] r[j].0 by {
            if i == k {
                assert(r[j] == sd[j - 1]);
            } else if j == k {
                assert(r[i] == sd[i]);
            } else {
                let i2 = if i < k { i } else { i - 1 };
                let j2 = if j < k { j } else { j - 1 };
                assert(r[i] == sd[i2] && r[j] == sd[j2]);
            }
        }
    }
}

/// A key-sorted sequence with distinct keys is strictly sorted.
pub proof fn lemma_strictly_sorted<V>(s: Seq<(Seq<u8>, V)>)
    requires
        key_sorted(s),
        distinct_keys(s),
    ensures
        strictly_sorted(s),
{
    assert forall|i: int, j: int| 0 <= i < j < s.len() implies lex_lt(#[trigger] s[i].0, #[trigger] s[j].0) by {
        lemma_lex_total(s[i].0, s[j].0);
    }
}

/// Two strictly sorted sequences with the same entries are equal.
pub proof fn lemma_strictly_sorted_unique<V>(a: Seq<(Seq<u8>, V)>, b: Seq<(Seq<u8>, V)>)
    requires
        strictly_sorted(a),
        strictly_sorted(b),
        forall|x: (Seq<u8>, V)| a.contains(x) <==> b.contains(x),
    ensures
        a == b,
    decreases a.len(),
{
    if a.len() == 0 {
        if b.len() > 0 {
            assert(b.contains(b[0]));
        }
        assert(a =~= b);
    } else {
        let x = a.last();
        assert(a.contains(x));
        assert(b.contains(x));
        let j = choose|j: int| 0 <= j < b.len() && b[j] == x;
        let y = b.last();
        assert(b.contains(y));
        let i = choose|i: int| 0 <= i < a.len() && a[i] == y;
        if j < b.len() - 1 {
            assert(lex_lt(b[j].0, b[b.len() - 1].0));
            if i < a.len() - 1 {
                assert(lex_lt(a[i].0, a[a.len() - 1].0));
                lemma_lex_asymmetric(x.0, y.0);
            } else {
                lemma_lex_irreflexive(x.0);
            }
        }
        assert(x == y);
        let a1 = a.drop_last();
        let b1 = b.drop_last();
        assert forall|z: (Seq<u8>, V)| a1.contains(z) <==> b1.contains(z) by {
            if a1.contains(z) {
                let t = choose|t: int| 0 <= t < a1.len() && a1[t] == z;
                assert(a[t] == z);
                assert(lex_lt(a[t].0, a[a.len() - 1].0));
                lemma_lex_irreflexive(x.0);
                assert(a.contains(z));
                let u = choose|u: int| 0 <= u < b.len() && b[u] == z;
                assert(u != b.len() - 1);
                assert(b1[u] == z);
            }
            if b1.contains(z) {
                let t = choose|t: int| 0 <= t < b1.len() && b1[t] == z;
                assert(b[t] == z);
                assert(lex_lt(b[t].0, b[b.len() - 1].0));
                lemma_lex_irreflexive(x.0);
                assert(b.contains(z));
                let u = choose|u: int| 0 <= u < a.len() && a[u] == z;
                assert(u != a.len() - 1);
                assert(a1[u] == z);
            }
        }
        assert(strictly_sorted(a1)) by {
            assert forall|i: int, j: int| 0 <= i < j < a1.len() implies lex_lt(#[trigger] a1[i].0, #[trigger] a1[j].0) by {
                assert(a1[i] == a[i] && a1[j] == a[j]);
            }
        }
        assert(strictly_sorted(b1)) by {
            assert forall|i: int, j: int| 0 <= i < j < b1.len() implies lex_lt(#[trigger] b1[i].0, #[trigger] b1[j].0) by {
                assert(b1[i] == b[i] && b1[j] == b[j]);
            }
        }
        lemma_strictly_sorted_unique(a1, b1);
        assert(a =~= a1.push(x));
        assert(b =~= b1.push(y));
    }
}

/// A sequence of `n` distinct positions in `[0, n)` holds each of them.
pub proof fn lemma_permutation_onto(order: Seq<int>)
    requires
        forall|j: int| 0 <= j < order.len() ==> 0 <= #[trigger] order[j] < order.len(),
        forall|i: int, j: int| 0 <= i < j < order.len() ==> order[i] != order[j],
    ensures
        forall|x: int| 0 <= x < order.len() ==> #[trigger] order.contains(x),
{
    let n = order.len() as int;
    assert(order.no_duplicates()) by {
        assert forall|i: int, j: int| 0 <= i < order.len() && 0 <= j < order.len() && i != j implies order[i] != order[j] by {
            if i > j {
                assert(order[j] != order[i]);
            }
        }
    }
    order.unique_seq_to_set();
    vstd::seq_lib::seq_to_set_is_finite(order);
    vstd::set_lib::lemma_int_range(0, n);
    let range = vstd::set_lib::set_int_range(0, n);
    assert(order.to_set().subset_of(range)) by {
        assert forall|x: int| order.to_set().contains(x) implies range.contains(x) by {
            let j = choose|j: int| 0 <= j < order.len() && order[j] == x;
        }
    }
    vstd::set_lib::lemma_subset_equality(order.to_set(), range);
    assert forall|x: int| 0 <= x < n implies #[trigger] order.contains(x) by {
        assert(range.contains(x));
        assert(order.to_set().contains(x));
    }
}

/// The byte order is the bytewise lexicographic one: at the first position
/// where two strings differ the smaller byte comes first, and a proper prefix
/// comes before the strings it begins.
pub proof fn law_lex_order(a: Seq<u8>, b: Seq<u8>, i: int)
    ensures
        0 <= i < a.len() && i < b.len() && a.take(i) == b.take(i) && a[i] != b[i] ==> (lex_lt(a, b) <==> a[i] < b[i]),
        a.len() < b.len() && b.take(a.len() as int) == a ==> lex_lt(a, b),
        !lex_lt(a, a),
    decreases a.len(),
{
    lemma_lex_irreflexive(a);
    if a.len() > 0 && b.len() > 0 {
        let a1 = a.drop_first();
        let b1 = b.drop_first();
        law_lex_order(a1, b1, i - 1);
        if 0 < i < a.len() && i < b.len() && a.take(i) == b.take(i) && a[i] != b[i] {
            assert(a[0] == a.take(i)[0] && b[0] == b.take(i)[0]);
            assert(a1.take(i - 1) =~= a.take(i).drop_first());
            assert(b1.take(i - 1) =~= b.take(i).drop_first());
        }
        if a.len() < b.len() && b.take(a.len() as int) == a {
            assert(b[0] == b.take(a.len() as int)[0]);
            assert(b1.take(a1.len() as int) =~= b.take(a.len() as int).drop_first());
        }
    }
}

} // verus!
