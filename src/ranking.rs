//! Ordering sequences by a byte-string key: the stable insertion order that
//! buckets, candidate sets and lookups use to rank contacts by distance.
use crate::kademlia_id::{lex_lt, lemma_lex_strict_order, lemma_lex_total};
use vstd::prelude::*;

verus! {

/// Inserts `x` into `s` after the trailing run of elements whose key is
/// greater than `x`'s.
pub open spec fn insert_sorted<A>(s: Seq<A>, x: A, key: spec_fn(A) -> Seq<u8>) -> Seq<A>
    decreases s.len(),
{
    if s.len() == 0 {
        seq![x]
    } else if lex_lt(key(x), key(s.last())) {
        insert_sorted(s.drop_last(), x, key).push(s.last())
    } else {
        s.push(x)
    }
}

/// Stable insertion sort of `s` by ascending key.
pub open spec fn sort_by_key<A>(s: Seq<A>, key: spec_fn(A) -> Seq<u8>) -> Seq<A>
    decreases s.len(),
{
    if s.len() == 0 {
        s
    } else {
        insert_sorted(sort_by_key(s.drop_last(), key), s.last(), key)
    }
}

/// No element's key is smaller than an earlier element's key.
pub open spec fn is_sorted_by_key<A>(s: Seq<A>, key: spec_fn(A) -> Seq<u8>) -> bool {
    forall|i: int, j: int| 0 <= i < j < s.len() ==> !lex_lt(key(s[j]), key(s[i]))
}

/// Every key in `s` has length `n`.
pub open spec fn keys_have_len<A>(s: Seq<A>, key: spec_fn(A) -> Seq<u8>, n: nat) -> bool {
    forall|i: int| 0 <= i < s.len() ==> (#[trigger] key(s[i])).len() == n
}

/// Inserting at a position found by scanning from the end agrees with
/// `insert_sorted`.
pub proof fn lemma_insert_sorted_at<A>(s: Seq<A>, x: A, key: spec_fn(A) -> Seq<u8>, j: int)
    requires
        0 <= j <= s.len(),
        forall|k: int| j <= k < s.len() ==> lex_lt(key(x), key(#[trigger] s[k])),
        j == 0 || !lex_lt(key(x), key(s[j - 1])),
    ensures
        insert_sorted(s, x, key) == s.insert(j, x),
    decreases s.len(),
{
    if s.len() == j {
        if s.len() == 0 {
            assert(seq![x] =~= s.insert(j, x));
        } else {
            assert(s.push(x) =~= s.insert(j, x));
        }
    } else {
        assert(lex_lt(key(x), key(s[s.len() - 1])));
        let t = s.drop_last();
        assert forall|k: int| j <= k < t.len() implies lex_lt(key(x), key(#[trigger] t[k])) by {
            assert(t[k] == s[k]);
        }
        lemma_insert_sorted_at(t, x, key, j);
        assert(t.insert(j, x).push(s.last()) =~= s.insert(j, x));
    }
}

/// `insert_sorted` adds exactly one element, `x`.
pub proof fn lemma_insert_sorted_contents<A>(s: Seq<A>, x: A, key: spec_fn(A) -> Seq<u8>)
    ensures
        insert_sorted(s, x, key).len() == s.len() + 1,
        insert_sorted(s, x, key).to_multiset() == s.to_multiset().insert(x),
        forall|y: A| #[trigger]
            insert_sorted(s, x, key).contains(y) <==> (s.contains(y) || y == x),
    decreases s.len(),
{
    broadcast use vstd::seq_lib::group_to_multiset_ensures;

    let r = insert_sorted(s, x, key);
    if s.len() == 0 {
        assert(r =~= seq![x]);
        assert(r.to_multiset() =~= s.to_multiset().insert(x)) by {
            assert(r =~= s.push(x));
        }
        assert forall|y: A| #[trigger] r.contains(y) <==> (s.contains(y) || y == x) by {
            if r.contains(y) {
                assert(r[0] == x);
            }
            if y == x {
                assert(r[0] == x);
            }
        }
    } else if lex_lt(key(x), key(s.last())) {
        let t = s.drop_last();
        lemma_insert_sorted_contents(t, x, key);
        let rt = insert_sorted(t, x, key);
        assert(s =~= t.push(s.last()));
        assert(r.to_multiset() =~= s.to_multiset().insert(x));
        assert forall|y: A| #[trigger] r.contains(y) <==> (s.contains(y) || y == x) by {
            if r.contains(y) {
                let k = choose|k: int| 0 <= k < r.len() && r[k] == y;
                if k < rt.len() {
                    assert(rt.contains(y));
                    if t.contains(y) {
                        let m = choose|m: int| 0 <= m < t.len() && t[m] == y;
                        assert(s[m] == y);
                    }
                } else {
                    assert(s[s.len() - 1] == y);
                }
            }
            if s.contains(y) {
                let m = choose|m: int| 0 <= m < s.len() && s[m] == y;
                if m < t.len() {
                    assert(t[m] == y);
                    assert(t.contains(y));
                    assert(rt.contains(y));
                    let k = choose|k: int| 0 <= k < rt.len() && rt[k] == y;
                    assert(r[k] == y);
                } else {
                    assert(r[r.len() - 1] == y);
                }
            }
            if y == x {
                assert(rt.contains(x));
                let k = choose|k: int| 0 <= k < rt.len() && rt[k] == x;
                assert(r[k] == x);
            }
        }
    } else {
        assert(r =~= s.push(x));
        assert forall|y: A| #[trigger] r.contains(y) <==> (s.contains(y) || y == x) by {
            if r.contains(y) {
                let k = choose|k: int| 0 <= k < r.len() && r[k] == y;
                if k < s.len() {
                    assert(s[k] == y);
                }
            }
            if s.contains(y) {
                let m = choose|m: int| 0 <= m < s.len() && s[m] == y;
                assert(r[m] == y);
            }
            if y == x {
                assert(r[s.len() as int] == x);
            }
        }
    }
}

/// Sorting keeps the elements.
pub proof fn lemma_sort_contents<A>(s: Seq<A>, key: spec_fn(A) -> Seq<u8>)
    ensures
        sort_by_key(s, key).len() == s.len(),
        sort_by_key(s, key).to_multiset() == s.to_multiset(),
        forall|y: A| #[trigger] sort_by_key(s, key).contains(y) <==> s.contains(y),
    decreases s.len(),
{
    broadcast use vstd::seq_lib::group_to_multiset_ensures;

    if s.len() > 0 {
        let t = s.drop_last();
        lemma_sort_contents(t, key);
        lemma_insert_sorted_contents(sort_by_key(t, key), s.last(), key);
        assert(s =~= t.push(s.last()));
        assert forall|y: A| #[trigger] sort_by_key(s, key).contains(y) <==> s.contains(y) by {
            if s.contains(y) && y != s.last() {
                let m = choose|m: int| 0 <= m < s.len() && s[m] == y;
                assert(t[m] == y);
                assert(t.contains(y));
            }
            if t.contains(y) {
                let m = choose|m: int| 0 <= m < t.len() && t[m] == y;
                assert(s[m] == y);
            }
            if y == s.last() {
                assert(s[s.len() - 1] == y);
            }
        }
    }
}

/// `insert_sorted` keeps a sorted sequence sorted.
pub proof fn lemma_insert_sorted_sorted<A>(
    s: Seq<A>,
    x: A,
    key: spec_fn(A) -> Seq<u8>,
    n: nat,
)
    requires
        is_sorted_by_key(s, key),
        keys_have_len(s, key, n),
        key(x).len() == n,
    ensures
        is_sorted_by_key(insert_sorted(s, x, key), key),
    decreases s.len(),
{
    let r = insert_sorted(s, x, key);
    if s.len() == 0 {
        assert(r =~= seq![x]);
    } else {
        let t = s.drop_last();
        let l = s.last();
        assert(key(s[s.len() - 1]).len() == n);
        if lex_lt(key(x), key(l)) {
            assert(keys_have_len(t, key, n)) by {
                assert forall|i: int| 0 <= i < t.len() implies (#[trigger] key(t[i])).len()
                    == n by {
                    assert(t[i] == s[i]);
                }
            }
            lemma_insert_sorted_sorted(t, x, key, n);
            lemma_insert_sorted_contents(t, x, key);
            let rt = insert_sorted(t, x, key);
            assert forall|i: int, j: int| 0 <= i < j < r.len() implies !lex_lt(
                key(r[j]),
                key(r[i]),
            ) by {
                if j == r.len() - 1 {
                    assert(r[j] == l);
                    assert(r[i] == rt[i]);
                    assert(rt.contains(rt[i]));
                    if rt[i] == x {
                        lemma_lex_strict_order(key(x), key(l), key(l));
                    } else {
                        assert(t.contains(rt[i]));
                        let m = choose|m: int| 0 <= m < t.len() && t[m] == rt[i];
                        assert(s[m] == rt[i]);
                        assert(!lex_lt(key(s[s.len() - 1]), key(s[m])));
                    }
                } else {
                    assert(r[i] == rt[i] && r[j] == rt[j]);
                }
            }
        } else {
            assert(r =~= s.push(x));
            assert forall|i: int, j: int| 0 <= i < j < r.len() implies !lex_lt(
                key(r[j]),
                key(r[i]),
            ) by {
                if j == r.len() - 1 {
                    assert(r[j] == x);
                    assert(r[i] == s[i]);
                    if i < s.len() - 1 {
                        assert(!lex_lt(key(s[s.len() - 1]), key(s[i])));
                        assert(key(s[i]).len() == n);
                        lemma_lex_total(key(l), key(s[i]));
                        lemma_lex_strict_order(key(x), key(s[i]), key(l));
                    }
                } else {
                    assert(r[i] == s[i] && r[j] == s[j]);
                }
            }
        }
    }
}

/// The sort orders by ascending key.
pub proof fn lemma_sort_sorted<A>(s: Seq<A>, key: spec_fn(A) -> Seq<u8>, n: nat)
    requires
        keys_have_len(s, key, n),
    ensures
        is_sorted_by_key(sort_by_key(s, key), key),
        keys_have_len(sort_by_key(s, key), key, n),
    decreases s.len(),
{
    if s.len() > 0 {
        let t = s.drop_last();
        assert(keys_have_len(t, key, n)) by {
            assert forall|i: int| 0 <= i < t.len() implies (#[trigger] key(t[i])).len() == n by {
                assert(t[i] == s[i]);
            }
        }
        lemma_sort_sorted(t, key, n);
        assert(key(s[s.len() - 1]).len() == n);
        lemma_insert_sorted_sorted(sort_by_key(t, key), s.last(), key, n);
        lemma_sort_contents(s, key);
        let r = sort_by_key(s, key);
        assert forall|i: int| 0 <= i < r.len() implies (#[trigger] key(r[i])).len() == n by {
            assert(r.contains(r[i]));
            let m = choose|m: int| 0 <= m < s.len() && s[m] == r[i];
        }
    }
}

/// No two elements of `s` share a key.
pub open spec fn distinct_keys<A>(s: Seq<A>, key: spec_fn(A) -> Seq<u8>) -> bool {
    forall|i: int, j: int| 0 <= i < s.len() && 0 <= j < s.len() && i != j ==> key(s[i]) != key(s[j])
}

/// Inserting an element with a fresh key keeps keys distinct.
pub proof fn lemma_insert_sorted_distinct<A>(s: Seq<A>, x: A, key: spec_fn(A) -> Seq<u8>)
    requires
        distinct_keys(s, key),
        forall|i: int| 0 <= i < s.len() ==> key(#[trigger] s[i]) != key(x),
    ensures
        distinct_keys(insert_sorted(s, x, key), key),
    decreases s.len(),
{
    let r = insert_sorted(s, x, key);
    if s.len() == 0 {
        assert(r =~= seq![x]);
    } else if lex_lt(key(x), key(s.last())) {
        let t = s.drop_last();
        assert forall|i: int| 0 <= i < t.len() implies key(#[trigger] t[i]) != key(x) by {
            assert(t[i] == s[i]);
        }
        lemma_insert_sorted_distinct(t, x, key);
        lemma_insert_sorted_contents(t, x, key);
        let rt = insert_sorted(t, x, key);
        assert forall|i: int, j: int|
            0 <= i < r.len() && 0 <= j < r.len() && i != j implies key(r[i]) != key(r[j]) by {
            if i == r.len() - 1 || j == r.len() - 1 {
                let k = if i == r.len() - 1 {
                    j
                } else {
                    i
                };
                assert(r[k] == rt[k]);
                assert(rt.contains(rt[k]));
                if rt[k] != x {
                    let m = choose|m: int| 0 <= m < t.len() && t[m] == rt[k];
                    assert(s[m] == rt[k]);
                    assert(key(s[m]) != key(s[s.len() - 1]));
                }
            } else {
                assert(r[i] == rt[i] && r[j] == rt[j]);
            }
        }
    } else {
        assert(r =~= s.push(x));
    }
}

/// Sorting keeps keys distinct.
pub proof fn lemma_sort_distinct<A>(s: Seq<A>, key: spec_fn(A) -> Seq<u8>)
    requires
        distinct_keys(s, key),
    ensures
        distinct_keys(sort_by_key(s, key), key),
    decreases s.len(),
{
    if s.len() > 0 {
        let t = s.drop_last();
        assert(distinct_keys(t, key)) by {
            assert forall|i: int, j: int|
                0 <= i < t.len() && 0 <= j < t.len() && i != j implies key(t[i]) != key(t[j]) by {
                assert(t[i] == s[i] && t[j] == s[j]);
            }
        }
        lemma_sort_distinct(t, key);
        lemma_sort_contents(t, key);
        let st = sort_by_key(t, key);
        assert forall|i: int| 0 <= i < st.len() implies key(#[trigger] st[i]) != key(s.last()) by {
            assert(st.contains(st[i]));
            let m = choose|m: int| 0 <= m < t.len() && t[m] == st[i];
            assert(s[m] == st[i]);
        }
        lemma_insert_sorted_distinct(st, s.last(), key);
    }
}

/// Sorting commutes with a map that carries each element's key over.
pub proof fn lemma_sort_map<A, B>(
    s: Seq<A>,
    ka: spec_fn(A) -> Seq<u8>,
    f: spec_fn(A) -> B,
    kb: spec_fn(B) -> Seq<u8>,
)
    requires
        forall|i: int| 0 <= i < s.len() ==> kb(f(#[trigger] s[i])) == ka(s[i]),
    ensures
        sort_by_key(s, ka).map_values(f) == sort_by_key(s.map_values(f), kb),
    decreases s.len(),
{
    if s.len() == 0 {
        assert(s.map_values(f) =~= Seq::<B>::empty());
        assert(sort_by_key(s, ka).map_values(f) =~= Seq::<B>::empty());
    } else {
        let t = s.drop_last();
        assert forall|i: int| 0 <= i < t.len() implies kb(f(#[trigger] t[i])) == ka(t[i]) by {
            assert(t[i] == s[i]);
        }
        lemma_sort_map(t, ka, f, kb);
        assert(s.map_values(f).drop_last() =~= t.map_values(f));
        lemma_sort_contents(t, ka);
        let st = sort_by_key(t, ka);
        assert forall|i: int| 0 <= i < st.len() implies kb(f(#[trigger] st[i])) == ka(st[i]) by {
            assert(st.contains(st[i]));
            let m = choose|m: int| 0 <= m < t.len() && t[m] == st[i];
        }
        assert(kb(f(s[s.len() - 1])) == ka(s[s.len() - 1]));
        lemma_insert_map(st, s.last(), ka, f, kb);
    }
}

proof fn lemma_insert_map<A, B>(
    s: Seq<A>,
    x: A,
    ka: spec_fn(A) -> Seq<u8>,
    f: spec_fn(A) -> B,
    kb: spec_fn(B) -> Seq<u8>,
)
    requires
        forall|i: int| 0 <= i < s.len() ==> kb(f(#[trigger] s[i])) == ka(s[i]),
        kb(f(x)) == ka(x),
    ensures
        insert_sorted(s, x, ka).map_values(f) == insert_sorted(s.map_values(f), f(x), kb),
    decreases s.len(),
{
    let m = s.map_values(f);
    if s.len() == 0 {
        assert(insert_sorted(s, x, ka).map_values(f) =~= seq![f(x)]);
    } else {
        assert(m.last() == f(s.last()));
        assert(kb(f(s[s.len() - 1])) == ka(s[s.len() - 1]));
        if lex_lt(ka(x), ka(s.last())) {
            let t = s.drop_last();
            assert forall|i: int| 0 <= i < t.len() implies kb(f(#[trigger] t[i])) == ka(t[i]) by {
                assert(t[i] == s[i]);
            }
            lemma_insert_map(t, x, ka, f, kb);
            assert(m.drop_last() =~= t.map_values(f));
            assert(insert_sorted(s, x, ka).map_values(f) =~= insert_sorted(
                t,
                x,
                ka,
            ).map_values(f).push(f(s.last())));
        } else {
            assert(insert_sorted(s, x, ka).map_values(f) =~= m.push(f(x)));
        }
    }
}

} // verus!
