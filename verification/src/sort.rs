//! Stable sorting by string keys, as `slice::sort_by` with a key comparison does.

use vstd::prelude::*;
use crate::text::{chars_le, lemma_seq_le_antisymmetric, lemma_seq_le_reflexive, lemma_seq_le_total, lemma_seq_le_transitive, seq_le, views};

verus! {

/// `perm` lists each of `0..n` exactly once.
pub open spec fn is_permutation(perm: Seq<usize>, n: nat) -> bool {
    &&& perm.len() == n
    &&& forall|i: int| 0 <= i < n ==> #[trigger] perm[i] < n
    &&& forall|i: int, j: int| 0 <= i < j < n ==> perm[i] != perm[j]
    &&& forall|v: usize| v < n ==> #[trigger] appears(perm, v)
}

/// `v` occurs in `perm`.
pub open spec fn appears(perm: Seq<usize>, v: usize) -> bool {
    exists|i: int| 0 <= i < perm.len() && #[trigger] perm[i] == v
}

/// Taking the items in the order `perm` gives non-decreasing keys.
pub open spec fn sorted_by_keys(perm: Seq<usize>, keys: Seq<Seq<char>>) -> bool {
    forall|i: int, j: int|
        0 <= i < j < perm.len() ==> seq_le(
            #[trigger] keys[perm[i] as int],
            #[trigger] keys[perm[j] as int],
        )
}

/// Items with equal keys keep their relative order.
pub open spec fn stable_by_keys(perm: Seq<usize>, keys: Seq<Seq<char>>) -> bool {
    forall|i: int, j: int|
        0 <= i < j < perm.len() && #[trigger] keys[perm[i] as int] == #[trigger] keys[perm[j]
            as int] ==> perm[i] < perm[j]
}

/// The order in which a stable sort by `keys` puts the items.
pub open spec fn is_stable_sort_order(perm: Seq<usize>, keys: Seq<Seq<char>>) -> bool {
    &&& is_permutation(perm, keys.len())
    &&& sorted_by_keys(perm, keys)
    &&& stable_by_keys(perm, keys)
}

/// Inserting index `k` at a position after every key no greater than its
/// own and before every greater key keeps a prefix order stably sorted.
proof fn lemma_insert_keeps_order(p: Seq<usize>, keys: Seq<Seq<char>>, k: int, j: int)
    requires
        0 <= k < keys.len(),
        k < usize::MAX,
        is_permutation(p, k as nat),
        sorted_by_keys(p, keys),
        stable_by_keys(p, keys),
        0 <= j <= p.len(),
        j > 0 ==> seq_le(keys[p[j - 1] as int], keys[k]),
        forall|t: int| j <= t < p.len() ==> !seq_le(#[trigger] keys[p[t] as int], keys[k]),
    ensures
        is_permutation(p.insert(j, k as usize), (k + 1) as nat),
        sorted_by_keys(p.insert(j, k as usize), keys),
        stable_by_keys(p.insert(j, k as usize), keys),
{
    let old_perm = p;
    let kk = k as usize;
    assert(kk as int == k);
    assert forall|t: int| 0 <= t < j implies seq_le(#[trigger] keys[old_perm[t] as int], keys[k]) by {
        if t < j - 1 {
            lemma_seq_le_transitive(keys[old_perm[t] as int], keys[old_perm[j - 1] as int], keys[k]);
        }
    }
    assert forall|t: int| j <= t < old_perm.len() implies seq_le(keys[k], #[trigger] keys[old_perm[t] as int]) by {
        lemma_seq_le_total(keys[k], keys[old_perm[t] as int]);
    }
    assert forall|t: int| j <= t < old_perm.len() implies keys[k] != #[trigger] keys[old_perm[t] as int] by {
        lemma_seq_le_reflexive(keys[k]);
    }
    let q = p.insert(j, kk);
    assert forall|a: int| 0 <= a < k + 1 implies #[trigger] q[a] < k + 1 by {
        if a < j {
            assert(q[a] == old_perm[a]);
        } else if a > j {
            assert(q[a] == old_perm[a - 1]);
        }
    }
    assert forall|a: int, b: int| 0 <= a < b < k + 1 implies q[a] != q[b] by {
        if a < j && b < j {
        } else if a < j && b == j {
        } else if a < j {
            assert(q[b] == old_perm[b - 1]);
        } else if a == j {
            assert(q[b] == old_perm[b - 1]);
        } else {
            assert(q[a] == old_perm[a - 1]);
            assert(q[b] == old_perm[b - 1]);
        }
    }
    assert forall|v: usize| v < k + 1 implies #[trigger] appears(q, v) by {
        if v == kk {
            assert(q[j] == v);
        } else {
            assert(appears(old_perm, v));
            let a0 = choose|a: int| 0 <= a < old_perm.len() && #[trigger] old_perm[a] == v;
            if a0 < j {
                assert(q[a0] == v);
            } else {
                assert(q[a0 + 1] == v);
            }
        }
    }
    assert forall|a: int, b: int| 0 <= a < b < q.len() implies seq_le(
        #[trigger] keys[q[a] as int],
        #[trigger] keys[q[b] as int],
    ) by {
        if a < j && b < j {
        } else if a < j && b == j {
        } else if a < j {
            assert(q[b] == old_perm[b - 1]);
        } else if a == j {
            assert(q[b] == old_perm[b - 1]);
        } else {
            assert(q[a] == old_perm[a - 1]);
            assert(q[b] == old_perm[b - 1]);
        }
    }
    assert forall|a: int, b: int|
        0 <= a < b < q.len() && #[trigger] keys[q[a] as int] == #[trigger] keys[q[b] as int]
        implies q[a] < q[b] by {
        if a < j && b < j {
        } else if a < j && b == j {
        } else if a < j {
            assert(q[b] == old_perm[b - 1]);
        } else if a == j {
            assert(q[b] == old_perm[b - 1]);
        } else {
            assert(q[a] == old_perm[a - 1]);
            assert(q[b] == old_perm[b - 1]);
        }
    }
}

/// Where insertion sort puts index `k`: after the last entry whose key is
/// no greater than `k`'s, scanning from the end.
pub open spec fn insert_pos(p: Seq<usize>, keys: Seq<Seq<char>>, k: int) -> int
    decreases p.len(),
{
    if p.len() == 0 {
        0
    } else if seq_le(keys[p.last() as int], keys[k]) {
        p.len() as int
    } else {
        insert_pos(p.drop_last(), keys, k)
    }
}

proof fn lemma_insert_pos(p: Seq<usize>, keys: Seq<Seq<char>>, k: int)
    ensures
        0 <= insert_pos(p, keys, k) <= p.len(),
        insert_pos(p, keys, k) > 0 ==> seq_le(keys[p[insert_pos(p, keys, k) - 1] as int], keys[k]),
        forall|t: int| insert_pos(p, keys, k) <= t < p.len() ==> !seq_le(#[trigger] keys[p[t] as int], keys[k]),
    decreases p.len(),
{
    if p.len() > 0 && !seq_le(keys[p.last() as int], keys[k]) {
        lemma_insert_pos(p.drop_last(), keys, k);
        assert forall|t: int| insert_pos(p, keys, k) <= t < p.len() implies !seq_le(#[trigger] keys[p[t] as int], keys[k]) by {
            if t < p.len() - 1 {
                assert(p[t] == p.drop_last()[t]);
            }
        }
    }
}

/// Insertion sort of the first `n` indices by their keys.
pub open spec fn sort_prefix(keys: Seq<Seq<char>>, n: nat) -> Seq<usize>
    decreases n,
{
    if n == 0 {
        Seq::empty()
    } else {
        let p = sort_prefix(keys, (n - 1) as nat);
        p.insert(insert_pos(p, keys, n - 1), (n - 1) as usize)
    }
}

proof fn lemma_sort_prefix(keys: Seq<Seq<char>>, n: nat)
    requires
        n <= keys.len(),
        n <= usize::MAX,
    ensures
        is_permutation(sort_prefix(keys, n), n),
        sorted_by_keys(sort_prefix(keys, n), keys),
        stable_by_keys(sort_prefix(keys, n), keys),
    decreases n,
{
    if n > 0 {
        let p = sort_prefix(keys, (n - 1) as nat);
        lemma_sort_prefix(keys, (n - 1) as nat);
        lemma_insert_pos(p, keys, n - 1);
        lemma_insert_keeps_order(p, keys, n - 1, insert_pos(p, keys, n - 1));
    } else {
        let e = Seq::<usize>::empty();
        assert(is_permutation(e, 0));
    }
}

/// Law: every list of keys (that a vector can index) has a stable sort order.
pub proof fn law_stable_sort_exists(keys: Seq<Seq<char>>)
    requires
        keys.len() <= usize::MAX,
    ensures
        is_stable_sort_order(stable_sort_of(keys), keys),
{
    lemma_sort_prefix(keys, keys.len());
    assert(is_stable_sort_order(sort_prefix(keys, keys.len()), keys));
}

/// The positions of the items in stably sorted order (insertion sort).
pub fn stable_sort_order(keys: &Vec<Vec<char>>) -> (perm: Vec<usize>)
    ensures
        is_stable_sort_order(perm@, views(keys@)),
        perm@ == stable_sort_of(views(keys@)),
{
    let ghost ks = views(keys@);
    let n = keys.len();
    let mut perm: Vec<usize> = Vec::new();
    let mut k: usize = 0;
    while k < n
        invariant
            n == keys.len(),
            ks == views(keys@),
            k <= n,
            is_permutation(perm@, k as nat),
            sorted_by_keys(perm@, ks),
            stable_by_keys(perm@, ks),
        decreases n - k,
    {
        let mut j: usize = perm.len();
        while j > 0 && !chars_le(&keys[perm[j - 1]], &keys[k])
            invariant
                n == keys.len(),
                ks == views(keys@),
                k < n,
                j <= perm.len() == k,
                is_permutation(perm@, k as nat),
                forall|t: int| j <= t < perm.len() ==> !seq_le(#[trigger] ks[perm@[t] as int], ks[k as int]),
            decreases j,
        {
            j -= 1;
        }
        proof {
            if j > 0 {
                assert(seq_le(ks[perm@[j - 1] as int], ks[k as int]));
            }
            lemma_insert_keeps_order(perm@, ks, k as int, j as int);
        }
        perm.insert(j, k);
        k += 1;
    }
    proof {
        lemma_is_stable_sort_of(perm@, ks);
    }
    perm
}

/// The stable sort order of `keys` (there is exactly one).
pub open spec fn stable_sort_of(keys: Seq<Seq<char>>) -> Seq<usize> {
    choose|p: Seq<usize>| is_stable_sort_order(p, keys)
}

proof fn lemma_unique_at(p: Seq<usize>, q: Seq<usize>, keys: Seq<Seq<char>>, i: int)
    requires
        is_stable_sort_order(p, keys),
        is_stable_sort_order(q, keys),
        0 <= i < p.len(),
        forall|t: int| 0 <= t < i ==> p[t] == q[t],
    ensures
        p[i] == q[i],
{
    let n = keys.len();
    let x = p[i];
    let y = q[i];
    if x != y {
        assert(x < n);
        assert(y < n);
        assert(appears(q, x));
        assert(appears(p, y));
        let j = choose|a: int| 0 <= a < q.len() && #[trigger] q[a] == x;
        let j2 = choose|a: int| 0 <= a < p.len() && #[trigger] p[a] == y;
        if j < i {
            assert(p[j] == q[j]);
            assert(false);
        }
        if j2 < i {
            assert(p[j2] == q[j2]);
            assert(false);
        }
        assert(j > i);
        assert(j2 > i);
        assert(seq_le(keys[p[i] as int], keys[p[j2] as int]));
        assert(seq_le(keys[q[i] as int], keys[q[j] as int]));
        lemma_seq_le_antisymmetric(keys[x as int], keys[y as int]);
        assert(keys[p[i] as int] == keys[p[j2] as int]);
        assert(keys[q[i] as int] == keys[q[j] as int]);
        assert(false);
    }
}

proof fn lemma_prefix_equal(p: Seq<usize>, q: Seq<usize>, keys: Seq<Seq<char>>, i: int)
    requires
        is_stable_sort_order(p, keys),
        is_stable_sort_order(q, keys),
        0 <= i <= p.len(),
    ensures
        forall|t: int| 0 <= t < i ==> p[t] == q[t],
    decreases i,
{
    if i > 0 {
        lemma_prefix_equal(p, q, keys, i - 1);
        lemma_unique_at(p, q, keys, i - 1);
    }
}

/// Law: a stable sort order is unique, so sorting stably by a key has one result.
pub proof fn law_stable_sort_order_unique(p: Seq<usize>, q: Seq<usize>, keys: Seq<Seq<char>>)
    requires
        is_stable_sort_order(p, keys),
        is_stable_sort_order(q, keys),
    ensures
        p == q,
{
    lemma_prefix_equal(p, q, keys, p.len() as int);
    assert(p =~= q);
}

/// Any stable sort order is the one `stable_sort_of` names.
pub proof fn lemma_is_stable_sort_of(p: Seq<usize>, keys: Seq<Seq<char>>)
    requires
        is_stable_sort_order(p, keys),
    ensures
        p == stable_sort_of(keys),
{
    law_stable_sort_order_unique(p, stable_sort_of(keys), keys);
}

} // verus!
