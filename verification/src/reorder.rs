//! The order of the entries does not matter to what `populate` decides.
use vstd::prelude::*;
use crate::keys::{distinct_sorted, lemma_distinct_sorted, lemma_strictly_increasing_unique};
use crate::xor::{
    attempt_hashes, attempt_keys, attempt_succeeds, built_from, entries_block_length, entry_keys,
    is_peeling_order, peelable, slot, MAX_ITERATIONS,
};
use crate::hashing::splitmix_seed;

verus! {

/// `sigma` maps the places of `a` to those of `b` holding the same value,
/// and `tau` is its inverse.
pub open spec fn is_matching<A>(a: Seq<A>, b: Seq<A>, sigma: Seq<int>, tau: Seq<int>) -> bool {
    &&& a.len() == b.len()
    &&& sigma.len() == a.len()
    &&& tau.len() == b.len()
    &&& forall|i: int| 0 <= i < a.len() ==> {
        &&& 0 <= #[trigger] sigma[i] < b.len()
        &&& a[i] == b[sigma[i]]
        &&& tau[sigma[i]] == i
    }
    &&& forall|k: int| 0 <= k < b.len() ==> {
        &&& 0 <= #[trigger] tau[k] < a.len()
        &&& sigma[tau[k]] == k
    }
}

/// Two sequences with the same multiset of values are matched place by place.
pub proof fn lemma_matching<A>(a: Seq<A>, b: Seq<A>) -> (r: (Seq<int>, Seq<int>))
    requires
        a.to_multiset() == b.to_multiset(),
    ensures
        is_matching(a, b, r.0, r.1),
    decreases a.len(),
{
    a.to_multiset_ensures();
    b.to_multiset_ensures();
    if a.len() == 0 {
        (seq![], seq![])
    } else {
        let n = a.len() as int;
        let x = a.last();
        assert(a.contains(x)) by {
            assert(a[n - 1] == x);
        }
        assert(a.to_multiset().count(x) > 0);
        assert(b.contains(x));
        let k = choose|k: int| 0 <= k < b.len() && b[k] == x;
        let a1 = a.drop_last();
        let b1 = b.remove(k);
        assert(a1 =~= a.remove(n - 1));
        assert(a1.to_multiset() =~= a.to_multiset().remove(x));
        assert(b1.to_multiset() =~= b.to_multiset().remove(x));
        let (s1, t1) = lemma_matching(a1, b1);
        let up = |j: int| if j < k { j } else { j + 1 };
        let down = |j: int| if j < k { j } else { j - 1 };
        let sigma = Seq::new(n as nat, |i: int| if i == n - 1 { k } else { up(s1[i]) });
        let tau = Seq::new(n as nat, |j: int| if j == k { n - 1 } else { t1[down(j)] });
        assert forall|i: int| 0 <= i < n implies {
            &&& 0 <= #[trigger] sigma[i] < n
            &&& a[i] == b[sigma[i]]
            &&& tau[sigma[i]] == i
        } by {
            if i < n - 1 {
                assert(a1[i] == b1[s1[i]]);
                assert(a[i] == a1[i]);
            }
        }
        assert forall|j: int| 0 <= j < n implies {
            &&& 0 <= #[trigger] tau[j] < n
            &&& sigma[tau[j]] == j
        } by {
            if j != k {
                let d = down(j);
                assert(0 <= d < n - 1);
                assert(s1[t1[d]] == d);
            }
        }
        (sigma, tau)
    }
}

/// Reindexing the keys by a matching keeps them peelable.
pub proof fn lemma_peelable_reindex(hs: Seq<u64>, hs2: Seq<u64>, bl: u32, sigma: Seq<int>, tau: Seq<int>)
    requires
        peelable(hs, bl),
        hs2.len() == hs.len(),
        sigma.len() == hs.len(),
        tau.len() == hs.len(),
        forall|i: int| 0 <= i < hs.len() ==> 0 <= #[trigger] sigma[i] < hs.len() && hs2[i] == hs[sigma[i]],
        forall|k: int| 0 <= k < hs.len() ==> 0 <= #[trigger] tau[k] < hs.len() && sigma[tau[k]] == k && tau[sigma[k]] == k,
    ensures
        peelable(hs2, bl),
{
    let (order, blocks) = choose|order: Seq<int>, blocks: Seq<int>| is_peeling_order(hs, bl, order, blocks);
    let order2 = order.map_values(|t: int| tau[t]);
    assert forall|p: int| 0 <= p < order2.len() implies #[trigger] hs2[order2[p]] == hs[order[p]] by {
        assert(0 <= order[p] < hs.len());
        assert(sigma[tau[order[p]]] == order[p]);
    }
    assert forall|t: int| 0 <= t < hs2.len() implies #[trigger] order2.contains(t) by {
        assert(0 <= tau[t] < hs.len() && tau[sigma[t]] == t);
        assert(order.contains(sigma[t]));
        let q = choose|q: int| 0 <= q < order.len() && order[q] == sigma[t];
        assert(order2[q] == tau[order[q]]);
        assert(order2[q] == t);
    }
    assert forall|p: int, q: int| 0 <= p < q < order2.len() implies
        slot(hs2[#[trigger] order2[q]], bl, blocks[p]) != slot(hs2[#[trigger] order2[p]], bl, blocks[p]) by {
        assert(hs2[order2[q]] == hs[order[q]]);
        assert(hs2[order2[p]] == hs[order[p]]);
    }
    assert(is_peeling_order(hs2, bl, order2, blocks));
}

/// Reordering the entries changes nothing that `populate` decides: every
/// attempt succeeds or fails alike, and the blocks have the same length.
pub proof fn lemma_reorder_same_attempts(entries: Seq<String>, p: Seq<String>)
    requires
        p.to_multiset() == entries.to_multiset(),
    ensures
        entries_block_length(p) == entries_block_length(entries),
        forall|j: nat| #[trigger] attempt_succeeds(p, j) == attempt_succeeds(entries, j),
{
    let (sigma, tau) = lemma_matching(p, entries);
    let ek = entry_keys(entries);
    let pk = entry_keys(p);
    assert forall|i: int| 0 <= i < pk.len() implies #[trigger] pk[i] == ek[sigma[i]] by {}
    assert forall|x: u64| pk.contains(x) <==> ek.contains(x) by {
        if pk.contains(x) {
            let i = choose|i: int| 0 <= i < pk.len() && pk[i] == x;
            assert(ek[sigma[i]] == x);
        }
        if ek.contains(x) {
            let k = choose|k: int| 0 <= k < ek.len() && ek[k] == x;
            assert(pk[tau[k]] == ek[sigma[tau[k]]]);
        }
    }
    lemma_distinct_sorted(ek);
    lemma_distinct_sorted(pk);
    lemma_strictly_increasing_unique(distinct_sorted(pk), distinct_sorted(ek));
    let bl = entries_block_length(entries);
    assert forall|j: nat| #[trigger] attempt_succeeds(p, j) == attempt_succeeds(entries, j) by {
        if j > 10 {
            assert(attempt_keys(p, j) == attempt_keys(entries, j));
        } else {
            let hs = attempt_hashes(entries, j);
            let hs2 = attempt_hashes(p, j);
            assert forall|i: int| 0 <= i < hs.len() implies 0 <= #[trigger] sigma[i] < hs.len() && hs2[i] == hs[sigma[i]] by {}
            assert forall|k: int| 0 <= k < hs.len() implies 0 <= #[trigger] tau[k] < hs.len() && sigma[tau[k]] == k && tau[sigma[k]] == k by {}
            assert forall|k: int| 0 <= k < hs.len() implies 0 <= #[trigger] tau[k] < hs.len() && hs[k] == hs2[tau[k]] by {
                assert(sigma[tau[k]] == k);
            }
            if attempt_succeeds(entries, j) {
                lemma_peelable_reindex(hs, hs2, bl, sigma, tau);
            }
            if attempt_succeeds(p, j) {
                lemma_peelable_reindex(hs2, hs, bl, tau, sigma);
            }
        }
    }
}

/// Filters built from two orders of the same entries have the same seed and
/// the same block length.
pub proof fn lemma_reorder_same_seed(f1: crate::xor::XorView, f2: crate::xor::XorView, entries: Seq<String>, p: Seq<String>)
    requires
        p.to_multiset() == entries.to_multiset(),
        built_from(f1, entries),
        built_from(f2, p),
    ensures
        f1.seed == f2.seed,
        f1.block_length == f2.block_length,
{
    lemma_reorder_same_attempts(entries, p);
    let j1 = choose|j: nat| {
        &&& 1 <= j <= MAX_ITERATIONS
        &&& f1.seed == splitmix_seed(j)
        &&& f1.fingerprints == crate::xor::attempt_table(entries, j)
        &&& crate::peel::peel_result(crate::peel::initial_view(attempt_hashes(entries, j), f1.block_length), f1.block_length).stack.len()
            == attempt_keys(entries, j).len()
        &&& #[trigger] attempt_succeeds(entries, j)
        &&& forall|k: nat| 1 <= k < j ==> !#[trigger] attempt_succeeds(entries, k)
    };
    let j2 = choose|j: nat| {
        &&& 1 <= j <= MAX_ITERATIONS
        &&& f2.seed == splitmix_seed(j)
        &&& f2.fingerprints == crate::xor::attempt_table(p, j)
        &&& crate::peel::peel_result(crate::peel::initial_view(attempt_hashes(p, j), f2.block_length), f2.block_length).stack.len()
            == attempt_keys(p, j).len()
        &&& #[trigger] attempt_succeeds(p, j)
        &&& forall|k: nat| 1 <= k < j ==> !#[trigger] attempt_succeeds(p, k)
    };
    if j1 < j2 {
        assert(attempt_succeeds(p, j1));
    } else if j2 < j1 {
        assert(attempt_succeeds(entries, j2));
    }
}

} // verus!
