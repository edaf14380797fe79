//! The key list of a filter: its hashes, and their deduplication.
use vstd::prelude::*;

verus! {

/// `s` is in strictly ascending order (so holds no value twice).
pub open spec fn strictly_increasing(s: Seq<u64>) -> bool {
    forall|i: int, j: int| 0 <= i < j < s.len() ==> s[i] < s[j]
}

/// `s` is in ascending order.
pub open spec fn ascending(s: Seq<u64>) -> bool {
    forall|i: int, j: int| 0 <= i <= j < s.len() ==> s[i] <= s[j]
}

/// `a` and `b` hold the same values, whatever their order and multiplicity.
pub open spec fn same_values(a: Seq<u64>, b: Seq<u64>) -> bool {
    forall|x: u64| a.contains(x) <==> b.contains(x)
}

/// The distinct values of `s`, in ascending order.
pub open spec fn distinct_sorted(s: Seq<u64>) -> Seq<u64> {
    choose|r: Seq<u64>| strictly_increasing(r) && same_values(r, s)
}

/// `s` with every occurrence of `m` removed.
pub open spec fn without(s: Seq<u64>, m: u64) -> Seq<u64>
    decreases s.len(),
{
    if s.len() == 0 {
        s
    } else if s.last() == m {
        without(s.drop_last(), m)
    } else {
        without(s.drop_last(), m).push(s.last())
    }
}

/// The largest value of a non-empty sequence.
pub open spec fn seq_max(s: Seq<u64>) -> u64
    decreases s.len(),
{
    if s.len() <= 1 {
        s[0]
    } else if s.last() > seq_max(s.drop_last()) {
        s.last()
    } else {
        seq_max(s.drop_last())
    }
}

proof fn lemma_without(s: Seq<u64>, m: u64)
    ensures
        without(s, m).len() <= s.len(),
        s.contains(m) ==> without(s, m).len() < s.len(),
        forall|x: u64| without(s, m).contains(x) <==> (s.contains(x) && x != m),
    decreases s.len(),
{
    if s.len() > 0 {
        let d = s.drop_last();
        lemma_without(d, m);
        assert forall|x: u64| s.contains(x) <==> (d.contains(x) || x == s.last()) by {
            if s.contains(x) && x != s.last() {
                let k = choose|k: int| 0 <= k < s.len() && #[trigger] s[k] == x;
                assert(d[k] == x);
            }
            if d.contains(x) {
                let k = choose|k: int| 0 <= k < d.len() && #[trigger] d[k] == x;
                assert(s[k] == x);
            }
            if x == s.last() {
                assert(s[s.len() - 1] == x);
            }
        }
        let w = without(d, m);
        if s.last() != m {
            assert forall|x: u64| w.push(s.last()).contains(x) <==> (w.contains(x) || x == s.last()) by {
                if w.push(s.last()).contains(x) && x != s.last() {
                    let k = choose|k: int| 0 <= k < w.len() + 1 && #[trigger] w.push(s.last())[k] == x;
                    assert(w[k] == x);
                }
                if w.contains(x) {
                    let k = choose|k: int| 0 <= k < w.len() && #[trigger] w[k] == x;
                    assert(w.push(s.last())[k] == x);
                }
                if x == s.last() {
                    assert(w.push(s.last())[w.len() as int] == x);
                }
            }
        }
    }
}

proof fn lemma_seq_max(s: Seq<u64>)
    requires
        s.len() > 0,
    ensures
        s.contains(seq_max(s)),
        forall|i: int| 0 <= i < s.len() ==> #[trigger] s[i] <= seq_max(s),
    decreases s.len(),
{
    if s.len() > 1 {
        let d = s.drop_last();
        lemma_seq_max(d);
        let k = choose|k: int| 0 <= k < d.len() && #[trigger] d[k] == seq_max(d);
        assert(s[k] == d[k]);
        assert forall|i: int| 0 <= i < s.len() implies #[trigger] s[i] <= seq_max(s) by {
            if i < s.len() - 1 {
                assert(s[i] == d[i]);
            }
        }
        if s.last() > seq_max(d) {
            assert(s[s.len() - 1] == seq_max(s));
        }
    } else {
        assert(s[0] == seq_max(s));
    }
}

/// Every sequence has its distinct values in ascending order.
pub proof fn lemma_distinct_sorted(s: Seq<u64>)
    ensures
        strictly_increasing(distinct_sorted(s)),
        same_values(distinct_sorted(s), s),
    decreases s.len(),
{
    if s.len() == 0 {
        let r = Seq::<u64>::empty();
        assert(strictly_increasing(r) && same_values(r, s));
    } else {
        let m = seq_max(s);
        lemma_seq_max(s);
        lemma_without(s, m);
        let w = without(s, m);
        lemma_distinct_sorted(w);
        let r2 = distinct_sorted(w);
        let r = r2.push(m);
        assert forall|i: int, j: int| 0 <= i < j < r.len() implies r[i] < r[j] by {
            if j == r.len() - 1 {
                assert(r2.contains(r2[i]));
                assert(w.contains(r2[i]));
                assert(s.contains(r2[i]) && r2[i] != m);
                let k = choose|k: int| 0 <= k < s.len() && #[trigger] s[k] == r2[i];
                assert(s[k] <= m);
                assert(r[j] == m);
                assert(r[i] == r2[i]);
            } else {
                assert(r[i] == r2[i] && r[j] == r2[j]);
            }
        }
        assert forall|x: u64| r.contains(x) <==> s.contains(x) by {
            if r.contains(x) && x != m {
                let k = choose|k: int| 0 <= k < r.len() && #[trigger] r[k] == x;
                assert(r2[k] == x);
                assert(r2.contains(x));
            }
            if s.contains(x) && x != m {
                assert(w.contains(x));
                let k = choose|k: int| 0 <= k < r2.len() && #[trigger] r2[k] == x;
                assert(r[k] == x);
            }
            if x == m {
                assert(r[r.len() - 1] == x);
            }
        }
        assert(strictly_increasing(r) && same_values(r, s));
    }
}

/// Two strictly ascending sequences with the same values are equal.
pub proof fn lemma_strictly_increasing_unique(a: Seq<u64>, b: Seq<u64>)
    requires
        strictly_increasing(a),
        strictly_increasing(b),
        same_values(a, b),
    ensures
        a == b,
    decreases a.len(),
{
    if a.len() == 0 {
        if b.len() > 0 {
            assert(b.contains(b[0]));
        }
        assert(a =~= b);
    } else if b.len() == 0 {
        assert(a.contains(a[0]));
    } else {
        assert(a.contains(a[0]));
        assert(b.contains(b[0]));
        let ka = choose|k: int| 0 <= k < b.len() && b[k] == a[0];
        let kb = choose|k: int| 0 <= k < a.len() && a[k] == b[0];
        assert(a[0] == b[0]) by {
            if ka > 0 {
                assert(b[0] < b[ka]);
            }
            if kb > 0 {
                assert(a[0] < a[kb]);
            }
        }
        let a1 = a.drop_first();
        let b1 = b.drop_first();
        assert forall|x: u64| a1.contains(x) implies b1.contains(x) by {
            let k = choose|k: int| 0 <= k < a1.len() && #[trigger] a1[k] == x;
            assert(a[k + 1] == x);
            assert(a.contains(x));
            let m = choose|m: int| 0 <= m < b.len() && #[trigger] b[m] == x;
            assert(a[0] < a[k + 1]);
            assert(m != 0);
            assert(b1[m - 1] == x);
        }
        assert forall|x: u64| b1.contains(x) implies a1.contains(x) by {
            let k = choose|k: int| 0 <= k < b1.len() && #[trigger] b1[k] == x;
            assert(b[k + 1] == x);
            assert(b.contains(x));
            let m = choose|m: int| 0 <= m < a.len() && #[trigger] a[m] == x;
            assert(b[0] < b[k + 1]);
            assert(m != 0);
            assert(a1[m - 1] == x);
        }
        lemma_strictly_increasing_unique(a1, b1);
        assert(a =~= seq![a[0]] + a1);
        assert(b =~= seq![b[0]] + b1);
    }
}

/// Merges two ascending key lists into one ascending list holding the keys
/// of both.
fn merge(a: &Vec<u64>, b: &Vec<u64>) -> (r: Vec<u64>)
    requires
        ascending(a@),
        ascending(b@),
    ensures
        ascending(r@),
        r@.to_multiset() == a@.to_multiset().add(b@.to_multiset()),
{
    let mut r: Vec<u64> = Vec::new();
    let mut i: usize = 0;
    let mut j: usize = 0;
    proof {
        assert(a@.take(0) =~= Seq::<u64>::empty());
        assert(b@.take(0) =~= Seq::<u64>::empty());
        a@.take(0).to_multiset_ensures();
        b@.take(0).to_multiset_ensures();
        r@.to_multiset_ensures();
        assert(r@.to_multiset() =~= a@.take(0).to_multiset().add(b@.take(0).to_multiset()));
    }
    while i < a.len() || j < b.len()
        invariant
            ascending(a@),
            ascending(b@),
            i <= a.len(),
            j <= b.len(),
            r.len() == i + j,
            ascending(r@),
            r@.to_multiset() == a@.take(i as int).to_multiset().add(b@.take(j as int).to_multiset()),
            r.len() > 0 && i < a.len() ==> r@.last() <= a@[i as int],
            r.len() > 0 && j < b.len() ==> r@.last() <= b@[j as int],
        decreases a.len() + b.len() - i - j,
    {
        let ghost before = r@;
        let take_a = j >= b.len() || (i < a.len() && a[i] <= b[j]);
        let x = if take_a { a[i] } else { b[j] };
        r.push(x);
        proof {
            before.to_multiset_ensures();
            assert(r@ == before.push(x));
            if take_a {
                assert(a@.take(i + 1) =~= a@.take(i as int).push(x));
                a@.take(i as int).to_multiset_ensures();
                assert(r@.to_multiset() =~= a@.take(i + 1).to_multiset().add(b@.take(j as int).to_multiset()));
            } else {
                assert(b@.take(j + 1) =~= b@.take(j as int).push(x));
                b@.take(j as int).to_multiset_ensures();
                assert(r@.to_multiset() =~= a@.take(i as int).to_multiset().add(b@.take(j + 1).to_multiset()));
            }
            assert forall|p: int, q: int| 0 <= p <= q < r.len() implies r@[p] <= r@[q] by {
                if q == r.len() - 1 && p < q {
                    assert(before[p] <= before.last());
                }
            }
        }
        if take_a {
            i = i + 1;
        } else {
            j = j + 1;
        }
    }
    proof {
        assert(a@.take(a.len() as int) =~= a@);
        assert(b@.take(b.len() as int) =~= b@);
    }
    r
}

/// Sorts keys by merging sorted halves: the result is ascending and holds
/// the same keys.
fn merge_sort(v: Vec<u64>) -> (r: Vec<u64>)
    ensures
        ascending(r@),
        r@.to_multiset() == v@.to_multiset(),
    decreases v.len(),
{
    if v.len() <= 1 {
        return v;
    }
    let ghost whole = v@;
    let mid = v.len() / 2;
    let mut left = v;
    let right = left.split_off(mid);
    proof {
        assert(whole =~= left@ + right@);
        vstd::seq_lib::lemma_multiset_commutative(left@, right@);
    }
    let sorted_left = merge_sort(left);
    let sorted_right = merge_sort(right);
    merge(&sorted_left, &sorted_right)
}

/// Sorts the keys in place: afterwards they are in ascending order, and they
/// are the same keys.
fn sort_keys(keys: &mut Vec<u64>)
    ensures
        final(keys)@.to_multiset() == old(keys)@.to_multiset(),
        ascending(final(keys)@),
{
    let mut taken: Vec<u64> = Vec::new();
    std::mem::swap(&mut taken, keys);
    *keys = merge_sort(taken);
}

/// Sorts the keys and removes repeated values: the result holds each value
/// of `array` once, in ascending order.
pub fn prune_duplicates(array: Vec<u64>) -> (r: Vec<u64>)
    ensures
        strictly_increasing(r@),
        same_values(r@, array@),
        r@ == distinct_sorted(array@),
        r.len() <= array.len(),
{
    let mut array = array;
    let ghost input = array@;
    sort_keys(&mut array);
    let ghost srt = array@;
    proof {
        assert forall|x: u64| srt.contains(x) <==> input.contains(x) by {
            srt.to_multiset_ensures();
            input.to_multiset_ensures();
            assert(srt.contains(x) <==> srt.to_multiset().count(x) > 0);
            assert(input.contains(x) <==> input.to_multiset().count(x) > 0);
        }
    }
    proof {
        srt.to_multiset_ensures();
        input.to_multiset_ensures();
    }
    let n = array.len();
    if n == 0 {
        proof {
            assert(same_values(array@, input));
            assert(strictly_increasing(array@) && same_values(array@, input));
            lemma_strictly_increasing_unique(array@, distinct_sorted(input));
        }
        return array;
    }
    let mut pos: usize = 0;
    let mut i: usize = 1;
    proof {
        assert(array@.subrange(0, 1) =~= seq![srt[0]]);
        assert(srt.subrange(0, 1) =~= seq![srt[0]]);
    }
    while i < n
        invariant
            n == srt.len(),
            array.len() == n,
            ascending(srt),
            1 <= i <= n,
            pos < i,
            forall|k: int| i <= k < n ==> array[k] == srt[k],
            strictly_increasing(array@.subrange(0, pos + 1)),
            array[pos as int] == srt[i - 1],
            same_values(array@.subrange(0, pos + 1), srt.subrange(0, i as int)),
        decreases n - i,
    {
        let ghost before = array@;
        if array[i] != array[pos] {
            pos = pos + 1;
            let v = array[i];
            array.set(pos, v);
            proof {
                assert(srt[i as int] > srt[i - 1]);
                assert(array@.subrange(0, pos + 1) =~= before.subrange(0, pos as int).push(v));
                assert(srt.subrange(0, i + 1) =~= srt.subrange(0, i as int).push(v));
                assert(before.subrange(0, pos as int) == array@.subrange(0, pos as int));
                let ghost na0 = array@.subrange(0, pos + 1);
                assert forall|a: int, b: int| 0 <= a < b < na0.len() implies
                    #[trigger] na0[a] < #[trigger] na0[b] by {
                    if b < pos {
                        assert(before.subrange(0, pos as int)[a] < before.subrange(0, pos as int)[b]);
                    }
                    if b == pos && a + 1 < pos {
                        assert(before.subrange(0, pos as int)[a] < before.subrange(0, pos as int)[pos - 1]);
                    }
                }
                let ghost na = array@.subrange(0, pos + 1);
                let ghost ns = srt.subrange(0, i + 1);
                assert forall|x: u64| na.contains(x) <==> ns.contains(x) by {
                    if array@.subrange(0, pos + 1).contains(x) && x != v {
                        assert(before.subrange(0, pos as int).contains(x));
                        assert(srt.subrange(0, i as int).contains(x));
                        let m = choose|m: int| 0 <= m < i && #[trigger] srt.subrange(0, i as int)[m] == x;
                        assert(srt.subrange(0, i + 1)[m] == x);
                    }
                    if srt.subrange(0, i + 1).contains(x) && x != v {
                        let m = choose|m: int| 0 <= m < i + 1 && #[trigger] srt.subrange(0, i + 1)[m] == x;
                        assert(srt.subrange(0, i as int)[m] == x);
                        assert(before.subrange(0, pos as int).contains(x));
                        let k = choose|k: int| 0 <= k < pos && #[trigger] before.subrange(0, pos as int)[k] == x;
                        assert(array@.subrange(0, pos + 1)[k] == x);
                    }
                    if x == v {
                        assert(array@.subrange(0, pos + 1)[pos as int] == x);
                        assert(srt.subrange(0, i + 1)[i as int] == x);
                    }
                }
            }
        } else {
            proof {
                assert(srt.subrange(0, i + 1) =~= srt.subrange(0, i as int).push(srt[i as int]));
                let ghost na = array@.subrange(0, pos + 1);
                let ghost ns = srt.subrange(0, i + 1);
                assert forall|x: u64| na.contains(x) <==> ns.contains(x) by {
                    if srt.subrange(0, i + 1).contains(x) && x == srt[i as int] {
                        assert(array@.subrange(0, pos + 1)[pos as int] == x);
                    }
                    if srt.subrange(0, i + 1).contains(x) && x != srt[i as int] {
                        let m = choose|m: int| 0 <= m < i + 1 && #[trigger] srt.subrange(0, i + 1)[m] == x;
                        assert(srt.subrange(0, i as int)[m] == x);
                    }
                    if array@.subrange(0, pos + 1).contains(x) {
                        assert(srt.subrange(0, i as int).contains(x));
                        let m = choose|m: int| 0 <= m < i && #[trigger] srt.subrange(0, i as int)[m] == x;
                        assert(srt.subrange(0, i + 1)[m] == x);
                    }
                }
            }
        }
        i = i + 1;
    }
    array.truncate(pos + 1);
    proof {
        assert(srt.subrange(0, n as int) =~= srt);
        assert(same_values(array@, input));
        assert(strictly_increasing(array@) && same_values(array@, input));
        lemma_strictly_increasing_unique(array@, distinct_sorted(input));
    }
    array
}

} // verus!
