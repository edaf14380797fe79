//! Counting and xor-folding the members of `0..n` that satisfy a predicate.
//! A slot of the filter's construction holds exactly these two summaries of
//! the keys that hash to it.
use vstd::prelude::*;

verus! {

/// The number of `t` in `0..n` with `p(t)`.
pub open spec fn count_where(p: spec_fn(int) -> bool, n: int) -> nat
    decreases n,
{
    if n <= 0 {
        0
    } else {
        count_where(p, n - 1) + if p(n - 1) { 1nat } else { 0nat }
    }
}

/// The xor of `v(t)` over the `t` in `0..n` with `p(t)`.
pub open spec fn xor_where(p: spec_fn(int) -> bool, v: spec_fn(int) -> u64, n: int) -> u64
    decreases n,
{
    if n <= 0 {
        0
    } else if p(n - 1) {
        xor_where(p, v, n - 1) ^ v(n - 1)
    } else {
        xor_where(p, v, n - 1)
    }
}

pub proof fn lemma_xor_zero_left(x: u64)
    ensures
        0u64 ^ x == x,
{
    assert(0u64 ^ x == x) by (bit_vector);
}

pub proof fn lemma_xor_swap(a: u64, x: u64, y: u64)
    ensures
        (a ^ x) ^ y == (a ^ y) ^ x,
{
    assert((a ^ x) ^ y == (a ^ y) ^ x) by (bit_vector);
}

pub proof fn lemma_xor_cancel(a: u64, x: u64)
    ensures
        (a ^ x) ^ x == a,
{
    assert((a ^ x) ^ x == a) by (bit_vector);
}

/// The count never exceeds the size of the range.
pub proof fn lemma_count_bound(p: spec_fn(int) -> bool, n: int)
    ensures
        count_where(p, n) <= if n < 0 { 0 } else { n },
    decreases n,
{
    if n > 0 {
        lemma_count_bound(p, n - 1);
    }
}

/// The count grows with the range.
pub proof fn lemma_count_mono(p: spec_fn(int) -> bool, m: int, n: int)
    requires
        m <= n,
    ensures
        count_where(p, m) <= count_where(p, n),
    decreases n - m,
{
    if m < n {
        lemma_count_mono(p, m, n - 1);
    }
}

/// When every `t` in the range is a member, the count is the range's size.
pub proof fn lemma_count_all(p: spec_fn(int) -> bool, n: int)
    requires
        n >= 0,
        forall|t: int| 0 <= t < n ==> #[trigger] p(t),
    ensures
        count_where(p, n) == n,
    decreases n,
{
    if n > 0 {
        lemma_count_all(p, n - 1);
    }
}

/// Predicates that agree on the range have the same count and xor.
pub proof fn lemma_agree(p: spec_fn(int) -> bool, q: spec_fn(int) -> bool, v: spec_fn(int) -> u64, n: int)
    requires
        forall|t: int| 0 <= t < n ==> #[trigger] p(t) == q(t),
    ensures
        count_where(p, n) == count_where(q, n),
        xor_where(p, v, n) == xor_where(q, v, n),
    decreases n,
{
    if n > 0 {
        lemma_agree(p, q, v, n - 1);
    }
}

/// Dropping one member `t0` lowers the count by one and xors `v(t0)` out.
pub proof fn lemma_drop_one(
    p: spec_fn(int) -> bool,
    q: spec_fn(int) -> bool,
    v: spec_fn(int) -> u64,
    n: int,
    t0: int,
)
    requires
        0 <= t0 < n,
        p(t0),
        !q(t0),
        forall|t: int| 0 <= t < n && t != t0 ==> #[trigger] p(t) == q(t),
    ensures
        count_where(p, n) == count_where(q, n) + 1,
        xor_where(p, v, n) == xor_where(q, v, n) ^ v(t0),
    decreases n,
{
    if n - 1 == t0 {
        lemma_agree(p, q, v, n - 1);
    } else {
        lemma_drop_one(p, q, v, n - 1, t0);
        if p(n - 1) {
            lemma_xor_swap(xor_where(q, v, n - 1), v(t0), v(n - 1));
        }
    }
}

/// An empty count means no member and a zero xor.
pub proof fn lemma_count_zero(p: spec_fn(int) -> bool, v: spec_fn(int) -> u64, n: int)
    requires
        count_where(p, n) == 0,
    ensures
        xor_where(p, v, n) == 0,
        forall|t: int| 0 <= t < n ==> !#[trigger] p(t),
    decreases n,
{
    if n > 0 {
        lemma_count_zero(p, v, n - 1);
    }
}

/// A positive count has a member.
pub proof fn lemma_count_positive(p: spec_fn(int) -> bool, n: int) -> (t: int)
    requires
        count_where(p, n) > 0,
    ensures
        0 <= t < n,
        p(t),
    decreases n,
{
    if p(n - 1) {
        n - 1
    } else {
        lemma_count_positive(p, n - 1)
    }
}

/// A member `t` counts one on top of the members before it.
pub proof fn lemma_member_counts(p: spec_fn(int) -> bool, n: int, t: int)
    requires
        0 <= t < n,
        p(t),
    ensures
        count_where(p, n) >= count_where(p, t) + 1,
{
    lemma_count_mono(p, t + 1, n);
}

/// Two distinct members make a count of at least two.
pub proof fn lemma_two_members(p: spec_fn(int) -> bool, n: int, t1: int, t2: int)
    requires
        0 <= t1 < n,
        0 <= t2 < n,
        t1 != t2,
        p(t1),
        p(t2),
    ensures
        count_where(p, n) >= 2,
{
    let (a, b) = if t1 < t2 { (t1, t2) } else { (t2, t1) };
    lemma_member_counts(p, n, b);
    lemma_member_counts(p, b, a);
}

/// A count of one names its only member, whose value is the xor.
pub proof fn lemma_count_one(p: spec_fn(int) -> bool, v: spec_fn(int) -> u64, n: int) -> (t: int)
    requires
        count_where(p, n) == 1,
    ensures
        0 <= t < n,
        p(t),
        xor_where(p, v, n) == v(t),
        forall|s: int| 0 <= s < n && s != t ==> !#[trigger] p(s),
    decreases n,
{
    if p(n - 1) {
        lemma_count_zero(p, v, n - 1);
        lemma_xor_zero_left(v(n - 1));
        n - 1
    } else {
        lemma_count_one(p, v, n - 1)
    }
}

} // verus!
