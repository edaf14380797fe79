//! The integer hash functions the filter is built from.
use vstd::prelude::*;

verus! {

/// The odd constant that drives the splitmix64 generator.
pub const GOLDEN_GAMMA: u64 = 0x9E3779B97F4A7C15;

/// The 64-bit finalizer of MurmurHash3.
pub open spec fn spec_murmur64(h: u64) -> u64 {
    let a = h ^ (h >> 33u64);
    let b = vstd::wrapping::u64_specs::wrapping_mul(a, 0xff51afd7ed558ccdu64);
    let c = b ^ (b >> 33u64);
    let d = vstd::wrapping::u64_specs::wrapping_mul(c, 0xc4ceb9fe1a85ec53u64);
    d ^ (d >> 33u64)
}

/// The xorshift step of the finalizer.
pub open spec fn xorshift33(h: u64) -> u64 {
    h ^ (h >> 33u64)
}

/// The finalizer run backwards: each xorshift undoes itself and each odd
/// multiplier is undone by its inverse modulo 2^64.
pub open spec fn spec_unmurmur64(h: u64) -> u64 {
    let c = vstd::wrapping::u64_specs::wrapping_mul(xorshift33(h), 0x9cb4b2f8129337dbu64);
    let a = vstd::wrapping::u64_specs::wrapping_mul(xorshift33(c), 0x4f74430c22a54005u64);
    xorshift33(a)
}

proof fn lemma_xorshift33_involution(h: u64)
    ensures
        xorshift33(xorshift33(h)) == h,
{
    assert((h ^ (h >> 33u64)) ^ ((h ^ (h >> 33u64)) >> 33u64) == h) by (bit_vector);
}

proof fn lemma_mul_undone(a: u64, c: u64, ci: u64)
    requires
        (c as int * ci as int) % 0x1_0000_0000_0000_0000 == 1,
    ensures
        vstd::wrapping::u64_specs::wrapping_mul(vstd::wrapping::u64_specs::wrapping_mul(a, c), ci) == a,
{
    let m: int = 0x1_0000_0000_0000_0000;
    let x: int = a as int * c as int;
    vstd::arithmetic::div_mod::lemma_mul_mod_noop_left(x, ci as int, m);
    vstd::arithmetic::mul::lemma_mul_is_associative(a as int, c as int, ci as int);
    vstd::arithmetic::div_mod::lemma_mul_mod_noop_right(a as int, c as int * ci as int, m);
    assert(a as int * 1 == a as int);
    vstd::arithmetic::div_mod::lemma_small_mod(a as nat, m as nat);
    assert(vstd::wrapping::u64_specs::wrapping_mul(a, c) as int == x % m);
}

/// The finalizer is a bijection of the 64-bit values: running it backwards
/// gives back its input.
pub proof fn lemma_murmur64_inverse(h: u64)
    ensures
        spec_unmurmur64(spec_murmur64(h)) == h,
{
    let a = xorshift33(h);
    let b = vstd::wrapping::u64_specs::wrapping_mul(a, 0xff51afd7ed558ccdu64);
    let c = xorshift33(b);
    let d = vstd::wrapping::u64_specs::wrapping_mul(c, 0xc4ceb9fe1a85ec53u64);
    assert(spec_murmur64(h) == xorshift33(d));
    lemma_xorshift33_involution(d);
    assert((0xc4ceb9fe1a85ec53u64 as int * 0x9cb4b2f8129337dbu64 as int) % 0x1_0000_0000_0000_0000 == 1);
    lemma_mul_undone(c, 0xc4ceb9fe1a85ec53u64, 0x9cb4b2f8129337dbu64);
    lemma_xorshift33_involution(b);
    assert((0xff51afd7ed558ccdu64 as int * 0x4f74430c22a54005u64 as int) % 0x1_0000_0000_0000_0000 == 1);
    lemma_mul_undone(a, 0xff51afd7ed558ccdu64, 0x4f74430c22a54005u64);
    lemma_xorshift33_involution(h);
}

/// Distinct inputs give distinct outputs of the finalizer.
pub proof fn lemma_murmur64_injective(a: u64, b: u64)
    requires
        a != b,
    ensures
        spec_murmur64(a) != spec_murmur64(b),
{
    lemma_murmur64_inverse(a);
    lemma_murmur64_inverse(b);
}

/// Mixes a 64-bit value with the MurmurHash3 finalizer.
pub fn murmur64(h: u64) -> (r: u64)
    ensures
        r == spec_murmur64(h),
{
    let mut h = h;
    h ^= h >> 33;
    h = h.wrapping_mul(0xff51afd7ed558ccd);
    h ^= h >> 33;
    h = h.wrapping_mul(0xc4ceb9fe1a85ec53);
    h ^= h >> 33;
    h
}

/// The state that follows `state` in the splitmix64 generator.
pub open spec fn splitmix_step(state: u64) -> u64 {
    vstd::wrapping::u64_specs::wrapping_add(state, GOLDEN_GAMMA)
}

/// The output splitmix64 derives from a freshly advanced state.
pub open spec fn splitmix_output(state: u64) -> u64 {
    let a = vstd::wrapping::u64_specs::wrapping_mul(state ^ (state >> 30u64), 0xBF58476D1CE4E5B9u64);
    let b = vstd::wrapping::u64_specs::wrapping_mul(a ^ (a >> 27u64), 0x94D049BB133111EBu64);
    b ^ (b >> 31u64)
}

/// Advances the splitmix64 state in `seed` and returns the next output.
pub fn splitmix64(seed: &mut u64) -> (r: u64)
    ensures
        *final(seed) == splitmix_step(*old(seed)),
        r == splitmix_output(*final(seed)),
{
    *seed = (*seed).wrapping_add(0x9E3779B97F4A7C15);
    let mut z: u64 = *seed;
    z = (z ^ (z >> 30)).wrapping_mul(0xBF58476D1CE4E5B9);
    z = (z ^ (z >> 27)).wrapping_mul(0x94D049BB133111EB);
    z ^ (z >> 31)
}

/// The splitmix64 state after `j` steps from the state 1.
pub open spec fn counter_after(j: nat) -> u64
    decreases j,
{
    if j == 0 {
        1
    } else {
        splitmix_step(counter_after((j - 1) as nat))
    }
}

/// The `j`-th output (counting from 1) of splitmix64 started at state 1.
pub open spec fn splitmix_seed(j: nat) -> u64 {
    splitmix_output(counter_after(j))
}

/// A key mixed with a seed.
pub open spec fn spec_mixsplit(key: u64, seed: u64) -> u64 {
    spec_murmur64(vstd::wrapping::u64_specs::wrapping_add(key, seed))
}

/// Mixes `key` with `seed`: the hash from which all three slots of a key derive.
pub fn mixsplit(key: u64, seed: u64) -> (r: u64)
    ensures
        r == spec_mixsplit(key, seed),
{
    murmur64(key.wrapping_add(seed))
}

/// `n` rotated left by `k` bits, for `k < 64`.
pub open spec fn spec_rotl(n: u64, k: u64) -> u64 {
    if k == 0 {
        n
    } else {
        (n << k) | (n >> (64 - k) as u64)
    }
}

/// Rotates `n` left by `c` bits, taken modulo 64.
pub fn rotl64(n: u64, c: i64) -> (r: u64)
    requires
        c > i64::MIN,
    ensures
        r == spec_rotl(n, (c & 63i64) as u64),
        0 <= c < 64 ==> r == spec_rotl(n, c as u64),
{
    let neg: i64 = -c;
    let left: u64 = (c & 63) as u64;
    let right: u64 = (neg & 63) as u64;
    assert(left < 64 && right < 64 && (left == 0 ==> right == 0) && (left != 0 ==> right == 64 - left))
        by (bit_vector)
        requires
            left == (c & 63i64) as u64,
            right == (neg & 63i64) as u64,
            neg == -c,
            c > i64::MIN,
    ;
    assert(0 <= c < 64 ==> left == c) by (bit_vector)
        requires
            left == (c & 63i64) as u64,
    ;
    let r = (n << left) | (n >> right);
    assert(left == 0 ==> r == n) by (bit_vector)
        requires
            r == (n << left) | (n >> right),
            left == 0 ==> right == 0,
    ;
    r
}

/// Lemire's multiply-shift map of `hash` onto `0..n`.
pub open spec fn spec_reduce(hash: u32, n: u32) -> u32 {
    ((hash as int * n as int) / 0x1_0000_0000) as u32
}

/// The multiply-shift map lands in `0..n`.
pub proof fn lemma_reduce_bound(hash: u32, n: u32)
    ensures
        spec_reduce(hash, n) as int == (hash as int * n as int) / 0x1_0000_0000,
        n > 0 ==> spec_reduce(hash, n) < n,
{
    assert((hash as int * n as int) / 0x1_0000_0000 <= n as int) by (nonlinear_arith)
        requires
            hash < 0x1_0000_0000,
    ;
    assert(n > 0 ==> (hash as int * n as int) / 0x1_0000_0000 < n as int) by (nonlinear_arith)
        requires
            hash < 0x1_0000_0000,
    ;
    assert(0 <= (hash as int * n as int) / 0x1_0000_0000) by (nonlinear_arith);
}

/// Maps `hash` onto the range `0..n` without a division.
pub fn reduce(hash: u32, n: u32) -> (r: u32)
    ensures
        r == spec_reduce(hash, n),
        n > 0 ==> r < n,
{
    let h: u64 = hash as u64;
    let m: u64 = n as u64;
    assert(h * m <= 0xffff_fffe_0000_0001) by (nonlinear_arith)
        requires
            h <= 0xffff_ffff,
            m <= 0xffff_ffff,
    ;
    let p: u64 = h * m;
    let q: u64 = p >> 32;
    assert(q == p / 0x1_0000_0000) by (bit_vector)
        requires
            q == p >> 32u64,
    ;
    assert(p / 0x1_0000_0000 <= m) by (nonlinear_arith)
        requires
            p == h * m,
            h < 0x1_0000_0000,
    ;
    assert(m > 0 ==> p / 0x1_0000_0000 < m) by (nonlinear_arith)
        requires
            p == h * m,
            h < 0x1_0000_0000,
    ;
    q as u32
}

/// The fingerprint a hash contributes: its two halves folded together.
pub open spec fn spec_fingerprint(hash: u64) -> u64 {
    hash ^ (hash >> 32u64)
}

/// Folds the high half of `hash` onto its low half.
pub fn fingerprint(hash: u64) -> (r: u64)
    ensures
        r == spec_fingerprint(hash),
{
    hash ^ (hash >> 32)
}

} // verus!
