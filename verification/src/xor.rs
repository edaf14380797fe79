//! The filter itself: three equal blocks of 8-bit fingerprints, and the
//! three slots (one per block) that a key hashes to.
use vstd::prelude::*;
use crate::hashing::{
    fingerprint, mixsplit, reduce, rotl64, spec_fingerprint, spec_mixsplit, spec_reduce, spec_rotl,
    splitmix64, splitmix_seed, counter_after,
};
use crate::counting::{count_where, xor_where, lemma_count_all, lemma_count_bound, lemma_count_zero};
use crate::keys::{distinct_sorted, prune_duplicates};
use crate::peel::{
    Block, KeyIndex, Peeled, XorSet, drain, hash_of, member, assemble, initial_view, rounds,
    peel_result, all_empty, lemma_rounds_step, lemma_peel_result, lemma_assemble_order,
    singleton_entries, pop_step, drain_spec, round_spec, well_shaped, lemma_block_after_scan, lemma_sets_after_add,
    origin_ok, reset_sets, scan_count, sets_match, unpeeled, lemma_complete_is_peelable,
    lemma_stuck_not_peelable, slot_count, slot_mask,
};

verus! {

/// How many seeds `populate` tries before it gives up.
pub const MAX_ITERATIONS: u32 = 1024;

/// What the default hasher of std gives for a string.
pub uninterp spec fn spec_hash_entry(entry: Seq<char>) -> u64;

/// Hashes a string with `std::collections::hash_map::DefaultHasher`: a
/// hasher made by `DefaultHasher::new` (std documents every hasher made this
/// way to be the same), fed the string by `<str as Hash>::hash`, and read by
/// `Hasher::finish`. The contract claims only that the result depends on the
/// string alone; which value it is (std does not fix the algorithm) is left
/// unsaid.
#[verifier::external_body]
fn hash_entry(entry: &str) -> (h: u64)
    ensures
        h == spec_hash_entry(entry@),
{
    let mut hasher = std::collections::hash_map::DefaultHasher::new();
    std::hash::Hash::hash(entry, &mut hasher);
    std::hash::Hasher::finish(&hasher)
}

/// The 32 bits of a hash that pick its slot in block `b`.
pub open spec fn lane(h: u64, b: int) -> u32 {
    if b == 0 {
        h as u32
    } else if b == 1 {
        spec_rotl(h, 21) as u32
    } else {
        spec_rotl(h, 42) as u32
    }
}

/// The slot, within block `b`, of a key with hash `h`.
pub open spec fn slot(h: u64, block_length: u32, b: int) -> int {
    spec_reduce(lane(h, b), block_length) as int
}

/// A slot lies inside its block.
pub proof fn lemma_slot_bound(h: u64, block_length: u32, b: int)
    ensures
        block_length > 0 ==> 0 <= slot(h, block_length, b) < block_length,
{
    crate::hashing::lemma_reduce_bound(lane(h, b), block_length);
}

/// The place in the whole table of the slot of `h` in block `b`.
pub open spec fn position(h: u64, block_length: u32, b: int) -> int {
    b * block_length + slot(h, block_length, b)
}

/// `order` lists every key `0..n` of hashes `hs`, and each key `order[p]`
/// has a block `blocks[p]` whose slot for it no key later in the list uses:
/// taking the keys off from the front, each is alone in that slot.
pub open spec fn is_peeling_order(hs: Seq<u64>, bl: u32, order: Seq<int>, blocks: Seq<int>) -> bool {
    &&& order.len() == hs.len()
    &&& blocks.len() == hs.len()
    &&& forall|p: int| 0 <= p < order.len() ==> 0 <= #[trigger] order[p] < hs.len() && 0 <= blocks[p] <= 2
    &&& forall|t: int| 0 <= t < hs.len() ==> #[trigger] order.contains(t)
    &&& forall|p: int, q: int| 0 <= p < q < order.len() ==>
        slot(hs[#[trigger] order[q]], bl, blocks[p]) != slot(hs[#[trigger] order[p]], bl, blocks[p])
}

/// The keys with hashes `hs` can be peeled one by one, each from a slot of
/// its own, in blocks of length `bl`.
pub open spec fn peelable(hs: Seq<u64>, bl: u32) -> bool {
    exists|order: Seq<int>, blocks: Seq<int>| is_peeling_order(hs, bl, order, blocks)
}

/// What a filter is: the seed its keys are mixed with, the length of each
/// of its three blocks, and its table of fingerprints.
pub struct XorView {
    pub seed: u64,
    pub block_length: u32,
    pub fingerprints: Seq<u8>,
}

/// The fingerprints at the three slots of hash `h` xor to its own
/// fingerprint.
pub open spec fn fingerprints_match(fp: Seq<u8>, h: u64, block_length: u32) -> bool {
    (spec_fingerprint(h) as u8) == fp[position(h, block_length, 0)] ^ fp[position(h, block_length, 1)]
        ^ fp[position(h, block_length, 2)]
}

/// The fingerprint that the entry `ki` of a peeling record writes to its
/// slot: the one that makes the key's three fingerprints match.
pub open spec fn cell_value(ki: KeyIndex, fp: Seq<u8>, bl: u32) -> u8 {
    let h = ki.hash;
    let f = spec_fingerprint(h) as u8;
    let a = fp[position(h, bl, 0)];
    let m = fp[position(h, bl, 1)];
    let c = fp[position(h, bl, 2)];
    if ki.index < bl {
        f ^ (m ^ c)
    } else if ki.index < 2 * bl {
        f ^ (a ^ c)
    } else {
        f ^ (a ^ m)
    }
}

/// The table after the entries `record[..k]` are written, last first, into `fp`.
pub open spec fn fill(record: Seq<KeyIndex>, bl: u32, k: int, fp: Seq<u8>) -> Seq<u8>
    decreases k,
{
    if k <= 0 {
        fp
    } else {
        let ki = record[k - 1];
        let next = if ki.index < fp.len() { fp.update(ki.index as int, cell_value(ki, fp, bl)) } else { fp };
        fill(record, bl, k - 1, next)
    }
}

/// The table built from a peeling record: all zeros, then each peeled key,
/// last peeled first, sets its slot.
pub open spec fn table_from(record: Seq<KeyIndex>, bl: u32) -> Seq<u8> {
    fill(record, bl, record.len() as int, Seq::new((3 * bl) as nat, |i: int| 0u8))
}

/// The table size a filter for `n` entries gets: 32 slots plus 1.23 per
/// entry, rounded up, then down to a multiple of three.
pub open spec fn filter_capacity(n: int) -> int {
    (32 + (123 * n + 99) / 100) / 3 * 3
}

/// The keys of the entries: their hashes, in order.
pub open spec fn entry_keys(entries: Seq<String>) -> Seq<u64> {
    entries.map_values(|s: String| spec_hash_entry(s@))
}

/// The keys of attempt `j` (counting from 1): those of the entries, with
/// repeated values removed (and sorted) from the eleventh attempt on.
pub open spec fn attempt_keys(entries: Seq<String>, j: nat) -> Seq<u64> {
    if j <= 10 {
        entry_keys(entries)
    } else {
        distinct_sorted(entry_keys(entries))
    }
}

/// The length of each block of a filter for `entries`.
pub open spec fn entries_block_length(entries: Seq<String>) -> u32 {
    (filter_capacity(entries.len() as int) / 3) as u32
}

/// The hashes of the keys of attempt `j` under its seed.
pub open spec fn attempt_hashes(entries: Seq<String>, j: nat) -> Seq<u64> {
    round_hashes(attempt_keys(entries, j), splitmix_seed(j))
}

/// Attempt `j` of building a filter for `entries` finds its keys peelable
/// under the `j`-th seed.
pub open spec fn attempt_succeeds(entries: Seq<String>, j: nat) -> bool {
    peelable(attempt_hashes(entries, j), entries_block_length(entries))
}

/// The table that attempt `j` builds: the keys are peeled block queue by
/// block queue (0, 1, 2, and again) and the table filled from the record.
pub open spec fn attempt_table(entries: Seq<String>, j: nat) -> Seq<u8> {
    let bl = entries_block_length(entries);
    table_from(peel_result(initial_view(attempt_hashes(entries, j), bl), bl).stack, bl)
}

/// `f` is what `populate` builds from `entries`: a well-formed filter with
/// the capacity for them, whose fingerprints match every entry, made with the
/// seed of the first attempt whose keys can be peeled, whose peeling (queue
/// by queue, blocks 0, 1, 2 in turn) places every key of that attempt, and
/// whose table is the one that peeling fills in.
pub open spec fn built_from(f: XorView, entries: Seq<String>) -> bool {
    &&& well_formed_view(f)
    &&& f.block_length == filter_capacity(entries.len() as int) / 3
    &&& f.block_length >= 11
    &&& forall|i: int| 0 <= i < entries.len() ==> f.contains_entry(#[trigger] entries[i]@)
    &&& exists|j: nat| {
        &&& 1 <= j <= MAX_ITERATIONS
        &&& f.seed == splitmix_seed(j)
        &&& f.fingerprints == attempt_table(entries, j)
        &&& peel_result(initial_view(attempt_hashes(entries, j), f.block_length), f.block_length).stack.len()
            == attempt_keys(entries, j).len()
        &&& #[trigger] attempt_succeeds(entries, j)
        &&& forall|k: nat| 1 <= k < j ==> !#[trigger] attempt_succeeds(entries, k)
    }
}

/// No false negatives: a filter built from a list of entries answers yes
/// for each of them.
pub proof fn lemma_no_false_negatives(f: XorView, entries: Seq<String>, i: int)
    requires
        built_from(f, entries),
        0 <= i < entries.len(),
    ensures
        f.contains_entry(entries[i]@),
{
}

/// What the filter answers for a string, for every block length: yes
/// exactly when the 8-bit fingerprint of the string's mixed key equals the
/// xor of the three table cells its key selects, one per block (the cell a
/// 32-bit lane of the hash maps to by multiply-shift). A string that is not
/// among the entries is admitted only by such a fingerprint match.
pub proof fn lemma_contains_decided_by_fingerprint(f: XorView, s: Seq<char>)
    ensures
        f.contains_entry(s) <==> {
            let h = spec_mixsplit(spec_hash_entry(s), f.seed);
            let bl = f.block_length as int;
            let c0 = ((h as u32) as int * bl) / 0x1_0000_0000;
            let c1 = bl + ((spec_rotl(h, 21) as u32) as int * bl) / 0x1_0000_0000;
            let c2 = 2 * bl + ((spec_rotl(h, 42) as u32) as int * bl) / 0x1_0000_0000;
            ((h ^ (h >> 32u64)) as u8) == f.fingerprints[c0] ^ f.fingerprints[c1] ^ f.fingerprints[c2]
        },
{
    let h = spec_mixsplit(spec_hash_entry(s), f.seed);
    crate::hashing::lemma_reduce_bound(lane(h, 0), f.block_length);
    crate::hashing::lemma_reduce_bound(lane(h, 1), f.block_length);
    crate::hashing::lemma_reduce_bound(lane(h, 2), f.block_length);
}

/// A built filter has room for its entries: its table is three blocks long,
/// 32 cells plus 1.23 per entry (rounded up), cut down by at most two cells
/// to a multiple of three.
pub proof fn lemma_table_room(f: XorView, entries: Seq<String>)
    requires
        built_from(f, entries),
    ensures
        f.fingerprints.len() == 3 * f.block_length,
        100 * (3 * f.block_length - 30) >= 123 * entries.len(),
        100 * (3 * f.block_length - 32) < 123 * entries.len() + 100,
{
    let n = entries.len() as int;
    let c = (123 * n + 99) / 100;
    assert(100 * c >= 123 * n && 100 * c < 123 * n + 100);
    let cap = (32 + c) / 3 * 3;
    assert(cap <= 32 + c && cap + 2 >= 32 + c && cap % 3 == 0);
    assert(f.block_length == cap / 3);
    assert(3 * f.block_length == cap);
}

/// Two filters built from the same entries are the same filter: same seed,
/// same blocks, same table.
pub proof fn lemma_built_from_unique(f1: XorView, f2: XorView, entries: Seq<String>)
    requires
        built_from(f1, entries),
        built_from(f2, entries),
    ensures
        f1 == f2,
{
    let j1 = choose|j: nat| {
        &&& 1 <= j <= MAX_ITERATIONS
        &&& f1.seed == splitmix_seed(j)
        &&& f1.fingerprints == attempt_table(entries, j)
        &&& #[trigger] attempt_succeeds(entries, j)
        &&& forall|k: nat| 1 <= k < j ==> !#[trigger] attempt_succeeds(entries, k)
    };
    let j2 = choose|j: nat| {
        &&& 1 <= j <= MAX_ITERATIONS
        &&& f2.seed == splitmix_seed(j)
        &&& f2.fingerprints == attempt_table(entries, j)
        &&& #[trigger] attempt_succeeds(entries, j)
        &&& forall|k: nat| 1 <= k < j ==> !#[trigger] attempt_succeeds(entries, k)
    };
    if j1 < j2 {
        assert(attempt_succeeds(entries, j1));
    } else if j2 < j1 {
        assert(attempt_succeeds(entries, j2));
    }
    assert(f1.fingerprints == f2.fingerprints);
}

/// A cell that `fill` leaves non-zero was non-zero before or is the slot of
/// one of the entries written.
pub proof fn lemma_fill_unassigned(record: Seq<KeyIndex>, bl: u32, k: int, fp: Seq<u8>, i: int)
    requires
        0 <= k <= record.len(),
        0 <= i < fp.len(),
        fill(record, bl, k, fp)[i] != 0,
    ensures
        fp[i] != 0 || exists|p: int| 0 <= p < k && (#[trigger] record[p]).index == i,
    decreases k,
{
    if k > 0 {
        let ki = record[k - 1];
        let fp2 = if ki.index < fp.len() { fp.update(ki.index as int, cell_value(ki, fp, bl)) } else { fp };
        lemma_fill_unassigned(record, bl, k - 1, fp2, i);
        if ki.index as int == i {
            assert(record[k - 1].index == i);
        } else if fp2[i] == 0 {
            let p = choose|p: int| 0 <= p < k - 1 && (#[trigger] record[p]).index == i;
            assert(record[p].index == i);
        }
    }
}

/// Keys that can be peeled have distinct hashes: two equal ones share every
/// slot, so the first of them is never alone.
pub proof fn lemma_peelable_distinct(hs: Seq<u64>, bl: u32)
    requires
        peelable(hs, bl),
    ensures
        hs.no_duplicates(),
{
    let (order, blocks) = choose|order: Seq<int>, blocks: Seq<int>| is_peeling_order(hs, bl, order, blocks);
    assert forall|s: int, t: int| 0 <= s < hs.len() && 0 <= t < hs.len() && s != t implies hs[s] != hs[t] by {
        assert(order.contains(s));
        assert(order.contains(t));
        let ps = choose|p: int| 0 <= p < order.len() && order[p] == s;
        let pt = choose|p: int| 0 <= p < order.len() && order[p] == t;
        if hs[s] == hs[t] {
            if ps < pt {
                assert(slot(hs[order[pt]], bl, blocks[ps]) != slot(hs[order[ps]], bl, blocks[ps]));
            } else {
                assert(slot(hs[order[ps]], bl, blocks[pt]) != slot(hs[order[pt]], bl, blocks[pt]));
            }
        }
    }
}

/// Every cell of a built filter that no key was peeled from stays zero, so
/// the filter has at most as many non-zero cells as the entries have
/// distinct keys.
pub proof fn lemma_nonzero_cells(f: XorView, entries: Seq<String>)
    requires
        built_from(f, entries),
    ensures
        Set::new(|i: int| 0 <= i < f.fingerprints.len() && f.fingerprints[i] != 0).len()
            <= entry_keys(entries).to_set().len(),
{
    let j = choose|j: nat| {
        &&& 1 <= j <= MAX_ITERATIONS
        &&& f.seed == splitmix_seed(j)
        &&& f.fingerprints == attempt_table(entries, j)
        &&& peel_result(initial_view(attempt_hashes(entries, j), f.block_length), f.block_length).stack.len()
            == attempt_keys(entries, j).len()
        &&& #[trigger] attempt_succeeds(entries, j)
        &&& forall|k: nat| 1 <= k < j ==> !#[trigger] attempt_succeeds(entries, k)
    };
    let bl = f.block_length;
    let record = peel_result(initial_view(attempt_hashes(entries, j), bl), bl).stack;
    let keys = attempt_keys(entries, j);
    let ek = entry_keys(entries);
    let zeros = Seq::new((3 * bl) as nat, |i: int| 0u8);
    let nz = Set::new(|i: int| 0 <= i < f.fingerprints.len() && f.fingerprints[i] != 0);
    let idx = record.map_values(|ki: KeyIndex| ki.index as int);
    assert forall|i: int| #[trigger] nz.contains(i) implies idx.to_set().contains(i) by {
        assert(f.fingerprints.len() == 3 * bl);
        lemma_fill_unassigned(record, bl, record.len() as int, zeros, i);
        let p = choose|p: int| 0 <= p < record.len() && (#[trigger] record[p]).index == i;
        assert(idx[p] == i);
    }
    idx.lemma_cardinality_of_set();
    vstd::set_lib::lemma_len_subset(nz, idx.to_set());
    // the keys of the attempt are distinct values of the entries
    lemma_peelable_distinct(attempt_hashes(entries, j), bl);
    assert(keys.no_duplicates()) by {
        assert forall|s: int, t: int| 0 <= s < keys.len() && 0 <= t < keys.len() && s != t implies keys[s] != keys[t] by {
            assert(attempt_hashes(entries, j)[s] == spec_mixsplit(keys[s], splitmix_seed(j)));
            assert(attempt_hashes(entries, j)[t] == spec_mixsplit(keys[t], splitmix_seed(j)));
        }
    }
    keys.unique_seq_to_set();
    crate::keys::lemma_distinct_sorted(ek);
    assert forall|x: u64| #[trigger] keys.to_set().contains(x) implies ek.to_set().contains(x) by {
        assert(keys.contains(x));
    }
    vstd::set_lib::lemma_len_subset(keys.to_set(), ek.to_set());
}

/// The singletons of summaries in which only slot `s` holds a key.
proof fn lemma_one_singleton(sets: Seq<XorSet>, m: int, s: int, h: u64)
    requires
        0 <= m <= sets.len(),
        0 <= s < sets.len(),
        forall|i: int| 0 <= i < sets.len() ==> #[trigger] sets[i].count == if i == s { 1u32 } else { 0u32 },
        sets[s].xormask == h,
    ensures
        singleton_entries(sets, m) == if s < m { seq![KeyIndex { hash: h, index: s as u32 }] } else { Seq::<KeyIndex>::empty() },
    decreases m,
{
    if m > 0 {
        lemma_one_singleton(sets, m - 1, s, h);
        if m - 1 == s {
            assert(seq![KeyIndex { hash: h, index: s as u32 }] =~= Seq::<KeyIndex>::empty().push(KeyIndex { hash: h, index: s as u32 }));
        }
    }
}

/// The start of the peeling of a single key: its three slots hold it, the
/// other slots are empty, and each block queues its slot.
proof fn lemma_single_view(h: u64, bl: u32)
    requires
        bl > 0,
    ensures
        forall|b: int, i: int| 0 <= b <= 2 && 0 <= i < bl ==>
            #[trigger] initial_view(seq![h], bl).sets[b][i]
                == (if i == slot(h, bl, b) { XorSet { xormask: h, count: 1 } } else { XorSet { xormask: 0, count: 0 } }),
        forall|b: int| 0 <= b <= 2 ==>
            #[trigger] initial_view(seq![h], bl).pending[b] == seq![KeyIndex { hash: h, index: slot(h, bl, b) as u32 }],
        initial_view(seq![h], bl).stack.len() == 0,
        well_shaped(initial_view(seq![h], bl)),
{
    let hs = seq![h];
    let v0 = initial_view(hs, bl);
    let origin0 = Seq::new(1nat, |t: int| -1int);
    assert forall|b: int, i: int| 0 <= b <= 2 && 0 <= i < bl implies
        #[trigger] v0.sets[b][i] == (if i == slot(h, bl, b) { XorSet { xormask: h, count: 1 } } else { XorSet { xormask: 0, count: 0 } }) by {
        let m = member(hs, origin0, bl, b, i);
        assert(origin0 =~= Seq::new(hs.len(), |t: int| -1int));
        assert(v0.sets[b][i] == XorSet {
            xormask: slot_mask(hs, origin0, bl, b, i),
            count: slot_count(hs, origin0, bl, b, i) as u32,
        });
        assert(m(0) == (slot(h, bl, b) == i));
        assert(slot_count(hs, origin0, bl, b, i) == count_where(m, 1));
        assert(slot_mask(hs, origin0, bl, b, i) == xor_where(m, hash_of(hs), 1));
        assert(count_where(m, 1) == count_where(m, 0) + if m(0) { 1nat } else { 0nat });
        assert(xor_where(m, hash_of(hs), 1) == if m(0) { xor_where(m, hash_of(hs), 0) ^ h } else { xor_where(m, hash_of(hs), 0) });
        crate::counting::lemma_xor_zero_left(h);
    }
    assert forall|b: int| 0 <= b <= 2 implies #[trigger] v0.pending[b] == seq![KeyIndex { hash: h, index: slot(h, bl, b) as u32 }] by {
        lemma_slot_bound(h, bl, b);
        assert forall|i: int| 0 <= i < v0.sets[b].len() implies #[trigger] v0.sets[b][i].count == if i == slot(h, bl, b) { 1u32 } else { 0u32 } by {
            assert(v0.sets[b][i] == (if i == slot(h, bl, b) { XorSet { xormask: h, count: 1 } } else { XorSet { xormask: 0, count: 0 } }));
        }
        assert(v0.sets[b][slot(h, bl, b)].xormask == h);
        lemma_one_singleton(v0.sets[b], bl as int, slot(h, bl, b), h);
    }
}

/// Peeling a single key takes it from its slot of the first block.
#[verifier::rlimit(40)]
proof fn lemma_single_peel(h: u64, bl: u32)
    requires
        bl > 0,
    ensures
        peel_result(initial_view(seq![h], bl), bl).stack == seq![KeyIndex { hash: h, index: slot(h, bl, 0) as u32 }],
{
    let v0 = initial_view(seq![h], bl);
    lemma_single_view(h, bl);
    let s0 = slot(h, bl, 0);
    let s1 = slot(h, bl, 1);
    let s2 = slot(h, bl, 2);
    lemma_slot_bound(h, bl, 0);
    lemma_slot_bound(h, bl, 1);
    lemma_slot_bound(h, bl, 2);
    assert(v0.pending[0] == seq![KeyIndex { hash: h, index: s0 as u32 }]);
    assert(v0.pending[1] == seq![KeyIndex { hash: h, index: s1 as u32 }]);
    assert(v0.pending[2] == seq![KeyIndex { hash: h, index: s2 as u32 }]);
    assert(v0.sets[0][s0].count == 1);
    assert(v0.sets[1][s1].count == 1);
    assert(v0.sets[2][s2].count == 1);
    let v1 = pop_step(v0, 0, bl);
    assert(v1.pending[0].len() == 0);
    assert(v1.pending[1] == v0.pending[1]);
    assert(v1.pending[2] == v0.pending[2]);
    assert(v1.sets[1][s1].count == 0);
    assert(v1.sets[2][s2].count == 0);
    assert(v1.stack =~= seq![KeyIndex { hash: h, index: s0 as u32 }]);
    assert(drain_spec(v0, 0, bl) == drain_spec(v1, 0, bl));
    assert(drain_spec(v1, 0, bl) == v1);
    let v2 = pop_step(v1, 1, bl);
    assert(v2.pending[1].len() == 0);
    assert(v2.pending[2] == v1.pending[2]);
    assert(v2.sets[2] == v1.sets[2]);
    assert(v2.stack == v1.stack);
    assert(drain_spec(v1, 1, bl) == drain_spec(v2, 1, bl));
    assert(drain_spec(v2, 1, bl) == v2);
    let v3 = pop_step(v2, 2, bl);
    assert(v3.pending[2].len() == 0);
    assert(v3.pending[0].len() == 0);
    assert(v3.pending[1].len() == 0);
    assert(v3.stack == v1.stack);
    assert(drain_spec(v2, 2, bl) == drain_spec(v3, 2, bl));
    assert(drain_spec(v3, 2, bl) == v3);
    assert(round_spec(v0, bl) == v3);
    assert(all_empty(v3));
    assert(rounds(v0, bl, 1) == rounds(v3, bl, 0));
    lemma_peel_result(v0, bl, 1);
}

/// The table of a single key peeled from the first block: its fingerprint
/// in that slot, zeros elsewhere.
proof fn lemma_single_table(h: u64)
    ensures
        table_from(seq![KeyIndex { hash: h, index: slot(h, 11, 0) as u32 }], 11)
            == Seq::new(33nat, |i: int| 0u8).update(slot(h, 11, 0), spec_fingerprint(h) as u8),
{
    let bl: u32 = 11;
    let s0 = slot(h, bl, 0);
    lemma_slot_bound(h, bl, 0);
    let record = seq![KeyIndex { hash: h, index: s0 as u32 }];
    let zeros = Seq::new(33nat, |i: int| 0u8);
    let fv = spec_fingerprint(h) as u8;
    lemma_slot_bound(h, bl, 1);
    lemma_slot_bound(h, bl, 2);
    assert(fv ^ (0u8 ^ 0u8) == fv) by (bit_vector);
    assert(zeros[position(h, bl, 1)] == 0u8);
    assert(zeros[position(h, bl, 2)] == 0u8);
    assert(cell_value(record[0], zeros, bl) == fv);
    assert(table_from(record, bl) == fill(record, bl, 0, zeros.update(s0, fv)));
}

/// A filter built from a single entry has blocks of 11 slots, the first
/// seed, the entry's fingerprint in its slot of the first block, and zeros
/// everywhere else.
#[verifier::rlimit(60)]
pub proof fn lemma_single_entry(f: XorView, e: String)
    requires
        built_from(f, seq![e]),
    ensures
        f.block_length == 11,
        f.fingerprints.len() == 33,
        f.seed == splitmix_seed(1),
        f.fingerprints[slot(spec_mixsplit(spec_hash_entry(e@), f.seed), 11, 0)]
            == spec_fingerprint(spec_mixsplit(spec_hash_entry(e@), f.seed)) as u8,
        forall|i: int| 0 <= i < 33 && i != slot(spec_mixsplit(spec_hash_entry(e@), f.seed), 11, 0)
            ==> f.fingerprints[i] == 0,
{
    let entries = seq![e];
    let bl: u32 = 11;
    assert(filter_capacity(1) == 33);
    assert(entries_block_length(entries) == bl);
    let hs = attempt_hashes(entries, 1);
    let key = spec_hash_entry(e@);
    let h = spec_mixsplit(key, splitmix_seed(1));
    assert(entry_keys(entries) =~= seq![key]);
    assert(hs =~= seq![h]);
    assert(is_peeling_order(hs, bl, seq![0int], seq![0int])) by {
        assert(seq![0int][0] == 0);
        assert(seq![0int].contains(0int));
    }
    assert(attempt_succeeds(entries, 1));
    let j = choose|j: nat| {
        &&& 1 <= j <= MAX_ITERATIONS
        &&& f.seed == splitmix_seed(j)
        &&& f.fingerprints == attempt_table(entries, j)
        &&& peel_result(initial_view(attempt_hashes(entries, j), f.block_length), f.block_length).stack.len()
            == attempt_keys(entries, j).len()
        &&& #[trigger] attempt_succeeds(entries, j)
        &&& forall|k: nat| 1 <= k < j ==> !#[trigger] attempt_succeeds(entries, k)
    };
    assert(j == 1);
    lemma_single_peel(h, bl);
    lemma_single_table(h);
    assert(attempt_table(entries, 1) == table_from(seq![KeyIndex { hash: h, index: slot(h, bl, 0) as u32 }], bl));
}

/// The hashes of the keys under a seed.
pub open spec fn round_hashes(keys: Seq<u64>, seed: u64) -> Seq<u64> {
    keys.map_values(|k: u64| spec_mixsplit(k, seed))
}

/// Setting the slot that key `t` was peeled from, last of the keys still to
/// be placed, makes its fingerprints match and keeps those of the keys
/// peeled after it.
proof fn lemma_assign_step(
    fp: Seq<u8>,
    hs: Seq<u64>,
    order: Seq<int>,
    origin: Seq<int>,
    bl: u32,
    p: int,
    val: u8,
)
    requires
        bl > 0,
        fp.len() == 3 * bl,
        0 <= p < order.len(),
        0 <= order[p] < hs.len(),
        0 <= origin[order[p]] <= 2,
        forall|q: int| p < q < order.len() ==> 0 <= #[trigger] order[q] < hs.len(),
        forall|q: int| p < q < order.len() ==>
            slot(hs[#[trigger] order[q]], bl, origin[order[p]]) != slot(hs[order[p]], bl, origin[order[p]]),
        forall|q: int| p < q < order.len() ==> fingerprints_match(fp, hs[#[trigger] order[q]], bl),
        ({
            let h = hs[order[p]];
            let f = spec_fingerprint(h) as u8;
            let a = fp[position(h, bl, 0)];
            let m = fp[position(h, bl, 1)];
            let c = fp[position(h, bl, 2)];
            &&& origin[order[p]] == 0 ==> val == f ^ (m ^ c)
            &&& origin[order[p]] == 1 ==> val == f ^ (a ^ c)
            &&& origin[order[p]] == 2 ==> val == f ^ (a ^ m)
        }),
    ensures
        forall|q: int| p <= q < order.len() ==> fingerprints_match(
            fp.update(position(hs[order[p]], bl, origin[order[p]]), val),
            hs[#[trigger] order[q]],
            bl,
        ),
{
    let t = order[p];
    let h = hs[t];
    let bp = origin[t];
    let x = position(h, bl, bp);
    let fp2 = fp.update(x, val);
    lemma_slot_bound(h, bl, 0);
    lemma_slot_bound(h, bl, 1);
    lemma_slot_bound(h, bl, 2);
    let f = spec_fingerprint(h) as u8;
    let a = fp[position(h, bl, 0)];
    let m = fp[position(h, bl, 1)];
    let c = fp[position(h, bl, 2)];
    if bp == 0 {
        assert((f ^ (m ^ c)) ^ m ^ c == f) by (bit_vector);
    } else if bp == 1 {
        assert(a ^ (f ^ (a ^ c)) ^ c == f) by (bit_vector);
    } else {
        assert(a ^ m ^ (f ^ (a ^ m)) == f) by (bit_vector);
    }
    assert(fingerprints_match(fp2, h, bl));
    assert forall|q: int| p < q < order.len() implies fingerprints_match(fp2, hs[#[trigger] order[q]], bl) by {
        let hq = hs[order[q]];
        lemma_slot_bound(hq, bl, 0);
        lemma_slot_bound(hq, bl, 1);
        lemma_slot_bound(hq, bl, 2);
        assert(slot(hq, bl, bp) != slot(h, bl, bp));
        assert(position(hq, bl, 0) != x);
        assert(position(hq, bl, 1) != x);
        assert(position(hq, bl, 2) != x);
    }
}

/// The keys of the entries: the hash of each, in order.
fn hash_entries(entries: &Vec<String>) -> (keys: Vec<u64>)
    ensures
        keys@ == entry_keys(entries@),
{
    let mut keys: Vec<u64> = Vec::new();
    let mut k: usize = 0;
    while k < entries.len()
        invariant
            k <= entries.len(),
            keys@ == entry_keys(entries@).take(k as int),
        decreases entries.len() - k,
    {
        let h = hash_entry(entries[k].as_str());
        proof {
            assert(entry_keys(entries@).take(k + 1) =~= entry_keys(entries@).take(k as int).push(h));
        }
        keys.push(h);
        k = k + 1;
    }
    proof {
        assert(keys@ =~= entry_keys(entries@));
    }
    keys
}

/// One attempt at peeling: counts every key into its three slots under the
/// filter's seed, queues the slots that hold one key, and peels until no
/// queue is left.
fn peel_round(filter: &Xor, keys: &Vec<u64>, b0: &mut Block, b1: &mut Block, b2: &mut Block, st: &mut Peeled)
    requires
        0 < keys.len() < u32::MAX,
        old(b0).sets.len() == filter@.block_length,
        old(b1).sets.len() == filter@.block_length,
        old(b2).sets.len() == filter@.block_length,
        forall|j: int| 0 <= j < filter@.block_length ==> #[trigger] old(b0).sets@[j] == (XorSet { xormask: 0, count: 0 }),
        forall|j: int| 0 <= j < filter@.block_length ==> #[trigger] old(b1).sets@[j] == (XorSet { xormask: 0, count: 0 }),
        forall|j: int| 0 <= j < filter@.block_length ==> #[trigger] old(b2).sets@[j] == (XorSet { xormask: 0, count: 0 }),
    ensures
        final(st).stack_ok(filter@.block_length),
        final(st).hs@ == round_hashes(keys@, filter@.seed),
        final(b0).block_ok(final(st).hs@, final(st).origin@, filter@.block_length, 0),
        final(b1).block_ok(final(st).hs@, final(st).origin@, filter@.block_length, 1),
        final(b2).block_ok(final(st).hs@, final(st).origin@, filter@.block_length, 2),
        final(b0).qsize == 0,
        final(b1).qsize == 0,
        final(b2).qsize == 0,
        final(st).size == keys.len() <==> peelable(round_hashes(keys@, filter@.seed), filter@.block_length),
        final(st).record() == peel_result(
            initial_view(round_hashes(keys@, filter@.seed), filter@.block_length),
            filter@.block_length,
        ).stack,
{
    let size = keys.len();
    let bl = filter.block_len();
    let ghost hs = round_hashes(keys@, filter@.seed);
    let ghost origin0 = Seq::new(size as nat, |t: int| -1int);
    st.size = 0;
    st.hs = Ghost(hs);
    st.origin = Ghost(origin0);
    st.order = Ghost(Seq::empty());
    st.pos = Ghost(Seq::new(size as nat, |t: int| 0int));
    let mut i: usize = 0;
    while i < size
        invariant
            i <= size,
            size < u32::MAX,
            keys.len() == size,
            hs == round_hashes(keys@, filter@.seed),
            origin0 == Seq::new(size as nat, |t: int| -1int),
            bl == filter@.block_length,
            sets_match(b0.sets@, hs, origin0, bl, 0, i as int),
            sets_match(b1.sets@, hs, origin0, bl, 1, i as int),
            sets_match(b2.sets@, hs, origin0, bl, 2, i as int),
        decreases size - i,
    {
        let hashes = filter.geth0h1h2(keys[i]);
        proof {
            lemma_count_bound(member(hs, origin0, bl, 0, hashes.h0 as int), i as int);
            lemma_count_bound(member(hs, origin0, bl, 1, hashes.h1 as int), i as int);
            lemma_count_bound(member(hs, origin0, bl, 2, hashes.h2 as int), i as int);
            assert(b0.sets@[hashes.h0 as int].count == count_where(member(hs, origin0, bl, 0, hashes.h0 as int), i as int));
            assert(b1.sets@[hashes.h1 as int].count == count_where(member(hs, origin0, bl, 1, hashes.h1 as int), i as int));
            assert(b2.sets@[hashes.h2 as int].count == count_where(member(hs, origin0, bl, 2, hashes.h2 as int), i as int));
        }
        let ghost s0 = b0.sets@;
        let ghost s1 = b1.sets@;
        let ghost s2 = b2.sets@;
        b0.add_key(hashes.h0, hashes.h);
        b1.add_key(hashes.h1, hashes.h);
        b2.add_key(hashes.h2, hashes.h);
        proof {
            lemma_sets_after_add(s0, b0.sets@, hs, origin0, bl, 0, i as int);
            lemma_sets_after_add(s1, b1.sets@, hs, origin0, bl, 1, i as int);
            lemma_sets_after_add(s2, b2.sets@, hs, origin0, bl, 2, i as int);
        }
        i = i + 1;
    }
    b0.qsize = scan_count(&mut b0.queue, b0.sets.as_slice()) as usize;
    b1.qsize = scan_count(&mut b1.queue, b1.sets.as_slice()) as usize;
    b2.qsize = scan_count(&mut b2.queue, b2.sets.as_slice()) as usize;
    proof {
        assert(origin_ok(origin0, size as int));
        lemma_block_after_scan(*b0, hs, origin0, bl, 0);
        lemma_block_after_scan(*b1, hs, origin0, bl, 1);
        lemma_block_after_scan(*b2, hs, origin0, bl, 2);
        lemma_count_all(unpeeled(origin0), size as int);
        assert(st.stack_ok(bl));
    }
    let ghost init = initial_view(hs, bl);
    proof {
        let v = assemble(0, *b0, 1, *b1, *b2, st.record());
        assert(v.sets[0] =~= init.sets[0]);
        assert(v.sets[1] =~= init.sets[1]);
        assert(v.sets[2] =~= init.sets[2]);
        assert(v.sets =~= init.sets);
        assert(v.pending =~= init.pending);
        assert(v.stack =~= init.stack);
        assert(v == rounds(init, bl, 0));
    }
    let ghost mut k: nat = 0;
    while b0.qsize > 0 || b1.qsize > 0 || b2.qsize > 0
        invariant
            assemble(0, *b0, 1, *b1, *b2, st.record()) == rounds(init, bl, k),
            bl == filter@.block_length,
            st.hs@ == hs,
            hs.len() == size,
            st.stack_ok(bl),
            b0.block_ok(hs, st.origin@, bl, 0),
            b1.block_ok(hs, st.origin@, bl, 1),
            b2.block_ok(hs, st.origin@, bl, 2),
        decreases size - st.size, b0.qsize + b1.qsize + b2.qsize,
    {
        proof {
            lemma_rounds_step(init, bl, k);
        }
        drain(filter, 0, b0, 1, b1, 2, b2, st);
        proof {
            lemma_assemble_order(*b0, *b1, *b2, st.record());
        }
        drain(filter, 1, b1, 0, b0, 2, b2, st);
        proof {
            lemma_assemble_order(*b0, *b1, *b2, st.record());
        }
        drain(filter, 2, b2, 0, b0, 1, b1, st);
        proof {
            lemma_assemble_order(*b0, *b1, *b2, st.record());
            k = k + 1;
        }
    }
    proof {
        lemma_peel_result(init, bl, k);
    }
    proof {
        if st.size == size {
            lemma_complete_is_peelable(*st, bl);
        } else {
            lemma_stuck_not_peelable(*st, *b0, *b1, *b2, bl);
        }
    }
}

/// Fills the table from the peeled keys, last peeled first: each key sets
/// the slot it was peeled from so that its three fingerprints match.
fn assign_fingerprints(filter: &Xor, st: &Peeled) -> (fp: Vec<u8>)
    requires
        st.stack_ok(filter@.block_length),
        st.size == st.hs@.len(),
    ensures
        fp.len() == 3 * filter@.block_length,
        forall|t: int| 0 <= t < st.hs@.len() ==> fingerprints_match(fp@, #[trigger] st.hs@[t], filter@.block_length),
        fp@ == table_from(st.record(), filter@.block_length),
{
    let bl = filter.block_len();
    let size = st.size;
    let capacity: usize = 3 * bl as usize;
        let ghost hs = st.hs@;
    let ghost order = st.order@;
    let ghost origin = st.origin@;
    let mut fp: Vec<u8> = vec![0u8; capacity as usize];
    proof {
        assert(fp@ =~= Seq::new((3 * bl) as nat, |i: int| 0u8));
    }
    let mut stack_size = size;
    while stack_size > 0
        invariant
            bl == filter@.block_length,
            bl > 0,
            3 * bl <= u32::MAX,
            fp.len() == 3 * bl,
            st.stack_ok(bl),
            st.hs@ == hs,
            st.order@ == order,
            st.origin@ == origin,
            st.size == size,
            hs.len() == size,
            stack_size <= size,
            forall|q: int| stack_size <= q < size ==> fingerprints_match(fp@, hs[#[trigger] order[q]], bl),
            fill(st.record(), bl, stack_size as int, fp@) == table_from(st.record(), bl),
        decreases stack_size,
    {
        stack_size = stack_size - 1;
        let ki = st.stack[stack_size];
        let ghost t = order[stack_size as int];
        proof {
            lemma_slot_bound(hs[t], bl, 0);
            lemma_slot_bound(hs[t], bl, 1);
            lemma_slot_bound(hs[t], bl, 2);
        }
        let mut val = fingerprint(ki.hash) as u8;
        if ki.index < filter.block_length {
            val ^= fp[(filter.geth1(ki.hash) + filter.block_length) as usize]
                ^ fp[(filter.geth2(ki.hash) + 2 * filter.block_length) as usize];
        } else if ki.index < 2 * filter.block_length {
            val ^= fp[filter.geth0(ki.hash) as usize]
                ^ fp[(filter.geth2(ki.hash) + 2 * filter.block_length) as usize];
        } else {
            val ^= fp[filter.geth0(ki.hash) as usize]
                ^ fp[(filter.geth1(ki.hash) + filter.block_length) as usize];
        }
        proof {
            lemma_assign_step(fp@, hs, order, origin, bl, stack_size as int, val);
            assert(ki == st.record()[stack_size as int]);
            assert(val == cell_value(ki, fp@, bl));
        }
        fp.set(ki.index as usize, val);
    }
    proof {
        lemma_count_zero(unpeeled(origin), hash_of(hs), size as int);
    }
    proof {
        assert(fill(st.record(), bl, 0, fp@) == fp@);
        assert(stack_size == 0);
        assert(fp@ == table_from(st.record(), bl));
        assert forall|t: int| 0 <= t < st.hs@.len() implies fingerprints_match(fp@, #[trigger] st.hs@[t], bl) by {
            assert(!unpeeled(origin)(t));
            assert(origin[t] != -1);
            let p = st.pos@[t];
            assert(order[p] == t);
        }
    }
    fp
}

impl XorView {
    /// The filter answers yes for a key: the fingerprints at the key's three
    /// slots xor to the key's own fingerprint.
    pub open spec fn admits(self, key: u64) -> bool {
        fingerprints_match(self.fingerprints, spec_mixsplit(key, self.seed), self.block_length)
    }

    /// The filter answers yes for an entry.
    pub open spec fn contains_entry(self, entry: Seq<char>) -> bool {
        self.admits(spec_hash_entry(entry))
    }
}

/// An xor filter over strings.
#[derive(Debug)]
pub struct Xor {
    seed: u64,
    block_length: u32,
    fingerprints: Vec<u8>,
}

/// The hash of a key and its slot in each of the three blocks.
#[derive(Debug)]
pub struct Hashes {
    pub h: u64,
    pub h0: u32,
    pub h1: u32,
    pub h2: u32,
}

impl View for Xor {
    type V = XorView;

    closed spec fn view(&self) -> XorView {
        XorView { seed: self.seed, block_length: self.block_length, fingerprints: self.fingerprints@ }
    }
}

/// Every filter has non-empty blocks, and its table is exactly three blocks
/// long, a length that a `u32` holds.
pub open spec fn well_formed_view(v: XorView) -> bool {
    &&& v.block_length > 0
    &&& 3 * v.block_length <= u32::MAX
    &&& v.fingerprints.len() == 3 * v.block_length
}

impl Xor {
    #[verifier::type_invariant]
    spec fn well_formed(self) -> bool {
        well_formed_view(self@)
    }

    /// Answers whether `entry` may be among the entries the filter was built
    /// from: always yes for those entries, and for others yes only when the
    /// three fingerprints happen to match.
    pub fn contains(&self, entry: &str) -> (r: bool)
        ensures
            r == self@.contains_entry(entry@),
    {
        proof {
            use_type_invariant(self);
        }
        let entry: u64 = hash_entry(entry);
        let hash = mixsplit(entry, self.seed);
        let f = fingerprint(hash) as u8;
        let r0 = hash as u32;
        let r1 = rotl64(hash, 21) as u32;
        let r2 = rotl64(hash, 42) as u32;
        let h0 = reduce(r0, self.block_length);
        let h1 = reduce(r1, self.block_length) + self.block_length;
        let h2 = reduce(r2, self.block_length) + 2 * self.block_length;
        f == (self.fingerprints[h0 as usize] ^ self.fingerprints[h1 as usize] ^ self.fingerprints[h2 as usize])
    }

    /// Builds a filter holding `entries`. Fails on an empty list, and when
    /// no attempt of at most `MAX_ITERATIONS`, each with the next seed of a
    /// splitmix64 sequence (and, from the eleventh on, with repeated keys
    /// removed), finds an order in which to peel the keys; otherwise the
    /// filter comes from the first attempt that does. The table has room for
    /// 1.23 slots per entry plus 32, so the list must be short enough (some
    /// 3.49 billion entries) for the table to be indexed by a `u32`.
    #[verifier::rlimit(50)]
    pub fn populate(entries: Vec<String>) -> (r: Result<Self, String>)
        requires
            filter_capacity(entries.len() as int) <= u32::MAX,
        ensures
            entries.len() == 0 ==> (r matches Err(m) && m@ == "Filter requires at least one entry"@),
            r matches Err(m) ==> (m@ == "Filter requires at least one entry"@ && entries.len() == 0)
                || (m@ == "Too many iterations"@ && entries.len() > 0),
            r matches Err(m) && m@ == "Too many iterations"@ ==> forall|j: nat|
                1 <= j <= MAX_ITERATIONS ==> !#[trigger] attempt_succeeds(entries@, j),
            r matches Ok(f) ==> built_from(f@, entries@),
    {
        let mut keys = hash_entries(&entries);
        let mut size = keys.len();
        if size == 0 {
            proof {
                reveal_strlit("Too many iterations");
                reveal_strlit("Filter requires at least one entry");
                assert("Too many iterations"@.len() != "Filter requires at least one entry"@.len());
            }
            return Err("Filter requires at least one entry".to_owned());
        }
        let scaled: u64 = (size as u64 * 123 + 99) / 100;
        let mut capacity: u64 = 32 + scaled;
        capacity = capacity / 3 * 3;
        assert(capacity == filter_capacity(size as int));
        assert(capacity >= 33);
        let block_length: u32 = (capacity / 3) as u32;
        assert(size < u32::MAX);
        let mut rngcounter: u64 = 1;
        let first_seed = splitmix64(&mut rngcounter);
        proof {
            reveal_with_fuel(counter_after, 2);
        }
        assert(rngcounter == counter_after(1));
        let mut filter = Xor { seed: first_seed, block_length: block_length, fingerprints: vec![0u8; capacity as usize] };
        let bl = block_length;
        let mut b0 = Block {
            sets: vec![XorSet { xormask: 0, count: 0 }; bl as usize],
            queue: vec![KeyIndex { hash: 0, index: 0 }; bl as usize],
            qsize: 0,
        };
        let mut b1 = Block {
            sets: vec![XorSet { xormask: 0, count: 0 }; bl as usize],
            queue: vec![KeyIndex { hash: 0, index: 0 }; bl as usize],
            qsize: 0,
        };
        let mut b2 = Block {
            sets: vec![XorSet { xormask: 0, count: 0 }; bl as usize],
            queue: vec![KeyIndex { hash: 0, index: 0 }; bl as usize],
            qsize: 0,
        };
        let mut st = Peeled {
            stack: vec![KeyIndex { hash: 0, index: 0 }; size],
            size: 0,
            hs: Ghost(Seq::empty()),
            origin: Ghost(Seq::empty()),
            order: Ghost(Seq::empty()),
            pos: Ghost(Seq::empty()),
        };
        let ghost all_keys = entry_keys(entries@);
        let mut iterations: u32 = 0;
        loop
            invariant_except_break
                iterations <= MAX_ITERATIONS,
                entries.len() > 0,
                all_keys.len() == entries.len(),
                all_keys == entry_keys(entries@),
                bl == (filter_capacity(entries.len() as int) / 3) as u32,
                rngcounter == counter_after((iterations + 1) as nat),
                filter@.seed == splitmix_seed((iterations + 1) as nat),
                keys@ == attempt_keys(entries@, (iterations + 1) as nat),
                forall|j: nat| 1 <= j <= iterations ==> !#[trigger] attempt_succeeds(entries@, j),
                bl == filter@.block_length,
                bl == block_length,
                bl > 0,
                3 * bl <= u32::MAX,
                filter@.fingerprints.len() == 3 * bl,
                keys.len() == size,
                0 < size < u32::MAX,
                forall|i: int| 0 <= i < all_keys.len() ==> keys@.contains(#[trigger] all_keys[i]),
                b0.sets.len() == bl,
                b1.sets.len() == bl,
                b2.sets.len() == bl,
                forall|j: int| 0 <= j < bl ==> #[trigger] b0.sets@[j] == (XorSet { xormask: 0, count: 0 }),
                forall|j: int| 0 <= j < bl ==> #[trigger] b1.sets@[j] == (XorSet { xormask: 0, count: 0 }),
                forall|j: int| 0 <= j < bl ==> #[trigger] b2.sets@[j] == (XorSet { xormask: 0, count: 0 }),
            ensures
                bl == filter@.block_length,
                bl == block_length,
                bl > 0,
                3 * bl <= u32::MAX,
                filter@.fingerprints.len() == 3 * bl,
                keys.len() == size,
                forall|i: int| 0 <= i < all_keys.len() ==> keys@.contains(#[trigger] all_keys[i]),
                st.stack_ok(bl),
                st.hs@ == round_hashes(keys@, filter@.seed),
                st.size == size,
                1 <= iterations <= MAX_ITERATIONS,
                filter@.seed == splitmix_seed(iterations as nat),
                keys@ == attempt_keys(entries@, iterations as nat),
                st.record() == peel_result(initial_view(round_hashes(keys@, filter@.seed), bl), bl).stack,
                attempt_succeeds(entries@, iterations as nat),
                forall|j: nat| 1 <= j < iterations ==> !#[trigger] attempt_succeeds(entries@, j),
            decreases MAX_ITERATIONS + 1 - iterations,
        {
            iterations = iterations + 1;
            if iterations > MAX_ITERATIONS {
                return Err("Too many iterations".to_owned());
            }
            peel_round(&filter, &keys, &mut b0, &mut b1, &mut b2, &mut st);
            assert(attempt_succeeds(entries@, iterations as nat) <==> st.size == size);
            if st.size == size {
                break;
            }
            if iterations == 10 {
                let ghost before = keys@;
                keys = prune_duplicates(keys);
                size = keys.len();
                proof {
                    assert forall|i: int| 0 <= i < all_keys.len() implies keys@.contains(#[trigger] all_keys[i]) by {
                        assert(before.contains(all_keys[i]));
                    }
                    if size == 0 {
                        assert(before.contains(before[0]));
                    }
                }
            }
            reset_sets(b0.sets.as_mut_slice());
            reset_sets(b1.sets.as_mut_slice());
            reset_sets(b2.sets.as_mut_slice());
            filter.seed = splitmix64(&mut rngcounter);
            proof {
                assert(keys@ == attempt_keys(entries@, (iterations + 1) as nat));
            }
        }
        let fp = assign_fingerprints(&filter, &st);
        let ghost hs = st.hs@;
        let result = Xor { seed: filter.seed, block_length: filter.block_length, fingerprints: fp };
        proof {
            assert forall|i: int| 0 <= i < entries.len() implies result@.contains_entry(#[trigger] entries@[i]@) by {
                let key = all_keys[i];
                assert(keys@.contains(key));
                let t = choose|t: int| 0 <= t < keys.len() && keys@[t] == key;
                assert(fingerprints_match(fp@, hs[t], bl));
            }
            assert(attempt_succeeds(entries@, iterations as nat));
            assert(result@.fingerprints == attempt_table(entries@, iterations as nat));
            assert(st.record().len() == st.size);
            assert(built_from(result@, entries@));
        }
        Ok(result)
    }

    /// The length of each block, which the type keeps positive and small
    /// enough for the whole table to be indexed by a `u32`.
    pub(crate) fn block_len(&self) -> (r: u32)
        ensures
            r == self@.block_length,
            r > 0,
            3 * r <= u32::MAX,
    {
        proof {
            use_type_invariant(self);
        }
        self.block_length
    }

    /// The slot of `hash` in block `b`.
    pub(crate) fn slot_in(&self, hash: u64, b: usize) -> (r: u32)
        requires
            b <= 2,
        ensures
            r == slot(hash, self@.block_length, b as int),
            r < self@.block_length,
    {
        if b == 0 {
            self.geth0(hash)
        } else if b == 1 {
            self.geth1(hash)
        } else {
            self.geth2(hash)
        }
    }

    /// The hash of key `k` under the filter's seed, and its three slots.
    pub(crate) fn geth0h1h2(&self, k: u64) -> (r: Hashes)
        ensures
            r.h == spec_mixsplit(k, self@.seed),
            r.h0 == slot(r.h, self@.block_length, 0),
            r.h1 == slot(r.h, self@.block_length, 1),
            r.h2 == slot(r.h, self@.block_length, 2),
            r.h0 < self@.block_length,
            r.h1 < self@.block_length,
            r.h2 < self@.block_length,
    {
        proof {
            use_type_invariant(self);
        }
        let hash = mixsplit(k, self.seed);
        let r0 = hash as u32;
        let r1 = rotl64(hash, 21) as u32;
        let r2 = rotl64(hash, 42) as u32;
        proof {
            lemma_slot_bound(hash, self.block_length, 0);
            lemma_slot_bound(hash, self.block_length, 1);
            lemma_slot_bound(hash, self.block_length, 2);
        }
        Hashes {
            h: hash,
            h0: reduce(r0, self.block_length),
            h1: reduce(r1, self.block_length),
            h2: reduce(r2, self.block_length),
        }
    }

    /// The slot of `hash` in the first block.
    pub(crate) fn geth0(&self, hash: u64) -> (r: u32)
        ensures
            r == slot(hash, self@.block_length, 0),
            r < self@.block_length,
    {
        proof {
            use_type_invariant(self);
            lemma_slot_bound(hash, self.block_length, 0);
        }
        let r0 = hash as u32;
        reduce(r0, self.block_length)
    }

    /// The slot of `hash` in the second block.
    pub(crate) fn geth1(&self, hash: u64) -> (r: u32)
        ensures
            r == slot(hash, self@.block_length, 1),
            r < self@.block_length,
    {
        proof {
            use_type_invariant(self);
            lemma_slot_bound(hash, self.block_length, 1);
        }
        let r1 = rotl64(hash, 21) as u32;
        reduce(r1, self.block_length)
    }

    /// The slot of `hash` in the third block.
    pub(crate) fn geth2(&self, hash: u64) -> (r: u32)
        ensures
            r == slot(hash, self@.block_length, 2),
            r < self@.block_length,
    {
        proof {
            use_type_invariant(self);
            lemma_slot_bound(hash, self.block_length, 2);
        }
        let r2 = rotl64(hash, 42) as u32;
        reduce(r2, self.block_length)
    }
}

} // verus!
