//! The bookkeeping of the peeling phase: one summary per slot (how many keys
//! still hash to it and the xor of their hashes), and queues of the slots
//! that hold exactly one key.
use vstd::prelude::*;
use crate::counting::{
    count_where, xor_where, lemma_agree, lemma_count_one, lemma_count_positive, lemma_drop_one,
    lemma_two_members, lemma_xor_cancel,
};
use crate::xor::{is_peeling_order, peelable};
use crate::xor::Xor;
use crate::xor::{position, slot};

verus! {

/// A key's hash together with a slot it was found alone in.
#[derive(Debug, Clone, Copy)]
pub struct KeyIndex {
    pub hash: u64,
    pub index: u32,
}

/// The summary of the keys that hash to one slot.
#[derive(Debug, Clone, Copy)]
pub struct XorSet {
    pub xormask: u64,
    pub count: u32,
}

/// The slots of `sets[..m]` that hold exactly one key, in ascending order,
/// each with the xor of its keys (which is then that key's hash).
pub open spec fn singleton_entries(sets: Seq<XorSet>, m: int) -> Seq<KeyIndex>
    decreases m,
{
    if m <= 0 {
        seq![]
    } else if sets[m - 1].count == 1 {
        singleton_entries(sets, m - 1).push(KeyIndex { hash: sets[m - 1].xormask, index: (m - 1) as u32 })
    } else {
        singleton_entries(sets, m - 1)
    }
}

/// What the list of singletons holds: each singleton slot once, in
/// ascending order, with its xor.
pub proof fn lemma_singleton_entries(sets: Seq<XorSet>, m: int)
    requires
        0 <= m <= sets.len(),
        m <= 0x1_0000_0000,
    ensures
        singleton_entries(sets, m).len() <= m,
        forall|p: int| 0 <= p < singleton_entries(sets, m).len() ==> {
            let e = #[trigger] singleton_entries(sets, m)[p];
            &&& e.index < m
            &&& sets[e.index as int].count == 1
            &&& sets[e.index as int].xormask == e.hash
        },
        forall|p: int, q: int| 0 <= p < q < singleton_entries(sets, m).len() ==>
            #[trigger] singleton_entries(sets, m)[p].index < #[trigger] singleton_entries(sets, m)[q].index,
        forall|i: int| 0 <= i < m && sets[i].count == 1 ==> exists|p: int|
            0 <= p < singleton_entries(sets, m).len() && #[trigger] singleton_entries(sets, m)[p].index == i,
    decreases m,
{
    if m > 0 {
        lemma_singleton_entries(sets, m - 1);
        let prev = singleton_entries(sets, m - 1);
        let cur = singleton_entries(sets, m);
        if sets[m - 1].count == 1 {
            assert(cur == prev.push(KeyIndex { hash: sets[m - 1].xormask, index: (m - 1) as u32 }));
            assert forall|i: int| 0 <= i < m && sets[i].count == 1 implies exists|p: int|
                0 <= p < cur.len() && #[trigger] cur[p].index == i by {
                if i == m - 1 {
                    assert(cur[prev.len() as int].index == i);
                } else {
                    let p = choose|p: int| 0 <= p < prev.len() && #[trigger] prev[p].index == i;
                    assert(cur[p] == prev[p]);
                }
            }
        }
    }
}

/// Writes the singleton slots of `setsi` to the front of `qi`, growing it if
/// needed, and returns how many there are.
pub fn scan_count(qi: &mut Vec<KeyIndex>, setsi: &[XorSet]) -> (r: u64)
    requires
        setsi.len() <= 0x1_0000_0000,
    ensures
        r == singleton_entries(setsi@, setsi@.len() as int).len(),
        final(qi).len() == if r > old(qi).len() { r as int } else { old(qi).len() as int },
        final(qi)@.subrange(0, r as int) == singleton_entries(setsi@, setsi@.len() as int),
        forall|k: int| r <= k < old(qi).len() ==> final(qi)@[k] == old(qi)@[k],
{
    let ghost old_q = qi@;
    let mut qi_size: u64 = 0;
    let mut i: usize = 0;
    while i < setsi.len()
        invariant
            setsi.len() <= 0x1_0000_0000,
            i <= setsi.len(),
            qi_size == singleton_entries(setsi@, i as int).len(),
            qi_size <= i,
            qi.len() == if qi_size > old_q.len() { qi_size as int } else { old_q.len() as int },
            qi@.subrange(0, qi_size as int) == singleton_entries(setsi@, i as int),
            forall|k: int| qi_size <= k < old_q.len() ==> qi@[k] == old_q[k],
        decreases setsi.len() - i,
    {
        proof {
            lemma_singleton_entries(setsi@, i as int);
        }
        let set = setsi[i];
        if set.count == 1 {
            let ghost before = qi@;
            let entry = KeyIndex { index: i as u32, hash: set.xormask };
            if qi_size < qi.len() as u64 {
                qi.set(qi_size as usize, entry);
            } else {
                qi.push(entry);
            }
            proof {
                assert(qi@.subrange(0, qi_size + 1) =~= before.subrange(0, qi_size as int).push(entry));
            }
            qi_size = qi_size + 1;
        }
        i = i + 1;
    }
    qi_size
}

/// Empties every summary of `setsi`.
pub fn reset_sets(setsi: &mut [XorSet])
    ensures
        final(setsi).len() == old(setsi).len(),
        forall|k: int| 0 <= k < final(setsi).len() ==> #[trigger] final(setsi)@[k] == (XorSet { count: 0, xormask: 0 }),
{
    let n = setsi.len();
    let mut i: usize = 0;
    while i < n
        invariant
            setsi.len() == n,
            i <= n,
            forall|k: int| 0 <= k < i ==> #[trigger] setsi@[k] == (XorSet { count: 0, xormask: 0 }),
        decreases n - i,
    {
        setsi[i] = XorSet { count: 0, xormask: 0 };
        i = i + 1;
    }
}

/// Key `t` counts in slot `i` of block `b`: it hashes there and has not
/// been peeled from another block (`origin[t]` is `-1` while a key is
/// unpeeled, and the block it was peeled from after).
pub open spec fn member(hs: Seq<u64>, origin: Seq<int>, bl: u32, b: int, i: int) -> spec_fn(int) -> bool {
    |t: int| 0 <= t < hs.len() && slot(hs[t], bl, b) == i && (origin[t] == -1 || origin[t] == b)
}

/// The hash of each key.
pub open spec fn hash_of(hs: Seq<u64>) -> spec_fn(int) -> u64 {
    |t: int| hs[t]
}

/// The keys not yet peeled.
pub open spec fn unpeeled(origin: Seq<int>) -> spec_fn(int) -> bool {
    |t: int| origin[t] == -1
}

/// How many keys count in slot `i` of block `b`.
pub open spec fn slot_count(hs: Seq<u64>, origin: Seq<int>, bl: u32, b: int, i: int) -> nat {
    count_where(member(hs, origin, bl, b, i), hs.len() as int)
}

/// The xor of the hashes of the keys that count in slot `i` of block `b`.
pub open spec fn slot_mask(hs: Seq<u64>, origin: Seq<int>, bl: u32, b: int, i: int) -> u64 {
    xor_where(member(hs, origin, bl, b, i), hash_of(hs), hs.len() as int)
}

/// Every key is unpeeled or peeled from one of the three blocks.
pub open spec fn origin_ok(origin: Seq<int>, n: int) -> bool {
    &&& origin.len() == n
    &&& forall|t: int| 0 <= t < n ==> -1 <= #[trigger] origin[t] <= 2
}

/// A peeled key is still the only key that counts in the slot it was
/// peeled from.
pub open spec fn peeled_alone(hs: Seq<u64>, origin: Seq<int>, bl: u32) -> bool {
    forall|t: int| 0 <= t < hs.len() && #[trigger] origin[t] != -1 ==>
        slot_count(hs, origin, bl, origin[t], slot(hs[t], bl, origin[t])) == 1
}

/// The summaries of block `b` count the keys `0..m`.
pub open spec fn sets_match(sets: Seq<XorSet>, hs: Seq<u64>, origin: Seq<int>, bl: u32, b: int, m: int) -> bool {
    &&& sets.len() == bl
    &&& forall|i: int| 0 <= i < bl ==> {
        &&& (#[trigger] sets[i]).count == count_where(member(hs, origin, bl, b, i), m)
        &&& sets[i].xormask == xor_where(member(hs, origin, bl, b, i), hash_of(hs), m)
    }
}

/// A queued slot of block `b` still holds at most one key, whose hash the
/// entry carries, and no key has been peeled from it yet.
pub open spec fn entry_ok(e: KeyIndex, hs: Seq<u64>, origin: Seq<int>, bl: u32, b: int) -> bool {
    &&& e.index < bl
    &&& slot_count(hs, origin, bl, b, e.index as int) <= 1
    &&& slot_count(hs, origin, bl, b, e.index as int) == 1 ==> slot_mask(hs, origin, bl, b, e.index as int) == e.hash
    &&& forall|t: int| 0 <= t < hs.len() && #[trigger] origin[t] == b ==> slot(hs[t], bl, b) != e.index
}

/// The summaries of a block after a key with hash `hash` leaves slot `i`.
pub open spec fn remove_from(sets: Seq<XorSet>, i: int, hash: u64) -> Seq<XorSet> {
    sets.update(i, XorSet { xormask: sets[i].xormask ^ hash, count: (sets[i].count - 1) as u32 })
}

/// The queue of a block after a key with hash `hash` leaves slot `i`: the
/// slot is queued when one key is left in it.
pub open spec fn queue_after_remove(sets: Seq<XorSet>, pending: Seq<KeyIndex>, i: int, hash: u64) -> Seq<KeyIndex> {
    let left = remove_from(sets, i, hash)[i];
    if left.count == 1 {
        pending.push(KeyIndex { hash: left.xormask, index: i as u32 })
    } else {
        pending
    }
}

/// One block of the peeling: its summaries and its queue of singletons.
pub struct Block {
    pub sets: Vec<XorSet>,
    pub queue: Vec<KeyIndex>,
    pub qsize: usize,
}

impl Block {
    /// The queue entries still to be handled, oldest first.
    pub open spec fn pending(self) -> Seq<KeyIndex> {
        self.queue@.subrange(0, self.qsize as int)
    }

    /// The block agrees with the keys: its summaries are exact, its queue
    /// holds distinct sound entries, and every slot with a single key is
    /// queued or has had that key peeled from it.
    pub open spec fn block_ok(self, hs: Seq<u64>, origin: Seq<int>, bl: u32, b: int) -> bool {
        &&& sets_match(self.sets@, hs, origin, bl, b, hs.len() as int)
        &&& self.qsize <= self.queue.len()
        &&& forall|p: int| 0 <= p < self.qsize ==> entry_ok(#[trigger] self.queue@[p], hs, origin, bl, b)
        &&& forall|p: int, q: int| 0 <= p < q < self.qsize ==>
            (#[trigger] self.queue@[p]).index != (#[trigger] self.queue@[q]).index
        &&& forall|i: int| 0 <= i < bl && #[trigger] slot_count(hs, origin, bl, b, i) == 1 ==>
            (exists|p: int| 0 <= p < self.qsize && (#[trigger] self.queue@[p]).index == i)
            || (exists|t: int| 0 <= t < hs.len() && #[trigger] origin[t] == b && slot(hs[t], bl, b) == i)
    }

    /// Takes the last entry off the queue.
    pub fn pop(&mut self) -> (e: KeyIndex)
        requires
            old(self).qsize > 0,
            old(self).qsize <= old(self).queue.len(),
        ensures
            final(self).qsize == old(self).qsize - 1,
            final(self).sets == old(self).sets,
            final(self).queue == old(self).queue,
            e == old(self).queue@[final(self).qsize as int],
    {
        self.qsize = self.qsize - 1;
        self.queue[self.qsize]
    }

    /// Appends an entry to the queue, reusing room left by earlier rounds.
    pub fn push_queue(&mut self, e: KeyIndex)
        requires
            old(self).qsize <= old(self).queue.len(),
        ensures
            final(self).qsize == old(self).qsize + 1,
            final(self).qsize <= final(self).queue.len(),
            final(self).sets == old(self).sets,
            final(self).queue@.subrange(0, old(self).qsize as int) == old(self).queue@.subrange(0, old(self).qsize as int),
            final(self).queue@[old(self).qsize as int] == e,
    {
        if self.qsize < self.queue.len() {
            self.queue.set(self.qsize, e);
        } else {
            self.queue.push(e);
        }
        assert(self.qsize < self.queue.len());
        self.qsize = self.qsize + 1;
    }

    /// Adds a key with hash `hash` to slot `i`.
    pub fn add_key(&mut self, i: u32, hash: u64)
        requires
            i < old(self).sets.len(),
            old(self).sets@[i as int].count < u32::MAX,
        ensures
            final(self).sets@ == old(self).sets@.update(i as int, XorSet {
                xormask: old(self).sets@[i as int].xormask ^ hash,
                count: (old(self).sets@[i as int].count + 1) as u32,
            }),
            final(self).queue == old(self).queue,
            final(self).qsize == old(self).qsize,
    {
        let s = self.sets[i as usize];
        self.sets.set(i as usize, XorSet { xormask: s.xormask ^ hash, count: s.count + 1 });
    }

    /// Takes key `t`, just peeled from block `b0`, out of its slot `i` in
    /// this block `b`; queues the slot if one key is left there.
    pub fn remove_key(
        &mut self,
        i: u32,
        hash: u64,
        Ghost(hs): Ghost<Seq<u64>>,
        Ghost(origin): Ghost<Seq<int>>,
        Ghost(bl): Ghost<u32>,
        Ghost(b): Ghost<int>,
        Ghost(t): Ghost<int>,
        Ghost(b0): Ghost<int>,
    )
        requires
            old(self).block_ok(hs, origin, bl, b),
            origin_ok(origin, hs.len() as int),
            peeled_alone(hs, origin, bl),
            bl > 0,
            0 <= t < hs.len(),
            origin[t] == -1,
            0 <= b <= 2,
            0 <= b0 <= 2,
            b0 != b,
            i == slot(hs[t], bl, b),
            hash == hs[t],
        ensures
            final(self).block_ok(hs, origin.update(t, b0), bl, b),
            final(self).qsize >= old(self).qsize,
            final(self).sets@ == remove_from(old(self).sets@, i as int, hash),
            final(self).pending() == queue_after_remove(old(self).sets@, old(self).pending(), i as int, hash),
    {
        let ghost origin2 = origin.update(t, b0);
        let ghost n = hs.len() as int;
        let ghost p_old = member(hs, origin, bl, b, i as int);
        let ghost p_new = member(hs, origin2, bl, b, i as int);
        proof {
            crate::xor::lemma_slot_bound(hs[t], bl, b);
            assert forall|j: int| 0 <= j < bl && j != i implies
                #[trigger] slot_count(hs, origin, bl, b, j) == slot_count(hs, origin2, bl, b, j)
                && slot_mask(hs, origin, bl, b, j) == slot_mask(hs, origin2, bl, b, j) by {
                let pa = member(hs, origin, bl, b, j);
                let pb = member(hs, origin2, bl, b, j);
                assert forall|s: int| 0 <= s < n implies #[trigger] pa(s) == pb(s) by {}
                lemma_agree(pa, pb, hash_of(hs), n);
            }
            assert forall|s: int| 0 <= s < n && s != t implies #[trigger] p_old(s) == p_new(s) by {}
            lemma_drop_one(p_old, p_new, hash_of(hs), n, t);
            lemma_xor_cancel(slot_mask(hs, origin2, bl, b, i as int), hash);
            assert(self.sets@[i as int].count == slot_count(hs, origin, bl, b, i as int));
        }
        let s = self.sets[i as usize];
        let ghost old_queue = self.queue@;
        let ghost old_qsize = self.qsize;
        let updated = XorSet { xormask: s.xormask ^ hash, count: s.count - 1 };
        self.sets.set(i as usize, updated);
        proof {
            assert(updated.count == slot_count(hs, origin2, bl, b, i as int));
            assert(updated.xormask == slot_mask(hs, origin2, bl, b, i as int));
            assert(sets_match(self.sets@, hs, origin2, bl, b, n)) by {
                assert forall|j: int| 0 <= j < bl implies {
                    &&& (#[trigger] self.sets@[j]).count == count_where(member(hs, origin2, bl, b, j), n)
                    &&& self.sets@[j].xormask == xor_where(member(hs, origin2, bl, b, j), hash_of(hs), n)
                } by {
                    if j != i {
                        assert(slot_count(hs, origin, bl, b, j) == slot_count(hs, origin2, bl, b, j));
                    }
                }
            }
            // the peeled keys of this block are the same under both records
            assert forall|s: int| 0 <= s < n implies (#[trigger] origin2[s] == b) == (origin[s] == b) by {}
            // entries queued before stay sound
            assert forall|p: int| 0 <= p < old_qsize implies entry_ok(#[trigger] old_queue[p], hs, origin2, bl, b) by {
                let e = old_queue[p];
                assert(entry_ok(e, hs, origin, bl, b));
                if e.index != i {
                    assert(slot_count(hs, origin, bl, b, e.index as int) == slot_count(hs, origin2, bl, b, e.index as int));
                }
            }
        }
        if updated.count == 1 {
            proof {
                // two keys counted before: no entry of this slot is queued, none peeled
                assert forall|p: int| 0 <= p < old_qsize implies (#[trigger] old_queue[p]).index != i by {
                    assert(entry_ok(old_queue[p], hs, origin, bl, b));
                }
                assert forall|s: int| 0 <= s < n && #[trigger] origin2[s] == b implies slot(hs[s], bl, b) != i by {
                    if slot(hs[s], bl, b) == i {
                        assert(origin[s] == b);
                        assert(slot_count(hs, origin, bl, b, i as int) == 1);
                    }
                }
            }
            self.push_queue(KeyIndex { hash: updated.xormask, index: i });
        }
        proof {
            let q = self.queue@;
            assert forall|p: int| 0 <= p < old_qsize implies #[trigger] q[p] == old_queue[p] by {
                assert(q.subrange(0, old_qsize as int)[p] == old_queue.subrange(0, old_qsize as int)[p]);
            }
            assert forall|p: int| 0 <= p < self.qsize implies entry_ok(#[trigger] q[p], hs, origin2, bl, b) by {
                if p < old_qsize {
                    assert(q[p] == old_queue[p]);
                }
            }
            assert forall|p1: int, p2: int| 0 <= p1 < p2 < self.qsize implies
                (#[trigger] q[p1]).index != (#[trigger] q[p2]).index by {
                assert(q[p1] == old_queue[p1]);
                if p2 < old_qsize {
                    assert(q[p2] == old_queue[p2]);
                } else {
                    assert(entry_ok(old_queue[p1], hs, origin, bl, b));
                }
            }
            assert forall|j: int| 0 <= j < bl && #[trigger] slot_count(hs, origin2, bl, b, j) == 1 implies
                (exists|p: int| 0 <= p < self.qsize && (#[trigger] q[p]).index == j)
                || (exists|s: int| 0 <= s < n && #[trigger] origin2[s] == b && slot(hs[s], bl, b) == j) by {
                if j == i {
                    assert(q[old_qsize as int].index == j);
                } else {
                    assert(slot_count(hs, origin, bl, b, j) == 1);
                    if exists|p: int| 0 <= p < old_qsize && (#[trigger] old_queue[p]).index == j {
                        let p = choose|p: int| 0 <= p < old_qsize && (#[trigger] old_queue[p]).index == j;
                        assert(q[p] == old_queue[p]);
                    } else {
                        let s = choose|s: int| 0 <= s < n && #[trigger] origin[s] == b && slot(hs[s], bl, b) == j;
                        assert(origin2[s] == b);
                    }
                }
            }
        }
    }
}

/// The keys peeled so far, in the order they were peeled, each with the
/// slot it was peeled from.
pub struct Peeled {
    pub stack: Vec<KeyIndex>,
    pub size: usize,
    /// The hash of each key of the current round.
    pub hs: Ghost<Seq<u64>>,
    /// For each key, `-1` or the block it was peeled from.
    pub origin: Ghost<Seq<int>>,
    /// The keys in the order they were peeled.
    pub order: Ghost<Seq<int>>,
    /// For each peeled key, its place in `order`.
    pub pos: Ghost<Seq<int>>,
}

impl Peeled {
    /// The stack entries of the keys peeled so far, first peeled first.
    pub open spec fn record(self) -> Seq<KeyIndex> {
        self.stack@.subrange(0, self.size as int)
    }

    /// The record is consistent: the stack lists exactly the peeled keys,
    /// each with the table position of the slot it was peeled from, and no
    /// key peeled later hashes to that slot.
    pub open spec fn stack_ok(self, bl: u32) -> bool {
        let hs = self.hs@;
        let origin = self.origin@;
        let order = self.order@;
        let pos = self.pos@;
        let n = hs.len() as int;
        &&& origin_ok(origin, n)
        &&& peeled_alone(hs, origin, bl)
        &&& pos.len() == n
        &&& order.len() == self.size
        &&& self.size <= self.stack.len()
        &&& forall|p: int| 0 <= p < self.size ==> {
            let t = #[trigger] order[p];
            &&& 0 <= t < n
            &&& origin[t] != -1
            &&& pos[t] == p
            &&& self.stack@[p].hash == hs[t]
            &&& self.stack@[p].index == position(hs[t], bl, origin[t])
        }
        &&& forall|t: int| 0 <= t < n && #[trigger] origin[t] != -1 ==> 0 <= pos[t] < self.size && order[pos[t]] == t
        &&& forall|p: int, q: int| 0 <= p < q < self.size ==>
            slot(hs[#[trigger] order[q]], bl, origin[#[trigger] order[p]]) != slot(hs[order[p]], bl, origin[order[p]])
        &&& self.size + count_where(unpeeled(origin), n) == n
    }

    /// Records key `t` as peeled from its slot in block `b`, where it is
    /// alone.
    pub fn push(&mut self, e: KeyIndex, Ghost(bl): Ghost<u32>, Ghost(t): Ghost<int>, Ghost(b): Ghost<int>)
        requires
            old(self).stack_ok(bl),
            0 <= t < old(self).hs@.len(),
            old(self).origin@[t] == -1,
            0 <= b <= 2,
            e.hash == old(self).hs@[t],
            e.index == position(old(self).hs@[t], bl, b),
            slot_count(old(self).hs@, old(self).origin@, bl, b, slot(old(self).hs@[t], bl, b)) == 1,
        ensures
            final(self).stack_ok(bl),
            final(self).hs == old(self).hs,
            final(self).origin@ == old(self).origin@.update(t, b),
            final(self).size == old(self).size + 1,
            final(self).record() == old(self).record().push(e),
    {
        let ghost hs = self.hs@;
        let ghost origin = self.origin@;
        let ghost order = self.order@;
        let ghost n = hs.len() as int;
        let ghost size = self.size as int;
        proof {
            assert forall|p: int| 0 <= p < size implies
                slot(hs[t], bl, origin[#[trigger] order[p]]) != slot(hs[order[p]], bl, origin[order[p]]) by {
                let tp = order[p];
                let bp = origin[tp];
                let sp = slot(hs[tp], bl, bp);
                assert(slot_count(hs, origin, bl, bp, sp) == 1);
                if slot(hs[t], bl, bp) == sp {
                    let m = member(hs, origin, bl, bp, sp);
                    assert(m(t) && m(tp));
                    lemma_two_members(m, n, t, tp);
                }
            }
            lemma_peel_keeps_alone(hs, origin, bl, t, b);
            let origin2 = origin.update(t, b);
            assert forall|s: int| 0 <= s < n && s != t implies #[trigger] unpeeled(origin)(s) == unpeeled(origin2)(s) by {}
            lemma_drop_one(unpeeled(origin), unpeeled(origin2), hash_of(hs), n, t);
        }
        if self.size < self.stack.len() {
            self.stack.set(self.size, e);
        } else {
            self.stack.push(e);
        }
        assert(self.size < self.stack.len());
        self.size = self.size + 1;
        self.origin = Ghost(origin.update(t, b));
        self.order = Ghost(order.push(t));
        self.pos = Ghost(self.pos@.update(t, size));
        proof {
            let origin2 = self.origin@;
            let order2 = self.order@;
            assert forall|p: int| 0 <= p < size implies #[trigger] order2[p] == order[p] && order[p] != t by {}
            assert forall|p: int, q: int| 0 <= p < q < self.size implies
                slot(hs[#[trigger] order2[q]], bl, origin2[#[trigger] order2[p]])
                    != slot(hs[order2[p]], bl, origin2[order2[p]]) by {
                assert(order2[p] == order[p]);
                if q < size {
                    assert(order2[q] == order[q]);
                }
            }
        }
    }
}

/// Counting key `m` into its slot of block `b` extends the summaries from
/// the keys `0..m` to the keys `0..m + 1`.
pub proof fn lemma_sets_after_add(
    sets: Seq<XorSet>,
    sets2: Seq<XorSet>,
    hs: Seq<u64>,
    origin: Seq<int>,
    bl: u32,
    b: int,
    m: int,
)
    requires
        sets_match(sets, hs, origin, bl, b, m),
        0 <= m < hs.len(),
        origin[m] == -1,
        0 <= slot(hs[m], bl, b) < bl,
        sets[slot(hs[m], bl, b)].count + 1 <= u32::MAX,
        sets2 == sets.update(slot(hs[m], bl, b), XorSet {
            xormask: sets[slot(hs[m], bl, b)].xormask ^ hs[m],
            count: (sets[slot(hs[m], bl, b)].count + 1) as u32,
        }),
    ensures
        sets_match(sets2, hs, origin, bl, b, m + 1),
{
    assert forall|j: int| 0 <= j < bl implies {
        &&& (#[trigger] sets2[j]).count == count_where(member(hs, origin, bl, b, j), m + 1)
        &&& sets2[j].xormask == xor_where(member(hs, origin, bl, b, j), hash_of(hs), m + 1)
    } by {
        assert(sets[j].count == count_where(member(hs, origin, bl, b, j), m));
        assert(member(hs, origin, bl, b, j)(m) == (slot(hs[m], bl, b) == j));
    }
}

/// A block whose queue was just filled by `scan_count` from summaries that
/// count every key, none of them peeled, is consistent.
pub proof fn lemma_block_after_scan(blk: Block, hs: Seq<u64>, origin: Seq<int>, bl: u32, b: int)
    requires
        sets_match(blk.sets@, hs, origin, bl, b, hs.len() as int),
        origin_ok(origin, hs.len() as int),
        forall|t: int| 0 <= t < hs.len() ==> #[trigger] origin[t] == -1,
        0 <= b <= 2,
        blk.qsize <= blk.queue.len(),
        blk.queue@.subrange(0, blk.qsize as int) == singleton_entries(blk.sets@, bl as int),
    ensures
        blk.block_ok(hs, origin, bl, b),
{
    let entries = singleton_entries(blk.sets@, bl as int);
    let q = blk.queue@;
    lemma_singleton_entries(blk.sets@, bl as int);
    assert forall|p: int| 0 <= p < blk.qsize implies #[trigger] q[p] == entries[p] by {
        assert(q.subrange(0, blk.qsize as int)[p] == q[p]);
    }
    assert forall|p: int| 0 <= p < blk.qsize implies entry_ok(#[trigger] q[p], hs, origin, bl, b) by {
        assert(q[p] == entries[p]);
        let i = q[p].index as int;
        assert(blk.sets@[i].count == 1);
        assert(blk.sets@[i].count == slot_count(hs, origin, bl, b, i));
        assert(blk.sets@[i].xormask == slot_mask(hs, origin, bl, b, i));
    }
    assert forall|p1: int, p2: int| 0 <= p1 < p2 < blk.qsize implies
        (#[trigger] q[p1]).index != (#[trigger] q[p2]).index by {
        assert(q[p1] == entries[p1]);
        assert(q[p2] == entries[p2]);
    }
    assert forall|i: int| 0 <= i < bl && #[trigger] slot_count(hs, origin, bl, b, i) == 1 implies
        (exists|p: int| 0 <= p < blk.qsize && (#[trigger] q[p]).index == i)
        || (exists|t: int| 0 <= t < hs.len() && #[trigger] origin[t] == b && slot(hs[t], bl, b) == i) by {
        assert(blk.sets@[i].count == 1);
        let p = choose|p: int| 0 <= p < entries.len() && #[trigger] entries[p].index == i;
        assert(q[p] == entries[p]);
    }
}

/// Popping an entry whose slot is empty keeps the block consistent.
pub proof fn lemma_block_after_skip(old_blk: Block, new_blk: Block, hs: Seq<u64>, origin: Seq<int>, bl: u32, b: int)
    requires
        old_blk.block_ok(hs, origin, bl, b),
        old_blk.qsize > 0,
        new_blk.sets == old_blk.sets,
        new_blk.queue == old_blk.queue,
        new_blk.qsize == old_blk.qsize - 1,
        slot_count(hs, origin, bl, b, old_blk.queue@[new_blk.qsize as int].index as int) == 0,
    ensures
        new_blk.block_ok(hs, origin, bl, b),
{
    let q = old_blk.queue@;
    assert forall|i: int| 0 <= i < bl && #[trigger] slot_count(hs, origin, bl, b, i) == 1 implies
        (exists|p: int| 0 <= p < new_blk.qsize && (#[trigger] q[p]).index == i)
        || (exists|t: int| 0 <= t < hs.len() && #[trigger] origin[t] == b && slot(hs[t], bl, b) == i) by {
        if exists|p: int| 0 <= p < old_blk.qsize && (#[trigger] q[p]).index == i {
            let p = choose|p: int| 0 <= p < old_blk.qsize && (#[trigger] q[p]).index == i;
            assert(p != new_blk.qsize);
        }
    }
}

/// Peeling key `t` from the slot of the popped entry keeps the block
/// consistent with the new record.
pub proof fn lemma_block_after_peel(
    old_blk: Block,
    new_blk: Block,
    hs: Seq<u64>,
    origin: Seq<int>,
    bl: u32,
    b: int,
    t: int,
)
    requires
        old_blk.block_ok(hs, origin, bl, b),
        origin_ok(origin, hs.len() as int),
        old_blk.qsize > 0,
        new_blk.sets == old_blk.sets,
        new_blk.queue == old_blk.queue,
        new_blk.qsize == old_blk.qsize - 1,
        0 <= t < hs.len(),
        origin[t] == -1,
        slot(hs[t], bl, b) == old_blk.queue@[new_blk.qsize as int].index,
    ensures
        new_blk.block_ok(hs, origin.update(t, b), bl, b),
{
    let q = old_blk.queue@;
    let n = hs.len() as int;
    let origin2 = origin.update(t, b);
    let ei = q[new_blk.qsize as int].index as int;
    assert forall|i: int| 0 <= i < bl implies
        #[trigger] slot_count(hs, origin, bl, b, i) == slot_count(hs, origin2, bl, b, i)
        && slot_mask(hs, origin, bl, b, i) == slot_mask(hs, origin2, bl, b, i) by {
        let pa = member(hs, origin, bl, b, i);
        let pb = member(hs, origin2, bl, b, i);
        assert forall|s: int| 0 <= s < n implies #[trigger] pa(s) == pb(s) by {}
        lemma_agree(pa, pb, hash_of(hs), n);
    }
    assert(sets_match(new_blk.sets@, hs, origin2, bl, b, n)) by {
        assert forall|i: int| 0 <= i < bl implies {
            &&& (#[trigger] new_blk.sets@[i]).count == count_where(member(hs, origin2, bl, b, i), n)
            &&& new_blk.sets@[i].xormask == xor_where(member(hs, origin2, bl, b, i), hash_of(hs), n)
        } by {
            assert(slot_count(hs, origin, bl, b, i) == slot_count(hs, origin2, bl, b, i));
        }
    }
    assert forall|p: int| 0 <= p < new_blk.qsize implies entry_ok(#[trigger] q[p], hs, origin2, bl, b) by {
        assert(entry_ok(q[p], hs, origin, bl, b));
        assert(q[p].index != ei);
        assert(slot_count(hs, origin, bl, b, q[p].index as int) == slot_count(hs, origin2, bl, b, q[p].index as int));
        assert forall|s: int| 0 <= s < n && #[trigger] origin2[s] == b implies slot(hs[s], bl, b) != q[p].index by {
            if s != t {
                assert(origin[s] == b);
            }
        }
    }
    assert forall|i: int| 0 <= i < bl && #[trigger] slot_count(hs, origin2, bl, b, i) == 1 implies
        (exists|p: int| 0 <= p < new_blk.qsize && (#[trigger] q[p]).index == i)
        || (exists|s: int| 0 <= s < n && #[trigger] origin2[s] == b && slot(hs[s], bl, b) == i) by {
        assert(slot_count(hs, origin, bl, b, i) == 1);
        if exists|p: int| 0 <= p < old_blk.qsize && (#[trigger] q[p]).index == i {
            let p = choose|p: int| 0 <= p < old_blk.qsize && (#[trigger] q[p]).index == i;
            if p == new_blk.qsize {
                assert(origin2[t] == b);
            }
        } else {
            let s = choose|s: int| 0 <= s < n && #[trigger] origin[s] == b && slot(hs[s], bl, b) == i;
            assert(origin2[s] == b);
        }
    }
}

/// The state of a peeling, block by block: the summaries, the entries
/// still queued (oldest first), and the record of peeled keys.
pub struct PeelView {
    pub sets: Seq<Seq<XorSet>>,
    pub pending: Seq<Seq<KeyIndex>>,
    pub stack: Seq<KeyIndex>,
}

/// The two blocks other than `b`, in ascending order.
pub open spec fn other_blocks(b: int) -> (int, int) {
    if b == 0 {
        (1, 2)
    } else if b == 1 {
        (0, 2)
    } else {
        (0, 1)
    }
}

/// A key with hash `hash` leaves slot `i` of block `o`.
pub open spec fn leave(v: PeelView, o: int, i: int, hash: u64) -> PeelView {
    PeelView {
        sets: v.sets.update(o, remove_from(v.sets[o], i, hash)),
        pending: v.pending.update(o, queue_after_remove(v.sets[o], v.pending[o], i, hash)),
        stack: v.stack,
    }
}

/// Handles the newest entry queued in block `b`: when its slot still holds
/// a key, that key is recorded as peeled from the slot and leaves its slots
/// in the two other blocks.
pub open spec fn pop_step(v: PeelView, b: int, bl: u32) -> PeelView {
    let e = v.pending[b].last();
    let popped = PeelView { sets: v.sets, pending: v.pending.update(b, v.pending[b].drop_last()), stack: v.stack };
    if v.sets[b][e.index as int].count == 0 {
        popped
    } else {
        let h = e.hash;
        let pushed = PeelView {
            sets: popped.sets,
            pending: popped.pending,
            stack: popped.stack.push(KeyIndex { hash: h, index: (e.index + b * bl) as u32 }),
        };
        let o1 = other_blocks(b).0;
        let o2 = other_blocks(b).1;
        leave(leave(pushed, o1, slot(h, bl, o1), h), o2, slot(h, bl, o2), h)
    }
}

/// Three blocks.
pub open spec fn well_shaped(v: PeelView) -> bool {
    v.sets.len() == 3 && v.pending.len() == 3
}

/// Handles the queue of block `b` until it is empty.
pub open spec fn drain_spec(v: PeelView, b: int, bl: u32) -> PeelView
    decreases v.pending[b].len(),
{
    if !(0 <= b <= 2) || !well_shaped(v) || v.pending[b].len() == 0 {
        v
    } else {
        drain_spec(pop_step(v, b, bl), b, bl)
    }
}

/// One round: the queues of blocks 0, 1 and 2 are emptied in turn.
pub open spec fn round_spec(v: PeelView, bl: u32) -> PeelView {
    drain_spec(drain_spec(drain_spec(v, 0, bl), 1, bl), 2, bl)
}

/// No block has an entry queued.
pub open spec fn all_empty(v: PeelView) -> bool {
    v.pending[0].len() == 0 && v.pending[1].len() == 0 && v.pending[2].len() == 0
}

/// Up to `k` rounds, stopping once every queue is empty.
pub open spec fn rounds(v: PeelView, bl: u32, k: nat) -> PeelView
    decreases k,
{
    if k == 0 || all_empty(v) {
        v
    } else {
        rounds(round_spec(v, bl), bl, (k - 1) as nat)
    }
}

/// The state in which the rounds leave every queue empty.
pub open spec fn peel_result(v: PeelView, bl: u32) -> PeelView {
    rounds(v, bl, choose|k: nat| all_empty(#[trigger] rounds(v, bl, k)))
}

/// The start of a peeling of keys with hashes `hs`: every key counted in
/// its three slots, every slot with a single key queued, nothing peeled.
pub open spec fn initial_view(hs: Seq<u64>, bl: u32) -> PeelView {
    let origin0 = Seq::new(hs.len(), |t: int| -1int);
    let sets = Seq::new(3, |b: int| Seq::new(bl as nat, |i: int| XorSet {
        xormask: slot_mask(hs, origin0, bl, b, i),
        count: slot_count(hs, origin0, bl, b, i) as u32,
    }));
    PeelView { sets: sets, pending: Seq::new(3, |b: int| singleton_entries(sets[b], bl as int)), stack: seq![] }
}

/// A round after `k` rounds that left a queue non-empty.
pub proof fn lemma_rounds_step(v: PeelView, bl: u32, k: nat)
    requires
        !all_empty(rounds(v, bl, k)),
    ensures
        rounds(v, bl, k + 1) == round_spec(rounds(v, bl, k), bl),
    decreases k,
{
    assert(!all_empty(v)) by {
        if all_empty(v) {
            assert(rounds(v, bl, k) == v);
        }
    }
    assert(rounds(v, bl, k + 1) == rounds(round_spec(v, bl), bl, k));
    if k > 0 {
        assert(rounds(v, bl, k) == rounds(round_spec(v, bl), bl, (k - 1) as nat));
        lemma_rounds_step(round_spec(v, bl), bl, (k - 1) as nat);
        assert(((k - 1) as nat + 1) == k);
    }
}

/// Once every queue is empty, further rounds change nothing.
pub proof fn lemma_rounds_stable(v: PeelView, bl: u32, a: nat, c: nat)
    requires
        a <= c,
        all_empty(rounds(v, bl, a)),
    ensures
        rounds(v, bl, c) == rounds(v, bl, a),
    decreases a,
{
    if !all_empty(v) && a > 0 {
        lemma_rounds_stable(round_spec(v, bl), bl, (a - 1) as nat, (c - 1) as nat);
    }
}

/// Rounds that empty every queue reach the result of the peeling.
pub proof fn lemma_peel_result(v: PeelView, bl: u32, k: nat)
    requires
        all_empty(rounds(v, bl, k)),
    ensures
        peel_result(v, bl) == rounds(v, bl, k),
{
    let k2 = choose|k: nat| all_empty(#[trigger] rounds(v, bl, k));
    if k <= k2 {
        lemma_rounds_stable(v, bl, k, k2);
    } else {
        lemma_rounds_stable(v, bl, k2, k);
    }
}

/// The state seen from three blocks given with their numbers `b` and `o1`
/// (the third being the remaining one).
pub open spec fn assemble(b: int, x: Block, o1: int, y: Block, z: Block, stack: Seq<KeyIndex>) -> PeelView {
    PeelView {
        sets: Seq::new(3, |k: int| if k == b { x.sets@ } else if k == o1 { y.sets@ } else { z.sets@ }),
        pending: Seq::new(3, |k: int| if k == b { x.pending() } else if k == o1 { y.pending() } else { z.pending() }),
        stack: stack,
    }
}

/// The same three blocks, given starting from block 1 or block 2.
pub proof fn lemma_assemble_order(x0: Block, x1: Block, x2: Block, r: Seq<KeyIndex>)
    ensures
        assemble(1, x1, 0, x0, x2, r) == assemble(0, x0, 1, x1, x2, r),
        assemble(2, x2, 0, x0, x1, r) == assemble(0, x0, 1, x1, x2, r),
{
    assert(assemble(1, x1, 0, x0, x2, r).sets =~= assemble(0, x0, 1, x1, x2, r).sets);
    assert(assemble(1, x1, 0, x0, x2, r).pending =~= assemble(0, x0, 1, x1, x2, r).pending);
    assert(assemble(2, x2, 0, x0, x1, r).sets =~= assemble(0, x0, 1, x1, x2, r).sets);
    assert(assemble(2, x2, 0, x0, x1, r).pending =~= assemble(0, x0, 1, x1, x2, r).pending);
}

/// Handles the queue of block `b` until it is empty: each entry whose slot
/// still holds one key peels that key, which then leaves its slots in the
/// two other blocks.
pub fn drain(
    filter: &Xor,
    b: usize,
    this: &mut Block,
    o1: usize,
    other1: &mut Block,
    o2: usize,
    other2: &mut Block,
    st: &mut Peeled,
)
    requires
        b <= 2,
        other_blocks(b as int) == (o1 as int, o2 as int),
        old(st).stack_ok(filter@.block_length),
        old(this).block_ok(old(st).hs@, old(st).origin@, filter@.block_length, b as int),
        old(other1).block_ok(old(st).hs@, old(st).origin@, filter@.block_length, o1 as int),
        old(other2).block_ok(old(st).hs@, old(st).origin@, filter@.block_length, o2 as int),
    ensures
        final(st).stack_ok(filter@.block_length),
        final(st).hs == old(st).hs,
        final(this).block_ok(final(st).hs@, final(st).origin@, filter@.block_length, b as int),
        final(other1).block_ok(final(st).hs@, final(st).origin@, filter@.block_length, o1 as int),
        final(other2).block_ok(final(st).hs@, final(st).origin@, filter@.block_length, o2 as int),
        final(this).qsize == 0,
        final(st).size >= old(st).size,
        final(st).size == old(st).size ==> final(other1).qsize <= old(other1).qsize
            && final(other2).qsize <= old(other2).qsize,
        assemble(b as int, *final(this), o1 as int, *final(other1), *final(other2), final(st).record())
            == drain_spec(
            assemble(b as int, *old(this), o1 as int, *old(other1), *old(other2), old(st).record()),
            b as int,
            filter@.block_length,
        ),
{
    let bl = filter.block_len();
    let ghost hs = st.hs@;
    let ghost n = hs.len() as int;
    let ghost size0 = st.size;
    let ghost q1_0 = other1.qsize;
    let ghost q2_0 = other2.qsize;
    let ghost target = drain_spec(assemble(b as int, *this, o1 as int, *other1, *other2, st.record()), b as int, bl);
    while this.qsize > 0
        invariant
            drain_spec(assemble(b as int, *this, o1 as int, *other1, *other2, st.record()), b as int, bl) == target,
            other_blocks(b as int) == (o1 as int, o2 as int),
            bl == filter@.block_length,
            bl > 0,
            3 * bl <= u32::MAX,
            b <= 2,
            o1 <= 2,
            o2 <= 2,
            b != o1,
            b != o2,
            o1 != o2,
            st.hs@ == hs,
            n == hs.len(),
            st.stack_ok(bl),
            this.block_ok(hs, st.origin@, bl, b as int),
            other1.block_ok(hs, st.origin@, bl, o1 as int),
            other2.block_ok(hs, st.origin@, bl, o2 as int),
            st.size >= size0,
            st.size == size0 ==> other1.qsize <= q1_0 && other2.qsize <= q2_0,
        decreases this.qsize,
    {
        let ghost before = *this;
        let ghost origin = st.origin@;
        let ghost v = assemble(b as int, *this, o1 as int, *other1, *other2, st.record());
        proof {
            assert(v.pending[b as int] == this.pending());
        }
        let e = this.pop();
        proof {
            assert(this.pending() =~= v.pending[b as int].drop_last());
        }
        assert(entry_ok(e, hs, origin, bl, b as int));
        let c = this.sets[e.index as usize].count;
        if c == 0 {
            proof {
                lemma_block_after_skip(before, *this, hs, origin, bl, b as int);
                let expected = pop_step(v, b as int, bl);
                let after = assemble(b as int, *this, o1 as int, *other1, *other2, st.record());
                assert(after.sets =~= expected.sets);
                assert(after.pending =~= expected.pending);
                assert(after == expected);
            }
        } else {
            let hash = e.hash;
            let s1 = filter.slot_in(hash, o1);
            let s2 = filter.slot_in(hash, o2);
            let ghost t = lemma_count_one(member(hs, origin, bl, b as int, e.index as int), hash_of(hs), n);
            proof {
                assert(origin[t] == -1);
                assert(hs[t] == hash);
                lemma_block_after_peel(before, *this, hs, origin, bl, b as int, t);
            }
            let offset: u32 = if b == 0 {
                0
            } else if b == 1 {
                bl
            } else {
                2 * bl
            };
            let ki = KeyIndex { hash: hash, index: e.index + offset };
            st.push(ki, Ghost(bl), Ghost(t), Ghost(b as int));
            other1.remove_key(s1, hash, Ghost(hs), Ghost(origin), Ghost(bl), Ghost(o1 as int), Ghost(t), Ghost(b as int));
            other2.remove_key(s2, hash, Ghost(hs), Ghost(origin), Ghost(bl), Ghost(o2 as int), Ghost(t), Ghost(b as int));
            proof {
                assert(ki.index == (e.index + b * bl) as u32);
                let expected = pop_step(v, b as int, bl);
                let after = assemble(b as int, *this, o1 as int, *other1, *other2, st.record());
                assert(after.sets =~= expected.sets);
                assert(after.pending =~= expected.pending);
                assert(after.stack =~= expected.stack);
                assert(after == expected);
            }
        }
    }
}

/// A complete record of peeled keys is a peeling order.
pub proof fn lemma_complete_is_peelable(st: Peeled, bl: u32)
    requires
        st.stack_ok(bl),
        st.size == st.hs@.len(),
    ensures
        peelable(st.hs@, bl),
{
    let hs = st.hs@;
    let order = st.order@;
    let origin = st.origin@;
    let n = hs.len() as int;
    let blocks = Seq::new(n as nat, |p: int| origin[order[p]]);
    crate::counting::lemma_count_zero(unpeeled(origin), hash_of(hs), n);
    assert forall|t: int| 0 <= t < n implies #[trigger] order.contains(t) by {
        assert(!unpeeled(origin)(t));
        assert(order[st.pos@[t]] == t);
    }
    assert forall|p: int, q: int| 0 <= p < q < order.len() implies
        slot(hs[#[trigger] order[q]], bl, blocks[p]) != slot(hs[#[trigger] order[p]], bl, blocks[p]) by {}
    assert(is_peeling_order(hs, bl, order, blocks));
}

/// With its queue empty, a block shares the slot of each unpeeled key with
/// another unpeeled key.
pub proof fn lemma_stuck_block(blk: Block, hs: Seq<u64>, origin: Seq<int>, bl: u32, b: int, u: int) -> (w: int)
    requires
        blk.block_ok(hs, origin, bl, b),
        blk.qsize == 0,
        origin_ok(origin, hs.len() as int),
        peeled_alone(hs, origin, bl),
        0 <= b <= 2,
        bl > 0,
        0 <= u < hs.len(),
        origin[u] == -1,
    ensures
        0 <= w < hs.len(),
        w != u,
        origin[w] == -1,
        slot(hs[w], bl, b) == slot(hs[u], bl, b),
{
    let n = hs.len() as int;
    let i = slot(hs[u], bl, b);
    crate::xor::lemma_slot_bound(hs[u], bl, b);
    let m = member(hs, origin, bl, b, i);
    let others = |t: int| m(t) && t != u;
    assert forall|t: int| 0 <= t < n && t != u implies #[trigger] m(t) == others(t) by {}
    lemma_drop_one(m, others, hash_of(hs), n, u);
    if slot_count(hs, origin, bl, b, i) == 1 {
        let s = choose|s: int| 0 <= s < n && #[trigger] origin[s] == b && slot(hs[s], bl, b) == i;
        assert(m(s) && m(u));
        lemma_two_members(m, n, s, u);
    }
    let w = lemma_count_positive(others, n);
    if origin[w] != -1 {
        assert(origin[w] == b);
        assert(slot_count(hs, origin, bl, origin[w], slot(hs[w], bl, origin[w])) == 1);
    }
    w
}

/// The first place in `order` that holds a key with property `c`.
pub proof fn lemma_first_in(order: Seq<int>, c: spec_fn(int) -> bool, k: int) -> (m: int)
    requires
        0 <= k < order.len(),
        c(order[k]),
    ensures
        0 <= m <= k,
        c(order[m]),
        forall|j: int| 0 <= j < m ==> !c(#[trigger] order[j]),
    decreases k,
{
    if exists|j: int| 0 <= j < k && c(#[trigger] order[j]) {
        let j = choose|j: int| 0 <= j < k && c(#[trigger] order[j]);
        lemma_first_in(order, c, j)
    } else {
        k
    }
}

/// When every queue is empty and some key is still unpeeled, the keys
/// cannot be peeled in any order: the unpeeled ones share every slot they
/// use.
pub proof fn lemma_stuck_not_peelable(st: Peeled, b0: Block, b1: Block, b2: Block, bl: u32)
    requires
        st.stack_ok(bl),
        st.size < st.hs@.len(),
        bl > 0,
        b0.block_ok(st.hs@, st.origin@, bl, 0),
        b1.block_ok(st.hs@, st.origin@, bl, 1),
        b2.block_ok(st.hs@, st.origin@, bl, 2),
        b0.qsize == 0,
        b1.qsize == 0,
        b2.qsize == 0,
    ensures
        !peelable(st.hs@, bl),
{
    let hs = st.hs@;
    let origin = st.origin@;
    let n = hs.len() as int;
    if peelable(hs, bl) {
        let (order, blocks) = choose|order: Seq<int>, blocks: Seq<int>| is_peeling_order(hs, bl, order, blocks);
        let u = lemma_count_positive(unpeeled(origin), n);
        assert(order.contains(u));
        let k = choose|k: int| 0 <= k < order.len() && order[k] == u;
        let m = lemma_first_in(order, unpeeled(origin), k);
        let u0 = order[m];
        let b = blocks[m];
        let w = if b == 0 {
            lemma_stuck_block(b0, hs, origin, bl, 0, u0)
        } else if b == 1 {
            lemma_stuck_block(b1, hs, origin, bl, 1, u0)
        } else {
            lemma_stuck_block(b2, hs, origin, bl, 2, u0)
        };
        assert(order.contains(w));
        let q = choose|q: int| 0 <= q < order.len() && order[q] == w;
        assert(unpeeled(origin)(w));
        if q < m {
            assert(!unpeeled(origin)(order[q]));
        }
        assert(slot(hs[order[q]], bl, blocks[m]) != slot(hs[order[m]], bl, blocks[m]));
    }
}

/// Peeling key `t` from slot `slot(hs[t], bl, b)` of block `b`, where it is
/// alone, keeps every peeled key alone in its slot.
pub proof fn lemma_peel_keeps_alone(hs: Seq<u64>, origin: Seq<int>, bl: u32, t: int, b: int)
    requires
        origin_ok(origin, hs.len() as int),
        peeled_alone(hs, origin, bl),
        0 <= t < hs.len(),
        origin[t] == -1,
        0 <= b <= 2,
        slot_count(hs, origin, bl, b, slot(hs[t], bl, b)) == 1,
    ensures
        peeled_alone(hs, origin.update(t, b), bl),
{
    let origin2 = origin.update(t, b);
    let n = hs.len() as int;
    assert forall|u: int| 0 <= u < n && #[trigger] origin2[u] != -1 implies
        slot_count(hs, origin2, bl, origin2[u], slot(hs[u], bl, origin2[u])) == 1 by {
        let bu = origin2[u];
        let su = slot(hs[u], bl, bu);
        let pa = member(hs, origin, bl, bu, su);
        let pb = member(hs, origin2, bl, bu, su);
        if u != t {
            assert(origin[u] == bu);
            assert(slot_count(hs, origin, bl, bu, su) == 1);
            if bu != b && slot(hs[t], bl, bu) == su {
                assert(pa(t) && pa(u));
                lemma_two_members(pa, n, t, u);
            }
        }
        assert forall|s: int| 0 <= s < n implies #[trigger] pa(s) == pb(s) by {}
        lemma_agree(pa, pb, hash_of(hs), n);
    }
}

} // verus!
