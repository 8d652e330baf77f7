//! The steps by which the thread that owns a queue and the holders of its batches share it.
//!
//! Each step reads or changes the shared words once, so every interleaving of the threads is a
//! sequence of these steps.
use vstd::prelude::*;

use crate::ledger::Ledger;

verus! {

/// A slot word and an occupancy word.
pub struct Words {
    pub slot: usize,
    pub occupancy: usize,
}

/// How far the owner of the queue is with adding a task.
pub enum Producer {
    /// It adds none.
    Idle,
    /// The tail may be written.
    Admitted,
    /// The task began a batch, which the occupancy word does not count yet.
    Claimed,
}

/// A queue of buffer length `n`: the words that threads share, the copies that its owner keeps,
/// and the bookkeeping.
pub struct System {
    pub n: int,
    pub shared: Words,
    pub local: Words,
    pub ledger: Ledger,
    pub producer: Producer,
}

/// A slot whose position counter moved on by one, around its end.
pub open spec fn next_slot(slot: usize) -> usize {
    let sum = slot + crate::helpers::counter_modulus();
    if sum <= usize::MAX {
        sum as usize
    } else {
        (sum - usize::MAX - 1) as usize
    }
}

/// A slot whose phase changed.
pub open spec fn flipped(slot: usize) -> usize {
    if slot % 2 == 0 {
        (slot + 1) as usize
    } else {
        (slot - 1) as usize
    }
}

impl System {
    /// A queue before its first task.
    pub open spec fn initial(n: int) -> System {
        System {
            n,
            shared: Words { slot: 0, occupancy: 0 },
            local: Words { slot: crate::helpers::PHASE, occupancy: 0 },
            ledger: Ledger::empty(),
            producer: Producer::Idle,
        }
    }

    /// The batches that the occupancy word counts in region `r`.
    pub open spec fn counted(self, r: int) -> int {
        self.ledger.begun_in(self.n, r).len() - if self.producer is Claimed && r == self.frontier() {
            1int
        } else {
            0
        }
    }

    /// The region that the owner wrote last. It alone can have more live batches than its byte of
    /// the occupancy word counts; the carry is in the byte of the next region then.
    pub open spec fn frontier(self) -> int {
        crate::ledger::region_at(self.n, self.ledger.tail - 1)
    }

    /// The byte of region `r` has nothing to do with a carry.
    pub open spec fn aside(self, r: int) -> bool {
        &&& 0 <= r < crate::helpers::REGION_COUNT
        &&& r != self.frontier()
        &&& r != self.frontier() + 1
    }

    /// What the occupancy word counts in the region that was written last and in the next one.
    pub open spec fn counted_from(self) -> int {
        if self.frontier() + 1 < crate::helpers::REGION_COUNT {
            self.counted(self.frontier()) + 256 * self.counted(self.frontier() + 1)
        } else {
            self.counted(self.frontier())
        }
    }

    /// What holds between any two steps.
    pub open spec fn inv(self) -> bool {
        &&& crate::valid_len(self.n)
        &&& self.ledger.wf(self.n)
        &&& crate::helpers::counter(self.shared.slot) == self.ledger.tail
            % crate::helpers::counter_modulus()
        &&& crate::helpers::counter(self.local.slot) == self.ledger.tail
            % crate::helpers::counter_modulus()
        &&& crate::helpers::flags(self.shared.slot) <= 1
        &&& crate::helpers::flags(self.local.slot) <= 1
        &&& self.ledger.open is Some <==> crate::helpers::flags(self.shared.slot)
            == crate::helpers::flags(self.local.slot)
        &&& forall|r: int|
            self.aside(r) ==> #[trigger] crate::helpers::regional(self.shared.occupancy, r)
                == self.counted(r)
        &&& crate::helpers::frontal(self.shared.occupancy, self.frontier()) == self.counted_from()
        &&& forall|r: int|
            self.aside(r) ==> #[trigger] crate::helpers::regional(self.local.occupancy, r)
                >= crate::helpers::regional(self.shared.occupancy, r)
        &&& crate::helpers::frontal(self.local.occupancy, self.frontier())
            >= crate::helpers::frontal(self.shared.occupancy, self.frontier())
        &&& self.producer is Admitted ==> {
            &&& self.ledger.admits(self.n)
            &&& self.at_checkpoint() ==> crate::helpers::regional(
                self.local.occupancy,
                self.write_region(),
            ) == 0
        }
        &&& self.producer is Claimed ==> {
            &&& self.ledger.open == Some(self.ledger.tail - 1)
            &&& self.ledger.begun_from(self.n, self.frontier()) <= crate::helpers::frontal_max(
                self.frontier(),
            )
        }
    }

    /// The buffer index that the owner writes next.
    pub open spec fn write_index(self) -> int {
        crate::helpers::counter(self.local.slot) % self.n
    }

    /// The next write enters a region, which has to be free for it.
    pub open spec fn at_checkpoint(self) -> bool {
        self.write_index() % crate::helpers::region_len(self.n) == 0
    }

    /// The region that the owner writes next.
    pub open spec fn write_region(self) -> int {
        crate::helpers::region_of(self.n, self.write_index())
    }

    /// The owner learned that the tail may be written: it lies inside of a region, or the copy of
    /// the occupancy word has the region free.
    pub open spec fn can_admit(self) -> bool {
        &&& self.producer is Idle
        &&& self.at_checkpoint() ==> crate::helpers::regional(
            self.local.occupancy,
            self.write_region(),
        ) == 0
    }

    pub open spec fn admitted(self) -> System {
        System { producer: Producer::Admitted, ..self }
    }

    /// The owner brought its copy of the occupancy word up to date.
    pub open spec fn loaded(self) -> System {
        System {
            local: Words { occupancy: self.shared.occupancy, ..self.local },
            ..self
        }
    }

    /// The region of an index is free by the owner's copy of the occupancy word or by the shared one.
    pub open spec fn regionally_free(self, index: int) -> bool {
        let r = crate::helpers::region_of(self.n, index);
        ||| crate::helpers::regional(self.local.occupancy, r) == 0
        ||| crate::helpers::regional(self.shared.occupancy, r) == 0
    }

    /// The owner looked whether the region of an index is free. Its copy stays where it says so, and
    /// is brought up to date otherwise.
    pub open spec fn checked(self, index: int) -> System {
        if crate::helpers::regional(self.local.occupancy, crate::helpers::region_of(self.n, index))
            == 0 {
            self
        } else {
            self.loaded()
        }
    }

    /// What the shared words are once a task was accepted: the position counter moved on by one, and
    /// a batch that began is counted in the region of its first index.
    pub open spec fn shared_after_push(self) -> Words {
        Words {
            slot: next_slot(self.shared.slot),
            occupancy: if self.ledger.open is None {
                (self.shared.occupancy + crate::helpers::region_unit(self.write_region())) as usize
            } else {
                self.shared.occupancy
            },
        }
    }

    /// The task at the tail begins a batch.
    pub open spec fn begins_batch(self) -> bool {
        crate::helpers::flags(self.shared.slot) != crate::helpers::flags(self.local.slot)
    }

    /// The owner may move the tail on.
    pub open spec fn can_claim(self) -> bool {
        &&& self.producer is Admitted
        &&& self.begins_batch() ==> self.ledger.has_room(self.n)
    }

    pub open spec fn claimed(self) -> System {
        System {
            shared: Words { slot: next_slot(self.shared.slot), ..self.shared },
            local: Words { slot: next_slot(self.shared.slot), ..self.local },
            ledger: self.ledger.pushed(),
            producer: if self.begins_batch() {
                Producer::Claimed
            } else {
                Producer::Idle
            },
            ..self
        }
    }

    /// The owner may count the batch it began.
    pub open spec fn can_register(self) -> bool {
        self.producer is Claimed
    }

    pub open spec fn registered(self) -> System {
        let occupancy = (self.shared.occupancy + crate::helpers::region_unit(
            self.frontier(),
        )) as usize;
        System {
            shared: Words { occupancy, ..self.shared },
            local: Words { occupancy, ..self.local },
            producer: Producer::Idle,
            ..self
        }
    }

    /// The batch at `s` is in the hands of a holder, and grows.
    pub open spec fn can_bound(self, s: int) -> bool {
        &&& self.ledger.open == Some(s)
        &&& !(self.producer is Claimed)
    }

    pub open spec fn bounded(self) -> System {
        System {
            shared: Words { slot: flipped(self.shared.slot), ..self.shared },
            ledger: self.ledger.bounded(),
            ..self
        }
    }

    /// The batch at `s` is in the hands of a holder, and grows no more.
    pub open spec fn can_release(self, s: int) -> bool {
        &&& self.ledger.spans.dom().contains(s)
        &&& self.ledger.open != Some(s)
    }

    pub open spec fn can_take(self, s: int) -> bool {
        &&& self.can_release(s)
        &&& self.ledger.spans[s].front < self.ledger.spans[s].end
    }

    pub open spec fn taken(self, s: int) -> System {
        System { ledger: self.ledger.taken(s), ..self }
    }

    pub open spec fn released(self, s: int) -> System {
        System {
            shared: Words {
                occupancy: (self.shared.occupancy - crate::helpers::region_unit(
                    crate::ledger::region_at(self.n, s),
                )) as usize,
                ..self.shared
            },
            ledger: self.ledger.released(s),
            ..self
        }
    }
}

/// A slot is its counter and its flags.
proof fn lemma_slot_parts(slot: usize)
    ensures
        slot == crate::helpers::counter(slot) * crate::helpers::counter_modulus()
            + crate::helpers::flags(slot),
        0 <= crate::helpers::counter(slot) < crate::helpers::counter_modulus(),
        0 <= crate::helpers::flags(slot) < crate::helpers::counter_modulus(),
        crate::helpers::flags(slot) % 2 == slot % 2,
{
    crate::helpers::lemma_widths();
}

pub proof fn lemma_next_slot(slot: usize)
    ensures
        crate::helpers::counter(next_slot(slot)) == (crate::helpers::counter(slot) + 1)
            % crate::helpers::counter_modulus(),
        crate::helpers::flags(next_slot(slot)) == crate::helpers::flags(slot),
{
    crate::helpers::lemma_widths();
    lemma_slot_parts(slot);
    lemma_slot_parts(next_slot(slot));
}

pub proof fn lemma_flipped(slot: usize)
    ensures
        slot ^ 1 == flipped(slot),
        crate::helpers::counter(flipped(slot)) == crate::helpers::counter(slot),
        crate::helpers::flags(slot) <= 1 ==> crate::helpers::flags(flipped(slot)) == 1
            - crate::helpers::flags(slot),
{
    crate::helpers::lemma_widths();
    lemma_slot_parts(slot);
    lemma_slot_parts(flipped(slot));
    assert(slot % 2 == 0 ==> (slot ^ 1) == slot + 1) by (bit_vector);
    assert(slot % 2 == 1 ==> (slot ^ 1) == slot - 1) by (bit_vector);
}

/// Two slots without other flags have different phases exactly when their exclusive or has the
/// phase bit.
pub proof fn lemma_phases(a: usize, b: usize)
    requires
        crate::helpers::flags(a) <= 1,
        crate::helpers::flags(b) <= 1,
    ensures
        (a ^ b) & crate::helpers::PHASE != 0 <==> crate::helpers::flags(a)
            != crate::helpers::flags(b),
{
    lemma_slot_parts(a);
    lemma_slot_parts(b);
    assert((a ^ b) & 1 != 0 <==> a % 2 != b % 2) by (bit_vector);
}

impl System {
    /// A new queue satisfies the invariant.
    pub proof fn lemma_initial(n: int)
        requires
            crate::valid_len(n),
        ensures
            System::initial(n).inv(),
    {
        crate::helpers::lemma_widths();
        let sys = System::initial(n);
        lemma_slot_parts(sys.local.slot);
        crate::ledger::lemma_frontier(n, 0);
        assert forall|r: int| 0 <= r < crate::helpers::REGION_COUNT implies #[trigger]
            crate::helpers::regional(0, r) == 0 by {
            crate::helpers::lemma_unit_bounds(r);
            vstd::arithmetic::div_mod::lemma_div_basics(crate::helpers::region_unit(r));
        }
        assert forall|r: int| #[trigger] sys.counted(r) == 0 by {
            assert(sys.ledger.begun_in(n, r) =~= Set::<int>::empty());
        }
    }

    /// The index that the owner writes next is the cell of the tail.
    pub proof fn lemma_write_index(self)
        requires
            self.inv(),
        ensures
            self.write_index() == self.ledger.tail % self.n,
            0 <= self.write_index() < self.n,
            self.write_region() == crate::ledger::region_at(self.n, self.ledger.tail),
            0 <= self.write_region() < crate::helpers::REGION_COUNT,
            self.at_checkpoint() <==> self.ledger.tail % crate::helpers::region_len(self.n) == 0,
    {
        lemma_counter_index(self.n, self.ledger.tail);
        crate::ledger::lemma_region_at(self.n, self.ledger.tail);
    }
}

/// The position counter finds the right cell, also after it wrapped around.
pub proof fn lemma_counter_index(n: int, p: int)
    requires
        crate::valid_len(n),
        0 <= p,
    ensures
        (p % crate::helpers::counter_modulus()) % n == p % n,
{
    crate::helpers::lemma_widths();
    let k = crate::helpers::lemma_len_exponent(n);
    let h = crate::helpers::INDEX_SHIFT as nat;
    vstd::arithmetic::power2::lemma_pow2_adds(k, (h - k) as nat);
    vstd::arithmetic::power2::lemma_pow2_pos((h - k) as nat);
    let m = vstd::arithmetic::power2::pow2((h - k) as nat) as int;
    assert(crate::helpers::counter_modulus() == n * m);
    vstd::arithmetic::div_mod::lemma_mod_mod(p, n, m);
}

impl System {
    /// What the occupancy words say at a checkpoint: the byte of the region that would be entered is
    /// zero in the shared word exactly where the books admit the tail, and wherever it is zero in
    /// the owner's copy, which does not count less elsewhere either.
    proof fn lemma_checkpoint(self)
        requires
            self.inv(),
            !(self.producer is Claimed),
            self.at_checkpoint(),
        ensures
            crate::helpers::regional(self.shared.occupancy, self.write_region()) == 0
                <==> self.ledger.admits(self.n),
            self.ledger.admits(self.n) ==> crate::helpers::regional(
                self.shared.occupancy,
                self.frontier(),
            ) == self.counted(self.frontier()),
            crate::helpers::regional(self.local.occupancy, self.write_region()) == 0 ==> {
                &&& crate::helpers::regional(self.shared.occupancy, self.write_region()) == 0
                &&& crate::helpers::regional(self.local.occupancy, self.frontier())
                    >= crate::helpers::regional(self.shared.occupancy, self.frontier())
            },
    {
        crate::helpers::lemma_widths();
        self.lemma_write_index();
        crate::ledger::lemma_frontier(self.n, self.ledger.tail);
        let w = self.frontier();
        let r = self.write_region();
        self.ledger.lemma_begun_in_bound(self.n, r);
        if self.ledger.begun_in(self.n, r).len() == 0 {
            assert(self.ledger.begun_in(self.n, r) =~= Set::<int>::empty());
        }
        if w + 1 == crate::helpers::REGION_COUNT {
            assert(self.aside(r));
            assert(crate::helpers::regional(self.shared.occupancy, r) == self.counted(r));
            assert(crate::helpers::regional(self.local.occupancy, r) >= crate::helpers::regional(
                self.shared.occupancy,
                r,
            ));
        }
    }

    /// Learning that the tail may be written keeps the invariant.
    pub proof fn lemma_admitted(self)
        requires
            self.inv(),
            self.can_admit(),
        ensures
            self.admitted().inv(),
            self.ledger.admits(self.n),
    {
        self.lemma_write_index();
        if self.at_checkpoint() {
            self.lemma_checkpoint();
        }
        let next = self.admitted();
        assert(forall|r: int| self.counted(r) == #[trigger] next.counted(r));
    }

    /// Bringing the copy of the occupancy word up to date keeps the invariant.
    pub proof fn lemma_loaded(self)
        requires
            self.inv(),
            self.producer is Idle,
        ensures
            self.loaded().inv(),
            self.at_checkpoint() && crate::helpers::regional(
                self.shared.occupancy,
                self.write_region(),
            ) != 0 <==> !self.ledger.admits(self.n),
    {
        self.lemma_write_index();
        if self.at_checkpoint() {
            self.lemma_checkpoint();
        }
        let next = self.loaded();
        assert(forall|r: int| self.counted(r) == #[trigger] next.counted(r));
    }

    /// Looking whether the region that would be entered is free keeps the invariant, and tells
    /// whether the books admit the tail.
    pub proof fn lemma_checked(self)
        requires
            self.inv(),
            self.producer is Idle,
            self.at_checkpoint(),
        ensures
            self.checked(self.write_index()).inv(),
            self.checked(self.write_index()).producer is Idle,
            self.checked(self.write_index()).ledger == self.ledger,
            self.regionally_free(self.write_index()) <==> self.ledger.admits(self.n),
            self.regionally_free(self.write_index()) ==> self.checked(
                self.write_index(),
            ).can_admit(),
    {
        self.lemma_write_index();
        self.lemma_checkpoint();
        self.lemma_loaded();
    }

    /// Moving the tail on keeps the invariant.
    pub proof fn lemma_claimed(self)
        requires
            self.inv(),
            self.can_claim(),
        ensures
            self.claimed().inv(),
            self.begins_batch() <==> self.ledger.open is None,
    {
        crate::helpers::lemma_widths();
        lemma_next_slot(self.shared.slot);
        self.ledger.lemma_pushed(self.n);
        self.lemma_write_index();
        crate::ledger::lemma_frontier(self.n, self.ledger.tail);
        let next = self.claimed();
        let tail = self.ledger.tail;
        let m = crate::helpers::counter_modulus();
        vstd::arithmetic::div_mod::lemma_add_mod_noop(tail, 1, m);
        vstd::arithmetic::div_mod::lemma_small_mod(1, m as nat);
        assert((tail + 1) % m == (tail % m + 1) % m);
        let w = self.frontier();
        let r = next.frontier();
        assert(r == self.write_region());
        assert forall|q: int| self.counted(q) == #[trigger] next.counted(q) by {
            self.ledger.lemma_begun_in_bound(self.n, q);
            assert(next.ledger.begun_in(self.n, q) == self.ledger.pushed().begun_in(self.n, q));
        }
        if self.at_checkpoint() {
            self.lemma_checkpoint();
            if r + 1 < crate::helpers::REGION_COUNT {
                assert(self.aside(r + 1));
                assert(crate::helpers::regional(self.shared.occupancy, r + 1) == self.counted(
                    r + 1,
                ));
                assert(crate::helpers::regional(self.local.occupancy, r + 1)
                    >= crate::helpers::regional(self.shared.occupancy, r + 1));
            }
            assert forall|q: int| #[trigger] next.aside(q) implies crate::helpers::regional(
                next.shared.occupancy,
                q,
            ) == next.counted(q) && crate::helpers::regional(next.local.occupancy, q)
                >= crate::helpers::regional(next.shared.occupancy, q) by {
                if q != w {
                    assert(self.aside(q));
                    assert(crate::helpers::regional(self.shared.occupancy, q) == self.counted(q));
                    assert(crate::helpers::regional(self.local.occupancy, q)
                        >= crate::helpers::regional(self.shared.occupancy, q));
                }
            }
        }
        if self.begins_batch() {
            self.ledger.lemma_begun_in_bound(self.n, r);
            assert(next.ledger.begun_in(self.n, r) == self.ledger.pushed().begun_in(self.n, r));
            assert(next.ledger.begun_in(self.n, r + 1) == self.ledger.pushed().begun_in(
                self.n,
                r + 1,
            ));
        }
    }

    /// Counting the batch that was begun keeps the invariant.
    pub proof fn lemma_registered(self)
        requires
            self.inv(),
            self.can_register(),
        ensures
            self.registered().inv(),
            self.shared.occupancy + crate::helpers::region_unit(self.frontier()) <= usize::MAX,
    {
        let next = self.registered();
        let w = self.frontier();
        crate::ledger::lemma_frontier(self.n, self.ledger.tail);
        assert(next.frontier() == w);
        assert(self.counted_from() + 1 == self.ledger.begun_from(self.n, w));
        crate::helpers::lemma_frontal_add(self.shared.occupancy, w);
        assert forall|q: int| #[trigger] next.aside(q) implies crate::helpers::regional(
            next.shared.occupancy,
            q,
        ) == next.counted(q) by {
            assert(self.aside(q));
            assert(crate::helpers::regional(self.shared.occupancy, q) == self.counted(q));
        }
    }

    /// Bounding the batch that grows keeps the invariant.
    pub proof fn lemma_bounded(self, s: int)
        requires
            self.inv(),
            self.can_bound(s),
        ensures
            self.bounded().inv(),
    {
        lemma_flipped(self.shared.slot);
        lemma_slot_parts(self.shared.slot);
        let next = self.bounded();
        assert forall|r: int| #[trigger]
            next.ledger.begun_in(self.n, r) == self.ledger.begun_in(self.n, r) by {
            assert(next.ledger.begun_in(self.n, r) =~= self.ledger.begun_in(self.n, r));
        }
        assert(forall|r: int| self.counted(r) == #[trigger] next.counted(r));
    }

    /// Taking a task out keeps the invariant.
    pub proof fn lemma_taken(self, s: int)
        requires
            self.inv(),
            self.can_take(s),
        ensures
            self.taken(s).inv(),
    {
        self.ledger.lemma_taken(self.n, s);
        let next = self.taken(s);
        assert forall|r: int| #[trigger]
            next.ledger.begun_in(self.n, r) == self.ledger.begun_in(self.n, r) by {
            assert(self.ledger.taken(s).begun_in(self.n, r) == self.ledger.begun_in(self.n, r));
        }
        assert(forall|r: int| self.counted(r) == #[trigger] next.counted(r));
    }

    /// Giving up a range keeps the invariant.
    pub proof fn lemma_released(self, s: int)
        requires
            self.inv(),
            self.can_release(s),
        ensures
            self.released(s).inv(),
            self.shared.occupancy >= crate::helpers::region_unit(
                crate::ledger::region_at(self.n, s),
            ),
    {
        crate::helpers::lemma_widths();
        self.ledger.lemma_released(self.n, s);
        crate::ledger::lemma_frontier(self.n, self.ledger.tail);
        let next = self.released(s);
        let w = self.frontier();
        let r = crate::ledger::region_at(self.n, s);
        crate::ledger::lemma_region_at(self.n, s);
        assert forall|q: int| #[trigger] next.counted(q) == self.counted(q) - if q == r {
            1int
        } else {
            0
        } by {
            self.ledger.lemma_begun_in_bound(self.n, q);
            assert(next.ledger.begun_in(self.n, q) == self.ledger.released(s).begun_in(self.n, q));
        }
        assert forall|q: int| #[trigger] self.counted(q) >= if q == r {
            1int
        } else {
            0
        } by {
            self.ledger.lemma_begun_in_bound(self.n, q);
            let set = self.ledger.begun_in(self.n, q);
            if q == r {
                assert(set.contains(s));
                assert(set.len() > 0);
            }
            if self.producer is Claimed && q == w {
                let own = self.ledger.tail - 1;
                assert(set.contains(own));
                assert(set.len() > 0);
                if q == r {
                    assert(set.remove(own).contains(s));
                    assert(set.remove(own).len() > 0);
                }
            }
        }
        assert(self.counted(w) >= 0 && self.counted(w + 1) >= 0 && self.counted(r) >= 1);
        if r == w {
            crate::helpers::lemma_frontal_sub(self.shared.occupancy, r);
        } else {
            if r != w + 1 {
                assert(self.aside(r));
            }
            crate::helpers::lemma_regional_sub(self.shared.occupancy, r);
        }
        assert forall|q: int| #[trigger] next.aside(q) implies crate::helpers::regional(
            next.shared.occupancy,
            q,
        ) == next.counted(q) && crate::helpers::regional(next.local.occupancy, q)
            >= crate::helpers::regional(next.shared.occupancy, q) by {
            assert(self.aside(q));
            assert(crate::helpers::regional(self.shared.occupancy, q) == self.counted(q));
            assert(crate::helpers::regional(self.local.occupancy, q) >= crate::helpers::regional(
                self.shared.occupancy,
                q,
            ));
        }
        if self.producer is Admitted {
            let q = crate::ledger::region_at(self.n, self.ledger.tail);
            self.ledger.lemma_begun_in_bound(self.n, w);
            assert(next.ledger.begun_in(self.n, q) == self.ledger.released(s).begun_in(self.n, q));
            assert(next.ledger.begun_in(self.n, w) == self.ledger.released(s).begun_in(self.n, w));
        }
        if self.producer is Claimed {
            self.ledger.lemma_begun_in_bound(self.n, w);
            self.ledger.lemma_begun_in_bound(self.n, w + 1);
            assert(next.ledger.begun_in(self.n, w) == self.ledger.released(s).begun_in(self.n, w));
            assert(next.ledger.begun_in(self.n, w + 1) == self.ledger.released(s).begun_in(
                self.n,
                w + 1,
            ));
        }
    }
}

impl System {
    /// The next state after one step of the owner of the queue or of the holder of a batch.
    pub open spec fn steps_to(self, next: System) -> bool {
        ||| self.can_admit() && next == self.admitted()
        ||| self.producer is Idle && next == self.loaded()
        ||| self.can_claim() && next == self.claimed()
        ||| self.can_register() && next == self.registered()
        ||| exists|s: int| #[trigger] self.can_bound(s) && next == self.bounded()
        ||| exists|s: int| #[trigger] self.can_take(s) && next == self.taken(s)
        ||| exists|s: int| #[trigger] self.can_release(s) && next == self.released(s)
    }

    /// Every step keeps the invariant.
    pub proof fn lemma_step(self, next: System)
        requires
            self.inv(),
            self.steps_to(next),
        ensures
            next.inv(),
            next.n == self.n,
    {
        if self.can_admit() && next == self.admitted() {
            self.lemma_admitted();
        } else if self.producer is Idle && next == self.loaded() {
            self.lemma_loaded();
        } else if self.can_claim() && next == self.claimed() {
            self.lemma_claimed();
        } else if self.can_register() && next == self.registered() {
            self.lemma_registered();
        } else if exists|s: int| #[trigger] self.can_bound(s) && next == self.bounded() {
            let s = choose|s: int| #[trigger] self.can_bound(s) && next == self.bounded();
            self.lemma_bounded(s);
        } else if exists|s: int| #[trigger] self.can_take(s) && next == self.taken(s) {
            let s = choose|s: int| #[trigger] self.can_take(s) && next == self.taken(s);
            self.lemma_taken(s);
        } else {
            let s = choose|s: int| #[trigger] self.can_release(s) && next == self.released(s);
            self.lemma_released(s);
        }
    }
}

} // verus!
