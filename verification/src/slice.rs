//! Batches that end where the buffer ends.
//!
//! Slots of such a queue have two phase bits, of which the active one alternates with each lap
//! around the buffer: a batch that reaches the end of the buffer is bounded by that.
use vstd::prelude::*;

use crate::queue::{BufferCell, Inner};

verus! {

/// The lap around a buffer of length `n` in which a slot is.
pub open spec fn lap(n: int, slot: usize) -> int {
    crate::helpers::counter(slot) / n
}

/// Two slots are in laps that the active phase bit does not tell apart.
pub open spec fn same_parity(n: int, a: usize, b: usize) -> bool {
    lap(n, a) % 2 == lap(n, b) % 2
}

/// The bit of a slot that holds the parity of its lap.
proof fn lemma_lap_bit<const N: usize>(a: usize, b: usize) -> (e: usize)
    requires
        crate::valid_len(N as int),
    ensures
        e < usize::BITS,
        N << crate::helpers::INDEX_SHIFT == 1usize << e,
        (1usize << e) & (a ^ b) == 0 <==> same_parity(N as int, a, b),
        (1usize << e) & a == 0 <==> lap(N as int, a) % 2 == 0,
{
    crate::helpers::lemma_widths();
    let k = crate::helpers::lemma_len_exponent(N as int);
    let h = crate::helpers::INDEX_SHIFT as nat;
    let e = (h + k) as usize;
    vstd::arithmetic::power2::lemma_pow2_adds(h, k);
    vstd::bits::lemma_usize_pow2_no_overflow((h + k) as nat);
    assert(N * vstd::arithmetic::power2::pow2(h) == vstd::arithmetic::power2::pow2(h)
        * vstd::arithmetic::power2::pow2(k)) by (nonlinear_arith)
        requires
            N == vstd::arithmetic::power2::pow2(k),
    ;
    vstd::bits::lemma_usize_shl_is_mul(N, crate::helpers::INDEX_SHIFT);
    vstd::bits::lemma_usize_shl_is_mul(1, e);
    lemma_shifted_lap::<N>(a, e, k);
    lemma_shifted_lap::<N>(b, e, k);
    assert((1usize << e) & (a ^ b) == 0 <==> (a >> e) & 1 == (b >> e) & 1) by (bit_vector)
        requires
            e < usize::BITS,
    ;
    assert((1usize << e) & a == 0 <==> (a >> e) & 1 == 0) by (bit_vector)
        requires
            e < usize::BITS,
    ;
    e
}

proof fn lemma_shifted_lap<const N: usize>(slot: usize, e: usize, k: nat)
    requires
        crate::valid_len(N as int),
        N == vstd::arithmetic::power2::pow2(k),
        e == crate::helpers::INDEX_SHIFT + k,
        e < usize::BITS,
    ensures
        (slot >> e) & 1 == lap(N as int, slot) % 2,
{
    crate::helpers::lemma_widths();
    let h = crate::helpers::INDEX_SHIFT as nat;
    vstd::arithmetic::power2::lemma_pow2_adds(h, k);
    vstd::bits::lemma_usize_shr_is_div(slot, e);
    vstd::arithmetic::div_mod::lemma_div_denominator(
        slot as int,
        crate::helpers::counter_modulus(),
        N as int,
    );
    let x = slot >> e;
    assert(x & 1 == x % 2) by (bit_vector);
}

/// The phase bit that is active in the lap of a slot.
pub fn active_phase_bit<const N: usize>(slot: usize) -> (bit: usize)
    requires
        crate::valid_len(N as int),
    ensures
        bit == if lap(N as int, slot) % 2 == 0 {
            1usize
        } else {
            2usize
        },
{
    proof {
        crate::helpers::lemma_widths();
        let e = lemma_lap_bit::<N>(slot, slot);
    }
    if (N << crate::helpers::INDEX_SHIFT) & slot == 0 {
        1
    } else {
        2
    }
}

/// A batch from `base_slot` on that has not been bounded yet.
pub struct UnboundedSlice<T, const N: usize> {
    base_slot: usize,
    task: core::marker::PhantomData<T>,
}

/// The indices of a batch from slot `base` on that is bounded while the queue is at slot `end`: it
/// goes to the end of the buffer where the queue has begun another lap by then.
pub open spec fn slice_bounds(n: int, base: usize, end: usize) -> (int, int) {
    (
        crate::helpers::counter(base) % n,
        if same_parity(n, base, end) {
            crate::helpers::counter(end) % n
        } else {
            n
        },
    )
}

impl<T, const N: usize> UnboundedSlice<T, N> {
    /// The slot at which the batch begins.
    pub closed spec fn base_slot(&self) -> usize {
        self.base_slot
    }

    pub fn new(base_slot: usize) -> (slice: Self)
        ensures
            slice.base_slot() == base_slot,
    {
        UnboundedSlice { base_slot, task: core::marker::PhantomData }
    }

    /// Ends the batch where the queue is, and gives the indices of both ends.
    fn set_bounds(&self, queue: &mut Inner<BufferCell<T>, N>) -> (bounds: (usize, usize))
        requires
            crate::valid_len(N as int),
        ensures
            (bounds.0 as int, bounds.1 as int) == slice_bounds(
                N as int,
                self.base_slot(),
                old(queue).slot(),
            ),
            bounds.0 < N,
            bounds.1 <= N,
            final(queue).slot() == old(queue).slot() ^ (if lap(N as int, self.base_slot()) % 2 == 0 {
                1usize
            } else {
                2usize
            }),
            final(queue).occupancy() == old(queue).occupancy(),
            final(queue).buffer() == old(queue).buffer(),
    {
        let phase_bit = active_phase_bit::<N>(self.base_slot);
        let end_slot = queue.xor_slot(phase_bit);
        proof {
            crate::helpers::lemma_widths();
            let e = lemma_lap_bit::<N>(self.base_slot, end_slot);
        }
        let start = crate::helpers::slot_index::<N>(self.base_slot);
        if (N << crate::helpers::INDEX_SHIFT) & (self.base_slot ^ end_slot) == 0 {
            (start, crate::helpers::slot_index::<N>(end_slot))
        } else {
            (start, N)
        }
    }

    /// Bounds the batch.
    pub fn into_bounded(self, queue: &mut Inner<BufferCell<T>, N>) -> (slice: BoundedSlice<T, N>)
        requires
            crate::valid_len(N as int),
        ensures
            (slice.start() as int, slice.end() as int) == slice_bounds(
                N as int,
                self.base_slot(),
                old(queue).slot(),
            ),
            slice.start() < N,
            slice.end() <= N,
            final(queue).slot() == old(queue).slot() ^ (if lap(N as int, self.base_slot()) % 2 == 0 {
                1usize
            } else {
                2usize
            }),
            final(queue).occupancy() == old(queue).occupancy(),
            final(queue).buffer() == old(queue).buffer(),
    {
        let (start, end) = self.set_bounds(queue);
        BoundedSlice { start, end, task: core::marker::PhantomData }
    }

    /// Gives the batch up.
    pub fn drop(self, queue: &mut Inner<BufferCell<T>, N>)
        requires
            crate::valid_len(N as int),
        ensures
            final(queue).slot() == old(queue).slot() ^ (if lap(N as int, self.base_slot()) % 2 == 0 {
                1usize
            } else {
                2usize
            }),
            final(queue).occupancy() == old(queue).occupancy().wrapping_sub(
                crate::helpers::region_unit(
                    crate::helpers::region_of(
                        N as int,
                        crate::helpers::counter(self.base_slot()) % (N as int),
                    ),
                ) as usize,
            ),
            final(queue).buffer() == old(queue).buffer(),
    {
        let (start, _) = self.set_bounds(queue);
        queue.sub_occupancy(crate::helpers::one_shifted::<N>(start));
    }
}

/// A bounded batch.
pub struct BoundedSlice<T, const N: usize> {
    start: usize,
    end: usize,
    task: core::marker::PhantomData<T>,
}

impl<T, const N: usize> BoundedSlice<T, N> {
    /// The index of the first task.
    pub closed spec fn start(&self) -> usize {
        self.start
    }

    /// The index behind the last task.
    pub closed spec fn end(&self) -> usize {
        self.end
    }

    /// The cells of the batch are there and hold tasks.
    pub open spec fn owned_in(&self, queue: Inner<BufferCell<T>, N>) -> bool {
        &&& crate::valid_len(N as int)
        &&& queue.buffer().len() == N
        &&& self.start() < N
        &&& self.start() <= self.end() <= N
        &&& forall|i: int|
            self.start() <= i < self.end() ==> (#[trigger] queue.buffer()[i]).value is Some
    }

    /// A slice of the bounded task range.
    pub fn tasks<'a>(&self, queue: &'a Inner<BufferCell<T>, N>) -> (cells: &'a [BufferCell<T>])
        requires
            self.owned_in(*queue),
        ensures
            cells@ == queue.buffer().subrange(self.start() as int, self.end() as int),
    {
        queue.run(self.start, self.end)
    }

    /// Moves the tasks into a vector, and gives the batch up.
    pub fn to_vec(self, queue: &mut Inner<BufferCell<T>, N>) -> (tasks: Vec<T>)
        requires
            self.owned_in(*old(queue)),
        ensures
            tasks@ == crate::queue::tasks_of(
                old(queue).buffer().subrange(self.start() as int, self.end() as int),
            ),
            final(queue).slot() == old(queue).slot(),
            final(queue).occupancy() == old(queue).occupancy().wrapping_sub(
                crate::helpers::region_unit(
                    crate::helpers::region_of(N as int, self.start() as int),
                ) as usize,
            ),
            final(queue).buffer() == Seq::new(
                N as nat,
                |i: int|
                    if self.start() <= i < self.end() {
                        BufferCell::<T> { value: None }
                    } else {
                        old(queue).buffer()[i]
                    },
            ),
    {
        let mut tasks: Vec<T> = Vec::new();
        let mut i: usize = self.start;
        let ghost cells = old(queue).buffer();
        while i < self.end
            invariant
                self.owned_in(*old(queue)),
                cells == old(queue).buffer(),
                self.start <= i <= self.end,
                queue.slot() == old(queue).slot(),
                queue.occupancy() == old(queue).occupancy(),
                queue.buffer() =~= Seq::new(
                    N as nat,
                    |j: int|
                        if self.start <= j < i {
                            BufferCell::<T> { value: None }
                        } else {
                            cells[j]
                        },
                ),
                tasks@ =~= crate::queue::tasks_of(cells.subrange(self.start as int, i as int)),
            decreases self.end - i,
        {
            let cell = queue.exchange(i, BufferCell::new_uninit());
            assert(cell == cells[i as int]);
            match cell.value {
                Some(task) => tasks.push(task),
                None => vstd::pervasive::unreached(),
            }
            i = i + 1;
        }
        self.deoccupy_buffer(queue);
        tasks
    }

    /// Stops counting the batch as live.
    fn deoccupy_buffer(&self, queue: &mut Inner<BufferCell<T>, N>)
        requires
            crate::valid_len(N as int),
            self.start() < N,
        ensures
            final(queue).slot() == old(queue).slot(),
            final(queue).occupancy() == old(queue).occupancy().wrapping_sub(
                crate::helpers::region_unit(
                    crate::helpers::region_of(N as int, self.start() as int),
                ) as usize,
            ),
            final(queue).buffer() == old(queue).buffer(),
    {
        queue.sub_occupancy(crate::helpers::one_shifted::<N>(self.start));
    }

    /// Gives the batch up.
    pub fn drop(self, queue: &mut Inner<BufferCell<T>, N>)
        requires
            self.owned_in(*old(queue)),
        ensures
            final(queue).slot() == old(queue).slot(),
            final(queue).occupancy() == old(queue).occupancy().wrapping_sub(
                crate::helpers::region_unit(
                    crate::helpers::region_of(N as int, self.start() as int),
                ) as usize,
            ),
            final(queue).buffer() == old(queue).buffer(),
    {
        self.deoccupy_buffer(queue);
    }
}

} // verus!
