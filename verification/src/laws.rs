//! What holds of the library as a whole.
use vstd::prelude::*;

use crate::expand::{CellKind, ExpandError, ImplKind, OutlineView, Piece, Plan, QueueOpt};
use crate::negotiation::Exchange;
use crate::queue::{BatchReducer, BufferCell, QueueView, StackQueue};
use crate::session::Session;
use crate::system::System;
use crate::task::{Delivery, Gathered, Polled, ReduceState, State, TaskRef};

verus! {

/// A run of a queue: steps of its owner and of the holders of its batches, in any order.
pub open spec fn queue_run(n: int, run: Seq<System>) -> bool {
    &&& run.len() > 0
    &&& run[0] == System::initial(n)
    &&& forall|i: int| 0 <= i < run.len() - 1 ==> (#[trigger] run[i]).steps_to(run[i + 1])
}

/// Whatever the order in which threads take their steps, the invariant of the queue holds.
pub proof fn law_queue_invariant(n: int, run: Seq<System>, i: int)
    requires
        crate::valid_len(n),
        queue_run(n, run),
        0 <= i < run.len(),
    ensures
        run[i].inv(),
        run[i].n == n,
    decreases i,
{
    if i == 0 {
        System::lemma_initial(n);
    } else {
        law_queue_invariant(n, run, i - 1);
        run[i - 1].lemma_step(run[i]);
    }
}

/// Access is exclusive, whatever the order in which threads take their steps: no cell of the
/// buffer belongs to two live batches, or twice to one, and the cell that the owner of the queue
/// is about to write belongs to none.
pub proof fn law_exclusive_access(
    n: int,
    run: Seq<System>,
    i: int,
    s: int,
    t: int,
    p: int,
    q: int,
)
    requires
        crate::valid_len(n),
        queue_run(n, run),
        0 <= i < run.len(),
        run[i].ledger.spans.dom().contains(s),
        run[i].ledger.spans.dom().contains(t),
        s <= p < run[i].ledger.spans[s].end,
        t <= q < run[i].ledger.spans[t].end,
    ensures
        p % n == q % n ==> p == q && s == t,
        run[i].producer is Admitted ==> p % n != run[i].write_index(),
{
    law_queue_invariant(n, run, i);
    let ledger = run[i].ledger;
    if p != q {
        ledger.lemma_cells_distinct(n, s, t, p, q);
    }
    if run[i].producer is Admitted {
        run[i].lemma_write_index();
        ledger.lemma_tail_cell_free(n, s, p);
    }
}

/// The live batches of a queue own distinct cells of its buffer, and a task that is accepted is
/// written to a cell that none of them owns.
pub proof fn law_batches_own_distinct_cells<C, const N: usize>(
    queue: &StackQueue<C, N>,
    s: int,
    t: int,
    i: int,
    j: int,
)
    requires
        queue.wf(),
        queue@.batches.dom().contains(s),
        queue@.batches.dom().contains(t),
        0 <= i < queue@.batches[s].cells.len(),
        0 <= j < queue@.batches[t].cells.len(),
    ensures
        (queue@.batches[s].front + i) % (N as int) == (queue@.batches[t].front + j) % (N as int)
            ==> s == t && i == j,
        !queue@.refuses() ==> (queue@.batches[s].front + i) % (N as int) != queue@.tail % (N as int),
{
    let ledger = queue.system().ledger;
    let p = queue@.batches[s].front + i;
    let q = queue@.batches[t].front + j;
    queue.lemma_view_admits();
    if p != q {
        ledger.lemma_cells_distinct(N as int, s, t, p, q);
    }
    if !queue@.refuses() {
        ledger.lemma_tail_cell_free(N as int, s, p);
    }
}

/// The lengths that a queue accepts are the powers of two from 64 on whose exponent is less than
/// half of the width of a word.
pub proof fn law_accepted_lengths(n: int)
    ensures
        crate::valid_len(n) <==> {
            ||| n == 0x40 || n == 0x80 || n == 0x100 || n == 0x200 || n == 0x400 || n == 0x800
            ||| n == 0x1000 || n == 0x2000 || n == 0x4000 || n == 0x8000
            ||| usize::BITS == 64 && (n == 0x1_0000 || n == 0x2_0000 || n == 0x4_0000 || n == 0x8_0000
                || n == 0x10_0000 || n == 0x20_0000 || n == 0x40_0000 || n == 0x80_0000 || n
                == 0x100_0000 || n == 0x200_0000 || n == 0x400_0000 || n == 0x800_0000 || n
                == 0x1000_0000 || n == 0x2000_0000 || n == 0x4000_0000 || n == 0x8000_0000)
        },
{
    crate::helpers::lemma_widths();
    vstd::arithmetic::power2::lemma2_to64();
    if crate::valid_len(n) {
        let k = crate::helpers::lemma_len_exponent(n);
        assert(6 <= k < 32);
    }
    if 0x40 <= n <= crate::MAX_BUFFER_LEN {
        vstd::arithmetic::power2::is_pow2_equiv(n);
        assert forall|k: nat| k < 32 && vstd::arithmetic::power2::pow2(k) == n implies #[trigger]
            vstd::arithmetic::power::pow(2, k) == n by {
            vstd::arithmetic::power2::lemma_pow2(k);
        }
        if !vstd::arithmetic::power2::is_pow2(n) {
            assert(forall|k: nat| k < 32 ==> #[trigger] vstd::arithmetic::power2::pow2(k) != n) by {
                assert forall|k: nat| k < 32 implies #[trigger] vstd::arithmetic::power2::pow2(k)
                    != n by {
                    vstd::arithmetic::power2::lemma_pow2(k);
                }
            }
        }
    }
}

/// Every position that was written belongs to a batch from then on until the batch is released:
/// a batch begins where the tail is, and one that is bounded ends where the next one begins.
pub proof fn law_batches_are_contiguous(before: System)
    requires
        before.inv(),
        before.can_claim(),
    ensures
        before.ledger.open is None ==> before.claimed().ledger.open == Some(before.ledger.tail),
        before.ledger.open matches Some(s) ==> before.claimed().ledger.open == Some(s)
            && before.ledger.spans[s].end == before.ledger.tail,
        before.claimed().ledger.spans[before.claimed().ledger.open->0].end == before.ledger.tail + 1,
{
    before.lemma_claimed();
}

/// The occupancy word counts, in the byte of each region, the live batches that began there, as
/// long as fewer than 256 of them began in the region that was written last; and the copy that the
/// owner of the queue keeps never has a region free while it is not: a region can be taken for full
/// that is free by now, but not the reverse.
pub proof fn law_occupancy_counts_batches(n: int, run: Seq<System>, i: int, r: int)
    requires
        crate::valid_len(n),
        queue_run(n, run),
        0 <= i < run.len(),
        0 <= r < crate::helpers::REGION_COUNT,
        !(run[i].producer is Claimed),
    ensures
        run[i].ledger.begun_in(n, run[i].frontier()).len() < 256 ==> crate::helpers::regional(
            run[i].shared.occupancy,
            r,
        ) == run[i].ledger.begun_in(n, r).len(),
        run[i].can_admit() && run[i].at_checkpoint() ==> run[i].ledger.begun_in(
            n,
            run[i].write_region(),
        ) == Set::<int>::empty(),
{
    law_queue_invariant(n, run, i);
    crate::helpers::lemma_widths();
    crate::ledger::lemma_frontier(n, run[i].ledger.tail);
    let w = run[i].frontier();
    if run[i].aside(r) {
        assert(crate::helpers::regional(run[i].shared.occupancy, r) == run[i].counted(r));
    }
    assert(run[i].counted(w) == run[i].ledger.begun_in(n, w).len());
    assert(run[i].counted(w + 1) == run[i].ledger.begun_in(n, w + 1).len());
    if run[i].can_admit() && run[i].at_checkpoint() {
        run[i].lemma_admitted();
        run[i].lemma_write_index();
    }
}

/// What the live batches that began in the first `k` regions add up to: one unit of its region for
/// each of them.
pub open spec fn batch_units<C>(queue: QueueView<C>, k: int) -> int
    decreases k,
{
    if k <= 0 {
        0
    } else {
        batch_units(queue, k - 1) + queue.begun_in(k - 1).len() * crate::helpers::region_unit(k - 1)
    }
}

/// The bytes of the first `k` regions make up the low end of the occupancy word.
spec fn byte_units(occupancy: usize, k: int) -> int
    decreases k,
{
    if k <= 0 {
        0
    } else {
        byte_units(occupancy, k - 1) + crate::helpers::regional(occupancy, k - 1)
            * crate::helpers::region_unit(k - 1)
    }
}

proof fn lemma_next_unit(k: int)
    requires
        0 <= k,
    ensures
        crate::helpers::region_unit(k + 1) == crate::helpers::region_unit(k) * 256,
        crate::helpers::region_unit(k) > 0,
{
    vstd::arithmetic::power2::lemma2_to64();
    vstd::arithmetic::power2::lemma_pow2_adds((8 * k) as nat, 8);
    vstd::arithmetic::power2::lemma_pow2_pos((8 * k) as nat);
}

proof fn lemma_byte_units(occupancy: usize, k: int)
    requires
        0 <= k,
    ensures
        byte_units(occupancy, k) == occupancy as int % crate::helpers::region_unit(k),
    decreases k,
{
    if k == 0 {
        vstd::arithmetic::power2::lemma2_to64();
    } else {
        let u = crate::helpers::region_unit(k - 1);
        lemma_byte_units(occupancy, k - 1);
        lemma_next_unit(k - 1);
        vstd::arithmetic::div_mod::lemma_mod_breakdown(occupancy as int, u, 256);
        let digit = crate::helpers::regional(occupancy, k - 1);
        assert(u * digit == digit * u) by (nonlinear_arith);
    }
}

proof fn lemma_batch_units<C, const N: usize>(queue: &StackQueue<C, N>, k: int)
    requires
        queue.wf(),
        0 <= k <= crate::helpers::REGION_COUNT,
    ensures
        ({
            let w = queue.system().frontier();
            batch_units(queue@, k) == byte_units(queue.system().shared.occupancy, k) + if k == w + 1 {
                (queue@.begun_in(w).len() - crate::helpers::regional(
                    queue.system().shared.occupancy,
                    w,
                )) * crate::helpers::region_unit(w)
            } else {
                0
            }
        }),
    decreases k,
{
    if k > 0 {
        let system = queue.system();
        let occupancy = system.shared.occupancy;
        let w = system.frontier();
        let r = k - 1;
        lemma_batch_units(queue, r);
        crate::ledger::lemma_frontier(N as int, system.ledger.tail);
        assert(queue@.begun_in(r) =~= system.ledger.begun_in(N as int, r));
        assert(queue@.begun_in(w) =~= system.ledger.begun_in(N as int, w));
        let u = crate::helpers::region_unit(r);
        let live = queue@.begun_in(r).len() as int;
        let digit = crate::helpers::regional(occupancy, r);
        if r == w {
            assert(live * u == digit * u + (live - digit) * u) by (nonlinear_arith);
        } else if r == w + 1 {
            lemma_next_unit(w);
            let v = crate::helpers::region_unit(w);
            let before = queue@.begun_in(w).len() as int;
            let low = crate::helpers::regional(occupancy, w);
            assert(low + 256 * digit == before + 256 * live);
            assert((before - low) * v + live * u == digit * u) by (nonlinear_arith)
                requires
                    u == v * 256,
                    low + 256 * digit == before + 256 * live,
            ;
        } else {
            assert(system.aside(r));
            assert(digit == system.counted(r));
        }
    }
}

/// The occupancy word is what the live batches add up to, so it is fixed by where they began: it
/// stays as it is while batches are joined, bounded and emptied, and loses the unit of its region
/// when one is given back.
pub proof fn law_occupancy_adds_up<C, const N: usize>(queue: &StackQueue<C, N>)
    requires
        queue.wf(),
    ensures
        queue.system().shared.occupancy == batch_units(
            queue@,
            crate::helpers::REGION_COUNT as int,
        ),
{
    crate::helpers::lemma_widths();
    let system = queue.system();
    let occupancy = system.shared.occupancy;
    let count = crate::helpers::REGION_COUNT as int;
    crate::ledger::lemma_frontier(N as int, system.ledger.tail);
    lemma_batch_units(queue, count);
    lemma_byte_units(occupancy, count);
    assert(queue@.begun_in(system.frontier()) =~= system.ledger.begun_in(
        N as int,
        system.frontier(),
    ));
    vstd::arithmetic::power2::lemma2_to64();
    vstd::arithmetic::power2::lemma2_to64_rest();
    vstd::arithmetic::div_mod::lemma_small_mod(
        occupancy as nat,
        crate::helpers::region_unit(count) as nat,
    );
    if system.frontier() + 1 == count {
        let w = system.frontier();
        assert(queue@.begun_in(w).len() - crate::helpers::regional(occupancy, w) == 0);
        assert(0 * crate::helpers::region_unit(w) == 0) by (nonlinear_arith);
    }
}

/// Two queues in which the same batches are live have the same occupancy word.
pub proof fn law_same_batches_same_occupancy<C, const N: usize>(
    a: &StackQueue<C, N>,
    b: &StackQueue<C, N>,
)
    requires
        a.wf(),
        b.wf(),
        a@.batches.dom() == b@.batches.dom(),
    ensures
        a.system().shared.occupancy == b.system().shared.occupancy,
{
    law_occupancy_adds_up(a);
    law_occupancy_adds_up(b);
    lemma_same_units(a@, b@, crate::helpers::REGION_COUNT as int);
}

proof fn lemma_same_units<C>(a: QueueView<C>, b: QueueView<C>, k: int)
    requires
        a.n == b.n,
        a.batches.dom() == b.batches.dom(),
    ensures
        batch_units(a, k) == batch_units(b, k),
    decreases k,
{
    if k > 0 {
        lemma_same_units(a, b, k - 1);
        assert(a.begun_in(k - 1) =~= b.begun_in(k - 1));
    }
}

/// A batch is open exactly while the phases of the shared slot and of the owner's slot agree.
pub proof fn law_phase_tells_open_batch(n: int, run: Seq<System>, i: int)
    requires
        crate::valid_len(n),
        queue_run(n, run),
        0 <= i < run.len(),
    ensures
        run[i].ledger.open is None <==> run[i].begins_batch(),
{
    law_queue_invariant(n, run, i);
}

/// In buffers whose regions are shorter than 256 positions the counters never run out.
pub proof fn law_small_regions_always_have_room(n: int, run: Seq<System>, i: int)
    requires
        crate::valid_len(n),
        queue_run(n, run),
        0 <= i < run.len(),
        crate::helpers::region_len(n) <= 255,
        run[i].producer is Admitted,
    ensures
        run[i].can_claim(),
{
    law_queue_invariant(n, run, i);
    run[i].ledger.lemma_room(n);
}

/// When a region has more live batches than its byte can count, the next checkpoint refuses tasks
/// until fewer than 256 of them are left: up to then the byte of the next region is not zero, in
/// the shared word and in the owner's copy.
pub proof fn law_counter_overflow_blocks_next_region(n: int, run: Seq<System>, i: int)
    requires
        crate::valid_len(n),
        queue_run(n, run),
        0 <= i < run.len(),
        run[i].producer is Idle,
        run[i].at_checkpoint(),
        run[i].ledger.begun_in(n, run[i].frontier()).len() >= 256,
    ensures
        !run[i].can_admit(),
        !run[i].loaded().can_admit(),
{
    law_queue_invariant(n, run, i);
    run[i].lemma_write_index();
    run[i].lemma_loaded();
    if run[i].can_admit() {
        run[i].lemma_admitted();
    }
    if run[i].loaded().can_admit() {
        run[i].loaded().lemma_admitted();
    }
}

/// The slot walks through the indices of the buffer in a loop, also where its counter wraps.
pub proof fn law_slot_walks_buffer(n: int, slot: usize)
    requires
        crate::valid_len(n),
    ensures
        crate::helpers::counter(crate::system::next_slot(slot)) % n == (crate::helpers::counter(slot)
            % n + 1) % n,
{
    crate::helpers::lemma_widths();
    crate::system::lemma_next_slot(slot);
    let c = crate::helpers::counter(slot);
    crate::system::lemma_counter_index(n, c + 1);
    vstd::arithmetic::div_mod::lemma_add_mod_noop(c, 1, n);
    vstd::arithmetic::div_mod::lemma_small_mod(1, n as nat);
}

/// A queue to which `cells` were added one after the other.
pub open spec fn pushed_all<C>(view: QueueView<C>, cells: Seq<C>) -> QueueView<C>
    decreases cells.len(),
{
    if cells.len() == 0 {
        view
    } else {
        pushed_all(view, cells.drop_last()).pushed(cells.last())
    }
}

/// A batch gathers the tasks that are added while it is open, all of them and in order; other
/// batches stay as they are.
pub proof fn law_open_batch_gathers_in_order<C>(view: QueueView<C>, cells: Seq<C>)
    requires
        view.open matches Some(s) ==> view.batches.dom().contains(s),
        cells.len() > 0,
    ensures
        pushed_all(view, cells).tail == view.tail + cells.len(),
        view.open is Some ==> {
            let s = view.open->0;
            &&& pushed_all(view, cells).open == Some(s)
            &&& pushed_all(view, cells).batches[s].cells == view.batches[s].cells + cells
            &&& pushed_all(view, cells).batches.remove(s) == view.batches.remove(s)
        },
        view.open is None ==> {
            let s = view.tail;
            &&& pushed_all(view, cells).open == Some(s)
            &&& pushed_all(view, cells).batches[s].cells == cells
            &&& pushed_all(view, cells).batches.remove(s) == view.batches.remove(s)
        },
    decreases cells.len(),
{
    let prior = cells.drop_last();
    assert(cells =~= prior.push(cells.last()));
    if prior.len() == 0 {
        assert(prior =~= Seq::empty());
        assert(cells =~= seq![cells.last()]);
    } else {
        law_open_batch_gathers_in_order(view, prior);
        assert(pushed_all(view, cells) == pushed_all(view, prior).pushed(cells.last()));
    }
    let after = pushed_all(view, cells);
    let s = after.open->0;
    if view.open is Some {
        assert(after.batches[s].cells =~= view.batches[s].cells + cells);
    } else {
        assert(after.batches[s].cells =~= cells);
    }
    assert(after.batches.remove(s) =~= view.batches.remove(s));
}

/// Tasks are added to a batch until it is bounded: later ones begin a new batch, and the bounded
/// one stays as it was.
pub proof fn law_bounded_batch_is_fixed<C>(view: QueueView<C>, s: int, cell: C)
    requires
        view.open == Some(s),
        view.batches.dom().contains(s),
        s < view.tail,
    ensures
        view.bounded().pushed(cell).batches[s] == view.batches[s],
        view.bounded().pushed(cell).open == Some(view.tail),
        view.bounded().pushed(cell).batches[view.tail].cells == seq![cell],
{
}

/// The tasks that come out of a batch are those that went in, in the same order.
pub proof fn law_tasks_come_out_as_they_went_in<T>(view: QueueView<BufferCell<T>>, tasks: Seq<T>)
    requires
        view.open is None,
        tasks.len() > 0,
    ensures
        pushed_all(view, tasks.map_values(|task: T| crate::queue::holding(task))).tasks(view.tail)
            == tasks,
{
    let cells = tasks.map_values(|task: T| crate::queue::holding(task));
    law_open_batch_gathers_in_order(view, cells);
    assert(crate::queue::tasks_of(cells) =~= tasks);
}

/// A queue without live batches accepts a task.
pub proof fn law_unoccupied_queue_accepts<C>(view: QueueView<C>)
    requires
        view.batches.dom() == Set::<int>::empty(),
    ensures
        !view.refuses(),
{
    let r = crate::ledger::region_at(view.n, view.tail - 1);
    assert(view.begun_in(r) =~= Set::<int>::empty());
}

/// As long as its first batch is open, a queue accepts as many tasks as its buffer has cells, and
/// refuses the one after that.
pub proof fn law_first_batch_fills_buffer<C>(view: QueueView<C>)
    requires
        crate::valid_len(view.n),
        view.batches.dom() == set![0int],
        0 < view.tail <= view.n,
    ensures
        view.refuses() <==> view.tail == view.n,
{
    let n = view.n;
    let l = crate::helpers::region_len(n);
    crate::helpers::lemma_widths();
    crate::helpers::lemma_region_len(n);
    vstd::arithmetic::div_mod::lemma_div_basics(l);
    crate::ledger::lemma_fence(n, 0);
    assert(crate::ledger::region_number(n, 0) == 0);
    assert(crate::ledger::fence(n, 0) == n) by (nonlinear_arith)
        requires
            crate::ledger::fence(n, 0) == (0 + crate::helpers::REGION_COUNT) * l,
            l * crate::helpers::REGION_COUNT == n,
    ;
    assert(view.batches.dom().contains(0));
    let before = view.begun_in(crate::ledger::region_at(n, view.tail - 1));
    assert(before.subset_of(set![0int]));
    vstd::set_lib::lemma_len_subset(before, set![0int]);
    if view.tail < n {
        crate::ledger::lemma_region_at(n, view.tail);
        vstd::arithmetic::div_mod::lemma_small_mod(view.tail as nat, n as nat);
        let r = view.tail / l;
        if view.tail % l == 0 && crate::ledger::region_at(n, view.tail) == 0 {
            vstd::arithmetic::div_mod::lemma_fundamental_div_mod(view.tail, l);
            assert(view.tail == l * 0);
        }
    }
}

/// A refused task is accepted once the batches that began in its region are released, and all but
/// 255 at most of those that began in the region before.
pub proof fn law_refusal_ends_with_release<C>(view: QueueView<C>)
    requires
        view.begun_in(crate::ledger::region_at(view.n, view.tail)) == Set::<int>::empty(),
        view.begun_in(crate::ledger::region_at(view.n, view.tail - 1)).len() < 256,
    ensures
        !view.refuses(),
{
    if view.refuses() {
        let s = choose|s: int| #[trigger]
            view.batches.dom().contains(s) && crate::ledger::region_at(view.n, s)
                == crate::ledger::region_at(view.n, view.tail);
        assert(view.begun_in(crate::ledger::region_at(view.n, view.tail)).contains(s));
    }
}

/// Where no receiver was dropped, every task of a batch has its value delivered to its own
/// receiver, in order.
pub proof fn law_each_task_gets_its_value<T: crate::queue::TaskQueue>(
    cells: Seq<TaskRef<T>>,
    values: Seq<T::Value>,
)
    requires
        cells.len() == values.len(),
        forall|i: int|
            0 <= i < cells.len() ==> (#[trigger] cells[i]).state & crate::task::RECEIVER_DROPPED
                == 0,
    ensures
        crate::assignment::deliveries::<T>(cells, values) == Seq::new(
            cells.len(),
            |i: int| Delivery { rx: cells[i].rx->0, value: values[i] },
        ),
    decreases cells.len(),
{
    let all = Seq::new(cells.len(), |i: int| Delivery { rx: cells[i].rx->0, value: values[i] });
    if cells.len() > 0 {
        let prior_cells = cells.drop_last();
        let prior_values = values.drop_last();
        assert forall|i: int| 0 <= i < prior_cells.len() implies (#[trigger] prior_cells[i]).state
            & crate::task::RECEIVER_DROPPED == 0 by {
            assert(prior_cells[i] == cells[i]);
        }
        law_each_task_gets_its_value::<T>(prior_cells, prior_values);
        assert(cells[cells.len() - 1].state & crate::task::RECEIVER_DROPPED == 0);
        assert(crate::assignment::deliveries::<T>(cells, values) =~= all);
    } else {
        assert(crate::assignment::deliveries::<T>(cells, values) =~= all);
    }
}

/// Tasks that are added to a queue without an open batch make up one batch, and the values that it
/// is resolved with go to the addresses that came with the tasks, each to the one of its task.
pub proof fn law_batch_resolves_to_its_receivers<T: crate::queue::TaskQueue>(
    view: QueueView<TaskRef<T>>,
    tasks: Seq<T::Task>,
    receivers: Seq<usize>,
    values: Seq<T::Value>,
)
    requires
        view.open is None,
        tasks.len() > 0,
        receivers.len() == tasks.len(),
        values.len() == tasks.len(),
    ensures
        ({
            let cells = Seq::new(
                tasks.len(),
                |i: int| crate::task::fresh::<T>(tasks[i], receivers[i]),
            );
            &&& pushed_all(view, cells).open == Some(view.tail)
            &&& crate::assignment::deliveries::<T>(
                pushed_all(view, cells).batches[view.tail].cells,
                values,
            ) == Seq::new(tasks.len(), |i: int| Delivery { rx: receivers[i], value: values[i] })
        }),
{
    let cells = Seq::new(tasks.len(), |i: int| crate::task::fresh::<T>(tasks[i], receivers[i]));
    law_open_batch_gathers_in_order(view, cells);
    crate::negotiation::lemma_bits(0);
    law_each_task_gets_its_value::<T>(cells, values);
    assert(crate::assignment::deliveries::<T>(cells, values) =~= Seq::new(
        tasks.len(),
        |i: int| Delivery { rx: receivers[i], value: values[i] },
    ));
}

/// A receiver that was dropped gets no value.
pub proof fn law_dropped_receivers_get_nothing<T: crate::queue::TaskQueue>(
    cells: Seq<TaskRef<T>>,
    values: Seq<T::Value>,
)
    requires
        cells.len() == values.len(),
        forall|i: int|
            0 <= i < cells.len() ==> (#[trigger] cells[i]).state & crate::task::RECEIVER_DROPPED
                != 0,
    ensures
        crate::assignment::deliveries::<T>(cells, values) == Seq::<Delivery<T::Value>>::empty(),
    decreases cells.len(),
{
    if cells.len() > 0 {
        let prior_cells = cells.drop_last();
        assert forall|i: int| 0 <= i < prior_cells.len() implies (#[trigger] prior_cells[i]).state
            & crate::task::RECEIVER_DROPPED != 0 by {
            assert(prior_cells[i] == cells[i]);
        }
        law_dropped_receivers_get_nothing::<T>(prior_cells, values.drop_last());
        assert(cells[cells.len() - 1].state & crate::task::RECEIVER_DROPPED != 0);
    }
}

/// A run of one task: steps of the one who resolves it and of its receiver, in any order.
pub open spec fn task_run(run: Seq<Exchange>) -> bool {
    &&& run.len() > 0
    &&& run[0] == Exchange::initial()
    &&& forall|i: int| 0 <= i < run.len() - 1 ==> (#[trigger] run[i]).steps_to(run[i + 1])
}

proof fn lemma_task_invariant(run: Seq<Exchange>, i: int)
    requires
        task_run(run),
        0 <= i < run.len(),
    ensures
        run[i].inv(),
    decreases i,
{
    if i == 0 {
        Exchange::lemma_initial();
    } else {
        lemma_task_invariant(run, i - 1);
        run[i - 1].lemma_step(run[i]);
    }
}

/// Whatever the order in which the two ends of a task take their steps, the value is written only
/// while the receiver is still there, and in the end it was either taken or dropped, by exactly
/// one of them: a receiver that went got none, and one that got it did not go without it. A receiver
/// that did not go has the value once the one who resolves is through, whoever has the cell by then.
pub proof fn law_value_is_taken_or_dropped(run: Seq<Exchange>, i: int)
    requires
        task_run(run),
        0 <= i < run.len(),
    ensures
        run[i].resolver is Setting ==> !(run[i].receiver is Gone),
        run[i].receiver is Received <==> run[i].value is Taken,
        run[i].resolver is Done && run[i].receiver is Gone ==> run[i].value is Dropped,
        run[i].value is Dropped ==> run[i].receiver is Gone,
        run[i].resolver is Done && !(run[i].receiver is Gone) ==> run[i].value is Written
            || run[i].value is Taken,
{
    lemma_task_invariant(run, i);
}

/// Once the value was taken or dropped, it stays so.
pub proof fn law_value_is_settled_once(run: Seq<Exchange>, i: int)
    requires
        task_run(run),
        0 <= i < run.len() - 1,
        run[i].value is Taken || run[i].value is Dropped,
    ensures
        run[i + 1].value == run[i].value,
{
    lemma_task_invariant(run, i);
    lemma_task_invariant(run, i + 1);
}

/// Resolving a task takes the steps of its end of the negotiation: it leaves the state word as they
/// leave it, and sends the value exactly where they write it.
pub proof fn law_resolving_follows_negotiation(task: Exchange)
    requires
        task.inv(),
        task.resolver is Idle,
    ensures
        task.word & crate::task::RECEIVER_DROPPED == 0 ==> {
            &&& task.steps_to(task.begun())
            &&& task.begun().steps_to(task.begun().written())
            &&& task.begun().written().steps_to(task.begun().written().finished())
            &&& task.begun().written().finished().word == crate::task::resolved_state(task.word)
        },
        task.word & crate::task::RECEIVER_DROPPED != 0 ==> {
            &&& task.steps_to(task.begun())
            &&& task.begun().resolver is Done
            &&& task.begun().word == crate::task::resolved_state(task.word)
        },
{
}

/// Dropping a task takes the steps of its receiver: a drop that has to wait is one that leaves, and
/// one that is done is gone.
pub proof fn law_dropping_follows_negotiation<T: crate::queue::TaskQueue>(
    task: Exchange,
    cell: TaskRef<T>,
    rx: crate::task::Receiver<T::Value>,
    state: crate::task::State<T>,
    dropping: crate::task::Dropping,
)
    requires
        task.inv(),
        task.receiver is Waiting || task.receiver is Leaving,
        task.own <==> cell.rx == Some(rx.rx),
        task.own ==> cell.state == task.word,
        crate::task::settled::<T>(rx, crate::task::seen(cell, rx.rx), state, dropping),
    ensures
        task.receiver is Waiting ==> {
            &&& task.steps_to(task.dropped())
            &&& task.own ==> crate::task::forsaken(cell, rx.rx).state == task.dropped().word
            &&& !task.own ==> crate::task::forsaken(cell, rx.rx) == cell
            &&& dropping is Wait <==> task.dropped().receiver is Leaving
            &&& dropping is Done <==> task.dropped().receiver is Gone
        },
        task.receiver is Leaving ==> {
            &&& task.steps_to(task.retried())
            &&& task.retried().word == task.word
            &&& dropping is Wait <==> task.retried().receiver is Leaving
            &&& dropping is Done <==> task.retried().receiver is Gone
        },
{
}

/// What can happen to the cells of a queue while the task in cell `j`, whose receiver is at address
/// `rx`, is neither resolved nor given up, and its receiver stays: other receivers go, cells of
/// other tasks are written, and other tasks are resolved or given up.
pub open spec fn cells_step<T: crate::queue::TaskQueue>(
    cells: Seq<TaskRef<T>>,
    next: Seq<TaskRef<T>>,
    j: int,
    rx: usize,
) -> bool {
    ||| exists|index: int, other: usize|
        0 <= index < cells.len() && other != rx && next == #[trigger] cells.update(
            index,
            crate::task::forsaken(cells[index], other),
        )
    ||| exists|index: int, cell: TaskRef<T>|
        0 <= index < cells.len() && index != j && next == #[trigger] cells.update(index, cell)
    ||| exists|first: int, len: int, f: spec_fn(TaskRef<T>) -> TaskRef<T>|
        (j - first) % (cells.len() as int) >= len && next == #[trigger] crate::assignment::rewritten(
            cells,
            first,
            len,
            f,
        )
}

/// A task whose own receiver was not dropped is not silenced by any other one: whatever happens
/// around it, its cell stays as it was written, so that it is sent its value.
pub proof fn law_task_is_silenced_by_its_own_receiver_alone<T: crate::queue::TaskQueue>(
    run: Seq<Seq<TaskRef<T>>>,
    i: int,
    j: int,
    task: T::Task,
    rx: usize,
)
    requires
        0 <= i < run.len(),
        0 <= j < run[0].len(),
        run[0][j] == crate::task::fresh::<T>(task, rx),
        forall|k: int|
            0 <= k < run.len() - 1 ==> cells_step::<T>(#[trigger] run[k], run[k + 1], j, rx),
    ensures
        run[i].len() == run[0].len(),
        run[i][j] == crate::task::fresh::<T>(task, rx),
        run[i][j].state & crate::task::RECEIVER_DROPPED == 0,
    decreases i,
{
    crate::negotiation::lemma_bits(0);
    if i > 0 {
        law_task_is_silenced_by_its_own_receiver_alone::<T>(run, i - 1, j, task, rx);
        assert(cells_step::<T>(run[i - 1], run[i - 1 + 1], j, rx));
    }
}

/// A task whose receiver was not dropped has its value sent to that receiver, whatever became of
/// the receivers of the other tasks of its batch.
pub proof fn law_waiting_task_gets_its_value<T: crate::queue::TaskQueue>(
    cells: Seq<TaskRef<T>>,
    values: Seq<T::Value>,
    k: int,
)
    requires
        cells.len() == values.len(),
        0 <= k < cells.len(),
        cells[k].state & crate::task::RECEIVER_DROPPED == 0,
    ensures
        crate::assignment::deliveries::<T>(cells, values).contains(
            Delivery { rx: cells[k].rx->0, value: values[k] },
        ),
    decreases cells.len(),
{
    let sent = crate::assignment::deliveries::<T>(cells, values);
    let delivery = Delivery { rx: cells[k].rx->0, value: values[k] };
    let before = crate::assignment::deliveries::<T>(cells.drop_last(), values.drop_last());
    if k == cells.len() - 1 {
        assert(sent[before.len() as int] == delivery);
    } else {
        law_waiting_task_gets_its_value::<T>(cells.drop_last(), values.drop_last(), k);
        let i = choose|i: int| 0 <= i < before.len() && before[i] == delivery;
        assert(sent[i] == delivery);
    }
}

/// The life of a queue: what it is, the cells that it accepted so far, the first positions of the
/// batches that were opened, in order, and what was handed out of each of them.
pub struct History<C> {
    pub queue: QueueView<C>,
    pub accepted: Seq<C>,
    pub starts: Seq<int>,
    pub out: Map<int, Seq<C>>,
}

impl<C> History<C> {
    /// A queue before its first task.
    pub open spec fn initial(n: int) -> History<C> {
        History {
            queue: QueueView::empty(n),
            accepted: Seq::empty(),
            starts: Seq::empty(),
            out: Map::empty(),
        }
    }

    /// A cell was accepted.
    pub open spec fn pushed(self, cell: C) -> History<C> {
        let opens = self.queue.open is None;
        History {
            queue: self.queue.pushed(cell),
            accepted: self.accepted.push(cell),
            starts: if opens {
                self.starts.push(self.queue.tail)
            } else {
                self.starts
            },
            out: if opens {
                self.out.insert(self.queue.tail, Seq::empty())
            } else {
                self.out
            },
        }
    }

    /// The open batch was bounded.
    pub open spec fn bounded(self) -> History<C> {
        History { queue: self.queue.bounded(), ..self }
    }

    /// The first cell of the batch at `s` was handed out.
    pub open spec fn taken(self, s: int) -> History<C> {
        History {
            queue: self.queue.taken(s),
            out: self.out.insert(s, self.out[s].push(self.queue.batches[s].cells[0])),
            ..self
        }
    }

    /// The batch at `s` was given back, and its cells with it.
    pub open spec fn released(self, s: int) -> History<C> {
        History {
            queue: self.queue.released(s),
            out: self.out.insert(s, self.out[s] + self.queue.batches[s].cells),
            ..self
        }
    }

    /// The batch at `s` is live, and grows no more.
    pub open spec fn can_release(self, s: int) -> bool {
        &&& self.queue.batches.dom().contains(s)
        &&& self.queue.open != Some(s)
    }

    pub open spec fn can_take(self, s: int) -> bool {
        &&& self.can_release(s)
        &&& self.queue.batches[s].cells.len() > 0
    }

    /// The next moment in the life of the queue.
    pub open spec fn steps_to(self, next: History<C>) -> bool {
        ||| exists|cell: C| next == #[trigger] self.pushed(cell)
        ||| self.queue.open is Some && next == self.bounded()
        ||| exists|s: int| #[trigger] self.can_take(s) && next == self.taken(s)
        ||| exists|s: int| #[trigger] self.can_release(s) && next == self.released(s)
    }

    /// What was handed out of the batch that was opened as number `i`, and after that what it still
    /// owns.
    pub open spec fn contents(self, i: int) -> Seq<C> {
        let s = self.starts[i];
        if self.queue.batches.dom().contains(s) {
            self.out[s] + self.queue.batches[s].cells
        } else {
            self.out[s]
        }
    }

    /// Where the batch that was opened as number `i` ends.
    pub open spec fn end(self, i: int) -> int {
        if i + 1 < self.starts.len() {
            self.starts[i + 1]
        } else {
            self.queue.tail
        }
    }

    /// The contents of the batches that were opened, one after the other.
    pub open spec fn batches(self) -> Seq<Seq<C>> {
        Seq::new(self.starts.len(), |i: int| self.contents(i))
    }

    spec fn inv(self) -> bool {
        &&& self.queue.tail == self.accepted.len()
        &&& self.starts.len() == 0 <==> self.queue.tail == 0
        &&& self.starts.len() > 0 ==> self.starts[0] == 0
        &&& forall|i: int, k: int|
            0 <= i < k < self.starts.len() ==> #[trigger] self.starts[i] < #[trigger] self.starts[k]
        &&& forall|i: int| 0 <= i < self.starts.len() ==> 0 <= #[trigger] self.starts[i] < self.queue.tail
        &&& forall|i: int|
            0 <= i < self.starts.len() ==> #[trigger] self.contents(i) == self.accepted.subrange(
                self.starts[i],
                self.end(i),
            )
        &&& forall|s: int| #[trigger]
            self.queue.batches.dom().contains(s) ==> self.starts.contains(s)
        &&& self.queue.open matches Some(s) ==> {
            &&& self.queue.batches.dom().contains(s)
            &&& self.starts.len() > 0
            &&& s == self.starts.last()
        }
    }

    proof fn lemma_pushed(self, cell: C)
        requires
            self.inv(),
        ensures
            self.pushed(cell).inv(),
    {
        let next = self.pushed(cell);
        assert forall|i: int| 0 <= i < next.starts.len() implies #[trigger] next.contents(i)
            == next.accepted.subrange(next.starts[i], next.end(i)) by {
            if i < self.starts.len() {
                assert(self.contents(i) == self.accepted.subrange(self.starts[i], self.end(i)));
                assert(next.starts[i] == self.starts[i]);
                if i + 1 < self.starts.len() {
                    assert(self.starts[i] < self.starts[i + 1]);
                    assert(self.starts[i + 1] < self.queue.tail);
                    assert(next.starts[i + 1] == self.starts[i + 1]);
                    assert(self.queue.open is Some ==> self.starts[i] < self.starts.last());
                }
                if self.queue.open == Some(self.starts[i]) {
                    assert(i == self.starts.len() - 1);
                    assert(next.contents(i) =~= self.contents(i).push(cell));
                }
                assert(next.contents(i) =~= next.accepted.subrange(next.starts[i], next.end(i)));
            } else {
                assert(next.contents(i) =~= seq![cell]);
                assert(next.contents(i) =~= next.accepted.subrange(next.starts[i], next.end(i)));
            }
        }
        assert forall|s: int| #[trigger] next.queue.batches.dom().contains(s) implies next.starts.contains(
            s,
        ) by {
            if self.queue.batches.dom().contains(s) {
                let i = choose|i: int| 0 <= i < self.starts.len() && self.starts[i] == s;
                assert(next.starts[i] == s);
            } else {
                assert(next.starts[next.starts.len() - 1] == s);
            }
        }
    }

    proof fn lemma_bounded(self)
        requires
            self.inv(),
        ensures
            self.bounded().inv(),
    {
        let next = self.bounded();
        assert forall|i: int| 0 <= i < next.starts.len() implies #[trigger] next.contents(i)
            == next.accepted.subrange(next.starts[i], next.end(i)) by {
            assert(next.contents(i) == self.contents(i));
        }
    }

    proof fn lemma_taken(self, s: int)
        requires
            self.inv(),
            self.can_take(s),
        ensures
            self.taken(s).inv(),
    {
        let next = self.taken(s);
        assert forall|i: int| 0 <= i < next.starts.len() implies #[trigger] next.contents(i)
            == next.accepted.subrange(next.starts[i], next.end(i)) by {
            assert(next.contents(i) =~= self.contents(i));
        }
    }

    proof fn lemma_released(self, s: int)
        requires
            self.inv(),
            self.can_release(s),
        ensures
            self.released(s).inv(),
    {
        let next = self.released(s);
        assert forall|i: int| 0 <= i < next.starts.len() implies #[trigger] next.contents(i)
            == next.accepted.subrange(next.starts[i], next.end(i)) by {
            assert(next.contents(i) =~= self.contents(i));
        }
    }

    proof fn lemma_step(self, next: History<C>)
        requires
            self.inv(),
            self.steps_to(next),
        ensures
            next.inv(),
    {
        if exists|cell: C| next == #[trigger] self.pushed(cell) {
            self.lemma_pushed(choose|cell: C| next == #[trigger] self.pushed(cell));
        } else if self.queue.open is Some && next == self.bounded() {
            self.lemma_bounded();
        } else if exists|s: int| #[trigger] self.can_take(s) && next == self.taken(s) {
            self.lemma_taken(choose|s: int| #[trigger] self.can_take(s) && next == self.taken(s));
        } else {
            self.lemma_released(
                choose|s: int| #[trigger] self.can_release(s) && next == self.released(s),
            );
        }
    }

    proof fn lemma_joined(self, k: int)
        requires
            self.inv(),
            0 <= k <= self.starts.len(),
        ensures
            joined(self.batches().take(k)) == self.accepted.take(
                if k < self.starts.len() {
                    self.starts[k]
                } else {
                    self.queue.tail
                },
            ),
        decreases k,
    {
        if k == 0 {
            assert(self.accepted.take(0) =~= Seq::<C>::empty());
        } else {
            self.lemma_joined(k - 1);
            let parts = self.batches().take(k);
            assert(parts.drop_last() =~= self.batches().take(k - 1));
            assert(parts.last() == self.contents(k - 1));
            if k < self.starts.len() {
                assert(self.starts[k - 1] < self.starts[k]);
            }
            assert(joined(parts) =~= self.accepted.take(self.end(k - 1)));
        }
    }
}

/// Sequences, one after the other.
pub open spec fn joined<C>(parts: Seq<Seq<C>>) -> Seq<C>
    decreases parts.len(),
{
    if parts.len() == 0 {
        Seq::empty()
    } else {
        joined(parts.drop_last()) + parts.last()
    }
}

/// The life of a queue, from its beginning on: tasks are accepted, and batches bounded, emptied and
/// given back, in any order.
pub open spec fn queue_history<C>(n: int, run: Seq<History<C>>) -> bool {
    &&& run.len() > 0
    &&& run[0] == History::<C>::initial(n)
    &&& forall|i: int| 0 <= i < run.len() - 1 ==> (#[trigger] run[i]).steps_to(run[i + 1])
}

proof fn lemma_history<C>(n: int, run: Seq<History<C>>, i: int)
    requires
        queue_history(n, run),
        0 <= i < run.len(),
    ensures
        run[i].inv(),
    decreases i,
{
    if i > 0 {
        lemma_history(n, run, i - 1);
        run[i - 1].lemma_step(run[i]);
    }
}

/// No task is lost, and none comes twice: whatever the order in which tasks are accepted, and batches
/// are bounded, emptied and given back, the contents of the batches, in the order in which they were
/// opened, are the accepted tasks in order. Every batch has at least the task that opened it.
pub proof fn law_batches_hold_what_was_accepted<C>(n: int, run: Seq<History<C>>, i: int)
    requires
        queue_history(n, run),
        0 <= i < run.len(),
    ensures
        joined(run[i].batches()) == run[i].accepted,
        forall|k: int|
            0 <= k < run[i].starts.len() ==> (#[trigger] run[i].contents(k)).len() > 0
                && run[i].contents(k)[0] == run[i].accepted[run[i].starts[k]],
{
    lemma_history(n, run, i);
    let last = run[i];
    last.lemma_joined(last.starts.len() as int);
    assert(last.batches().take(last.starts.len() as int) =~= last.batches());
    assert(last.accepted.take(last.queue.tail) =~= last.accepted);
    assert forall|k: int| 0 <= k < last.starts.len() implies (#[trigger] last.contents(k)).len() > 0
        && last.contents(k)[0] == last.accepted[last.starts[k]] by {
        if k + 1 < last.starts.len() {
            assert(last.starts[k] < last.starts[k + 1]);
            assert(last.starts[k + 1] < last.queue.tail);
        }
        assert(last.starts[k] < last.queue.tail);
    }
}

/// Tasks of one queue that are to be reduced, and the queue.
pub struct Reduction<T: BatchReducer, F, const N: usize> {
    pub queue: QueueView<BufferCell<T::Task>>,
    pub tasks: Map<int, ReduceState<T, F, N>>,
}

impl<T: BatchReducer, F, const N: usize> Reduction<T, F, N> {
    /// Task `who` was polled.
    pub open spec fn polls_to<R>(self, next: Self, who: int, polled: Gathered<R>) -> bool where
        F: FnOnce(Vec<T::Task>) -> R,
     {
        &&& self.tasks.dom().contains(who)
        &&& next.tasks == self.tasks.insert(who, next.tasks[who])
        &&& crate::task::reduce_polled::<T, F, R, N>(
            self.tasks[who],
            self.queue,
            polled,
            next.tasks[who],
            next.queue,
        )
    }

    /// Others used the queue.
    pub open spec fn goes_on_to(self, next: Self) -> bool {
        &&& next.tasks == self.tasks
        &&& next.queue.tail >= self.queue.tail
    }

    /// Task `who` waits to reduce the batch at `s`.
    pub open spec fn collects(self, who: int, s: int) -> bool {
        &&& self.tasks.dom().contains(who)
        &&& self.tasks[who] matches ReduceState::Collecting { batch, reducer } && batch.start() == s
    }
}

/// A run of tasks that are to be reduced: in each step one of them is polled, or others use the
/// queue. No task has been handed in at first.
pub open spec fn reduction_run<T: BatchReducer, F: FnOnce(Vec<T::Task>) -> R, R, const N: usize>(
    run: Seq<Reduction<T, F, N>>,
    who: Seq<Option<int>>,
    polled: Seq<Gathered<R>>,
) -> bool {
    &&& run.len() > 0
    &&& who.len() == run.len() - 1
    &&& polled.len() == run.len() - 1
    &&& forall|t: int| #[trigger] run[0].tasks.dom().contains(t) ==> run[0].tasks[t] is Unbatched
    &&& forall|i: int|
        0 <= i < run.len() - 1 ==> match #[trigger] who[i] {
            Some(t) => run[i].polls_to::<R>(run[i + 1], t, polled[i]),
            None => run[i].goes_on_to(run[i + 1]),
        }
}

/// In step `i` a reducer ran, on the batch at `s`.
pub open spec fn reduces<T: BatchReducer, F: FnOnce(Vec<T::Task>) -> R, R, const N: usize>(
    run: Seq<Reduction<T, F, N>>,
    who: Seq<Option<int>>,
    polled: Seq<Gathered<R>>,
    i: int,
    s: int,
) -> bool {
    &&& 0 <= i < who.len()
    &&& who[i] is Some
    &&& polled[i] matches Gathered::Ready(Some(result))
    &&& run[i].collects(who[i]->0, s)
}

/// In step `o` task `t` opened the batch at `s`.
pub open spec fn opens<T: BatchReducer, F, const N: usize>(
    run: Seq<Reduction<T, F, N>>,
    who: Seq<Option<int>>,
    o: int,
    t: int,
    s: int,
) -> bool {
    &&& 0 <= o < who.len()
    &&& who[o] == Some(t)
    &&& run[o].queue.open is None
    &&& run[o].queue.tail == s
}

proof fn lemma_reduction<T: BatchReducer, F: FnOnce(Vec<T::Task>) -> R, R, const N: usize>(
    run: Seq<Reduction<T, F, N>>,
    who: Seq<Option<int>>,
    polled: Seq<Gathered<R>>,
    k: int,
)
    requires
        reduction_run(run, who, polled),
        0 <= k < run.len(),
    ensures
        forall|t: int, s: int| #[trigger]
            run[k].collects(t, s) ==> s < run[k].queue.tail && exists|o: int|
                o < k && #[trigger] opens(run, who, o, t, s),
        forall|t: int, u: int, s: int|
            #![trigger run[k].collects(t, s), run[k].collects(u, s)]
            run[k].collects(t, s) && run[k].collects(u, s) ==> t == u,
        forall|i: int, s: int| #[trigger]
            reduces(run, who, polled, i, s) && i < k ==> s < run[k].queue.tail && forall|t: int|
                !#[trigger] run[k].collects(t, s),
    decreases k,
{
    if k > 0 {
        let before = run[k - 1];
        let after = run[k];
        lemma_reduction(run, who, polled, k - 1);
        match who[k - 1] {
            None => {
                assert(before.goes_on_to(after));
                assert forall|t: int, s: int| #[trigger] after.collects(t, s) implies s
                    < after.queue.tail && exists|o: int| o < k && #[trigger] opens(run, who, o, t, s) by {
                    assert(before.collects(t, s));
                }
                assert forall|t: int, u: int, s: int|
                    #![trigger after.collects(t, s), after.collects(u, s)]
                    after.collects(t, s) && after.collects(u, s) implies t == u by {
                    assert(before.collects(t, s) && before.collects(u, s));
                }
                assert forall|i: int, s: int| #[trigger]
                    reduces(run, who, polled, i, s) && i < k implies s < after.queue.tail && forall|
                    t: int,
                | !#[trigger] after.collects(t, s) by {
                    assert(i < k - 1);
                    assert forall|t: int| !#[trigger] after.collects(t, s) by {
                        assert(!before.collects(t, s));
                    }
                }
            },
            Some(p) => {
                assert(before.polls_to::<R>(after, p, polled[k - 1]));
                let tail = before.queue.tail;
                let opened = !(before.tasks[p] is Collecting) && after.tasks[p] is Collecting;
                assert(opened ==> opens(run, who, k - 1, p, tail));
                assert(after.queue.tail >= tail && (opened ==> after.queue.tail > tail));
                assert forall|t: int, s: int| #[trigger] after.collects(t, s) implies s
                    < after.queue.tail && exists|o: int| o < k && #[trigger] opens(run, who, o, t, s) by {
                    if t == p {
                        assert(opened);
                    } else {
                        assert(before.collects(t, s));
                    }
                }
                assert forall|t: int, u: int, s: int|
                    #![trigger after.collects(t, s), after.collects(u, s)]
                    after.collects(t, s) && after.collects(u, s) implies t == u by {
                    if t != p {
                        assert(before.collects(t, s));
                    }
                    if u != p {
                        assert(before.collects(u, s));
                    }
                }
                assert forall|i: int, s: int| #[trigger]
                    reduces(run, who, polled, i, s) && i < k implies s < after.queue.tail && forall|
                    t: int,
                | !#[trigger] after.collects(t, s) by {
                    if i == k - 1 {
                        assert(before.collects(p, s));
                    }
                    assert forall|t: int| !#[trigger] after.collects(t, s) by {
                        if t != p && after.collects(t, s) {
                            assert(before.collects(t, s));
                        }
                    }
                }
            },
        }
    }
}

/// A reducer runs once per batch, and it is the reducer of the task that opened the batch: no two
/// polls reduce the same batch, and one that does is of a task that opened it in an earlier poll.
pub proof fn law_reducer_runs_once_per_batch<
    T: BatchReducer,
    F: FnOnce(Vec<T::Task>) -> R,
    R,
    const N: usize,
>(
    run: Seq<Reduction<T, F, N>>,
    who: Seq<Option<int>>,
    polled: Seq<Gathered<R>>,
    i: int,
    s: int,
)
    requires
        reduction_run(run, who, polled),
        0 <= i < who.len(),
        who[i] is Some,
        polled[i] matches Gathered::Ready(Some(result)),
    ensures
        exists|s: int| #[trigger] reduces(run, who, polled, i, s),
        reduces(run, who, polled, i, s) ==> exists|o: int|
            o < i && #[trigger] opens(run, who, o, who[i]->0, s),
        forall|j: int| #[trigger]
            reduces(run, who, polled, j, s) && reduces(run, who, polled, i, s) ==> i == j,
{
    lemma_reduction(run, who, polled, i);
    let t = who[i]->0;
    assert(run[i].polls_to::<R>(run[i + 1], t, polled[i]));
    match run[i].tasks[t] {
        ReduceState::Collecting { batch, reducer } => {
            assert(reduces(run, who, polled, i, batch.start()));
        },
        _ => {},
    }
    assert forall|j: int| #[trigger]
        reduces(run, who, polled, j, s) && reduces(run, who, polled, i, s) implies i == j by {
        if j < i {
            assert(!run[i].collects(t, s));
        } else if i < j {
            lemma_reduction(run, who, polled, j);
            assert(!run[j].collects(who[j]->0, s));
        }
    }
}

/// A run of many tasks with receivers on one queue: in each step one of them is polled, or a task is
/// given to the queue, a batch bounded or resolved, a value delivered or a receiver dropped, in any
/// order. Batches are resolved with values that answer their tasks.
pub open spec fn session_run<T: crate::queue::TaskQueue, const N: usize>(
    n: int,
    answers: spec_fn(T::Task, T::Value) -> bool,
    run: Seq<Session<T>>,
    polls: Seq<Option<(usize, Polled<T, N>)>>,
) -> bool {
    &&& run.len() > 0
    &&& polls.len() == run.len() - 1
    &&& run[0] == Session::<T>::initial(n)
    &&& forall|i: int|
        0 <= i < polls.len() ==> match #[trigger] polls[i] {
            Some((x, polled)) => run[i].polls_to::<N>(run[i + 1], x, polled),
            None => run[i].goes_on_to(run[i + 1], answers),
        }
}

/// In step `i` the task of the receiver at address `x` was polled, and was ready.
pub open spec fn ready_at<T: crate::queue::TaskQueue, const N: usize>(
    polls: Seq<Option<(usize, Polled<T, N>)>>,
    i: int,
    x: usize,
) -> bool {
    polls[i] matches Some((y, polled)) && y == x && polled is Ready
}

proof fn lemma_session<T: crate::queue::TaskQueue, const N: usize>(
    n: int,
    answers: spec_fn(T::Task, T::Value) -> bool,
    run: Seq<Session<T>>,
    polls: Seq<Option<(usize, Polled<T, N>)>>,
    i: int,
)
    requires
        session_run(n, answers, run, polls),
        0 <= i < run.len(),
    ensures
        run[i].inv(answers),
        i > 0 ==> run[i - 1].settles_to(run[i]),
    decreases i,
{
    if i > 0 {
        lemma_session(n, answers, run, polls, i - 1);
        match polls[i - 1] {
            Some((x, polled)) => {
                run[i - 1].lemma_polled(run[i], x, polled, answers);
            },
            None => {
                run[i - 1].lemma_go_on(run[i], answers);
            },
        }
    }
}

/// A task that received its value does not get one again.
proof fn lemma_received_for_good<T: crate::queue::TaskQueue, const N: usize>(
    n: int,
    answers: spec_fn(T::Task, T::Value) -> bool,
    run: Seq<Session<T>>,
    polls: Seq<Option<(usize, Polled<T, N>)>>,
    i: int,
    j: int,
    x: usize,
)
    requires
        session_run(n, answers, run, polls),
        0 <= i <= j < run.len(),
        run[i].given.dom().contains(x),
        !run[i].tasks.dom().contains(x) || run[i].tasks[x] is Received,
    ensures
        run[j].given.dom().contains(x),
        !run[j].tasks.dom().contains(x) || run[j].tasks[x] is Received,
    decreases j - i,
{
    if i < j {
        lemma_received_for_good(n, answers, run, polls, i, j - 1, x);
        lemma_session(n, answers, run, polls, j);
    }
}

/// A task that comes to be ready gives out a value that answers it: one that its own task was
/// resolved with, whatever the order of polls, batches and deliveries. This happens at most once.
pub proof fn law_task_is_ready_with_its_own_value<T: crate::queue::TaskQueue, const N: usize>(
    n: int,
    answers: spec_fn(T::Task, T::Value) -> bool,
    run: Seq<Session<T>>,
    polls: Seq<Option<(usize, Polled<T, N>)>>,
    i: int,
    x: usize,
    value: T::Value,
)
    requires
        session_run(n, answers, run, polls),
        0 <= i < polls.len(),
        polls[i] == Some((x, Polled::<T, N>::Ready(value))),
    ensures
        answers(run[i].given[x], value),
        forall|j: int| 0 <= j < polls.len() && #[trigger] ready_at(polls, j, x) ==> j == i,
{
    lemma_session(n, answers, run, polls, i);
    run[i].lemma_polled(run[i + 1], x, Polled::<T, N>::Ready(value), answers);
    assert forall|j: int| 0 <= j < polls.len() && #[trigger] ready_at(polls, j, x) implies j == i by {
        lemma_session(n, answers, run, polls, j);
        if let Some((y, polled)) = polls[j] {
            run[j].lemma_polled(run[j + 1], y, polled, answers);
        }
        lemma_session(n, answers, run, polls, i + 1);
        lemma_session(n, answers, run, polls, j + 1);
        assert(run[i].tasks.dom().contains(x) && run[j].tasks.dom().contains(x));
        if i < j {
            lemma_received_for_good(n, answers, run, polls, i + 1, j, x);
        } else if j < i {
            lemma_received_for_good(n, answers, run, polls, j + 1, i, x);
        }
    }
}

/// No task is lost or stuck on its way to its value, however many there are. One that waits is in a
/// batch or its value is on its way, unless it was given up; one that the queue refuses waits for a
/// batch to be given back. So once all batches were resolved and all values delivered, the queue
/// accepts every task that it has not got, and every other one is ready at its next poll, with a
/// value that answers it.
pub proof fn law_no_task_is_lost<T: crate::queue::TaskQueue, const N: usize>(
    n: int,
    answers: spec_fn(T::Task, T::Value) -> bool,
    run: Seq<Session<T>>,
    polls: Seq<Option<(usize, Polled<T, N>)>>,
    i: int,
    x: usize,
)
    requires
        session_run(n, answers, run, polls),
        0 <= i < run.len(),
        run[i].tasks.dom().contains(x),
    ensures
        run[i].accounted(x, answers),
        run[i].tasks[x] is Unbatched && run[i].queue.refuses() ==> run[i].queue.batches.dom()
            != Set::<int>::empty(),
        run[i].queue.batches.dom() == Set::<int>::empty() && run[i].mail.dom()
            == Set::<usize>::empty() && !run[i].given_up.contains(x) ==> match run[i].tasks[x] {
            State::Unbatched { task } => !run[i].queue.refuses() && task == run[i].given[x],
            State::Batched(rx) => rx.value matches Some(value) && answers(run[i].given[x], value),
            State::Received => true,
        },
{
    lemma_session(n, answers, run, polls, i);
    if run[i].queue.batches.dom() == Set::<int>::empty() {
        law_unoccupied_queue_accepts(run[i].queue);
    }
}

/// It makes no difference whether the trait of an impl block is written with the name of the library
/// before it: the same is written out, or nothing.
pub proof fn law_prefix_makes_no_difference(
    opt: Result<QueueOpt, Seq<char>>,
    name: Seq<char>,
    items: Seq<Option<Seq<char>>>,
    short: Result<Plan, ExpandError>,
    long: Result<Plan, ExpandError>,
)
    requires
        crate::expand::planned(
            opt,
            Ok(OutlineView { trait_path: Some(seq![name]), items }),
            short,
        ),
        crate::expand::planned(
            opt,
            Ok(OutlineView { trait_path: Some(seq!["stack_queue"@, name]), items }),
            long,
        ),
    ensures
        short is Ok <==> long is Ok,
        short is Ok ==> long == short,
{
    let short_path = seq![name];
    let long_path = seq!["stack_queue"@, name];
    assert forall|known: Seq<char>| #[trigger]
        crate::expand::names_trait(short_path, known) == (name == known)
            && crate::expand::names_trait(long_path, known) == (name == known) by {
        let one = seq![known];
        let two = seq!["stack_queue"@, known];
        assert(short_path[0] == name && one[0] == known);
        assert(long_path[1] == name && two[1] == known);
        assert(short_path.len() == 1 && one.len() == 1 && long_path.len() == 2 && two.len() == 2);
    }
    assert(crate::expand::names_trait(long_path, "TaskQueue"@) == crate::expand::names_trait(
        short_path,
        "TaskQueue"@,
    ));
    assert(crate::expand::names_trait(long_path, "BackgroundQueue"@) == crate::expand::names_trait(
        short_path,
        "BackgroundQueue"@,
    ));
    assert(crate::expand::names_trait(long_path, "BatchReducer"@) == crate::expand::names_trait(
        short_path,
        "BatchReducer"@,
    ));
}

/// What is written out follows the trait. A `TaskQueue` gets a queue of tasks with receivers, the
/// others one of plain tasks; a `TaskQueue` or `BackgroundQueue` is written out again with all its
/// items, made to fit an async trait, and a `BatchReducer` with its task type alone.
pub proof fn law_expansion_follows_trait(
    opt: Result<QueueOpt, Seq<char>>,
    outline: Result<OutlineView, Seq<char>>,
    plan: Plan,
)
    requires
        crate::expand::planned(opt, outline, Ok(plan)),
    ensures
        plan.variant is TaskQueue ==> crate::expand::expanded(plan) == seq![
            Piece::Text("#[stack_queue::async_t::async_trait]"),
            Piece::Block,
        ] + crate::expand::local_pieces(CellKind::TaskRef, false) + crate::expand::local_pieces(
            CellKind::TaskRef,
            true,
        ),
        plan.variant is BackgroundQueue ==> crate::expand::expanded(plan) == seq![
            Piece::Text("#[stack_queue::async_t::async_trait]"),
            Piece::Block,
        ] + crate::expand::local_pieces(CellKind::BufferCell, false) + crate::expand::local_pieces(
            CellKind::BufferCell,
            true,
        ),
        plan.variant is BatchReducer ==> crate::expand::expanded(plan)
            == crate::expand::impl_pieces(ImplKind::TaskOnly) + crate::expand::local_pieces(
            CellKind::BufferCell,
            false,
        ) + crate::expand::local_pieces(CellKind::BufferCell, true),
{
}

} // verus!
