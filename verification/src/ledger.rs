//! The bookkeeping of a queue as mathematics: which positions were written so far, and which
//! batch owns which of them.
//!
//! Positions count up from zero and never wrap; position `p` lives in buffer cell `p % n`.
use vstd::prelude::*;

verus! {

/// The positions that a live batch still owns: `front..end`. Positions before `front` were
/// taken out of the buffer already.
pub struct Span {
    pub front: int,
    pub end: int,
}

/// The bookkeeping of one queue. `tail` is the next position to write, `spans` maps the first
/// position of each live batch to what it owns, and `open` is the batch that still grows.
pub struct Ledger {
    pub tail: int,
    pub open: Option<int>,
    pub spans: Map<int, Span>,
}

/// The number of the region that holds position `p`, counted from the first region ever written.
pub open spec fn region_number(n: int, p: int) -> int {
    p / crate::helpers::region_len(n)
}

/// The region of the buffer that holds position `p`.
pub open spec fn region_at(n: int, p: int) -> int {
    if usize::BITS == 64 {
        region_number(n, p) % 8
    } else {
        region_number(n, p) % 4
    }
}

/// Where the writer would come round to the region in which the batch at `start` began.
pub open spec fn fence(n: int, start: int) -> int {
    (region_number(n, start) + crate::helpers::REGION_COUNT) * crate::helpers::region_len(n)
}

impl Ledger {
    /// Nothing was written yet.
    pub open spec fn empty() -> Ledger {
        Ledger { tail: 0, open: None, spans: Map::empty() }
    }

    /// Live batches own disjoint ranges of written positions, in order, the writer has not come
    /// round to any of them, and the one that grows reaches to the tail.
    pub open spec fn wf(self, n: int) -> bool {
        &&& self.tail >= 0
        &&& self.spans.dom().finite()
        &&& forall|s: int| #[trigger]
            self.spans.dom().contains(s) ==> {
                &&& 0 <= s <= self.spans[s].front <= self.spans[s].end <= self.tail
                &&& s < self.spans[s].end
                &&& self.tail <= fence(n, s)
            }
        &&& forall|s: int, t: int|
            #![trigger self.spans.dom().contains(s), self.spans.dom().contains(t)]
            self.spans.dom().contains(s) && self.spans.dom().contains(t) && s < t
                ==> self.spans[s].end <= t
        &&& self.open matches Some(s) ==> {
            &&& self.spans.dom().contains(s)
            &&& self.spans[s] == (Span { front: s, end: self.tail })
        }
    }

    /// The live batches that began in region `r`.
    pub open spec fn begun_in(self, n: int, r: int) -> Set<int> {
        self.spans.dom().filter(|s: int| region_at(n, s) == r)
    }

    /// The tail may be written. Where it is the first position of a region, no live batch began in
    /// that region, and fewer than 256 began in the one before.
    pub open spec fn admits(self, n: int) -> bool {
        self.tail % crate::helpers::region_len(n) == 0 ==> {
            &&& self.begun_in(n, region_at(n, self.tail)) =~= Set::<int>::empty()
            &&& self.begun_in(n, region_at(n, self.tail - 1)).len() < 256
        }
    }

    /// The live batches that began in region `r` and in the one after it, as their bytes of the
    /// occupancy word count them together.
    pub open spec fn begun_from(self, n: int, r: int) -> nat {
        if r + 1 < crate::helpers::REGION_COUNT {
            self.begun_in(n, r).len() + 256 * self.begun_in(n, r + 1).len()
        } else {
            self.begun_in(n, r).len()
        }
    }

    /// One more batch can be counted in the region of the tail.
    pub open spec fn has_room(self, n: int) -> bool {
        ||| self.tail % crate::helpers::region_len(n) == 0
        ||| self.begun_from(n, region_at(n, self.tail)) < crate::helpers::frontal_max(
            region_at(n, self.tail),
        )
    }

    /// The tail was written: it joins the batch that grows, or begins one.
    pub open spec fn pushed(self) -> Ledger {
        let start = match self.open {
            Some(s) => s,
            None => self.tail,
        };
        Ledger {
            tail: self.tail + 1,
            open: Some(start),
            spans: self.spans.insert(start, Span { front: start, end: self.tail + 1 }),
        }
    }

    /// The batch that grew does so no more.
    pub open spec fn bounded(self) -> Ledger {
        Ledger { open: None, ..self }
    }

    /// The first position that the batch at `s` still owned was taken out.
    pub open spec fn taken(self, s: int) -> Ledger {
        let span = self.spans[s];
        Ledger {
            spans: self.spans.insert(s, Span { front: span.front + 1, end: span.end }),
            ..self
        }
    }

    /// The batch at `s` gave up its range.
    pub open spec fn released(self, s: int) -> Ledger {
        Ledger { spans: self.spans.remove(s), ..self }
    }
}

/// The region of a position is the region of its buffer cell.
pub proof fn lemma_region_at(n: int, p: int)
    requires
        crate::valid_len(n),
        0 <= p,
    ensures
        0 <= p % n < n,
        region_at(n, p) == crate::helpers::region_of(n, p % n),
        0 <= region_at(n, p) < crate::helpers::REGION_COUNT,
        (p % n) % crate::helpers::region_len(n) == p % crate::helpers::region_len(n),
{
    crate::helpers::lemma_widths();
    crate::helpers::lemma_region_len(n);
    let l = crate::helpers::region_len(n);
    let c = crate::helpers::REGION_COUNT as int;
    vstd::arithmetic::div_mod::lemma_mod_breakdown(p, l, c);
    vstd::arithmetic::div_mod::lemma_mod_mod(p, l, c);
    vstd::arithmetic::div_mod::lemma_fundamental_div_mod(p, l);
    assert((l * ((p / l) % c) + p % l) / l == (p / l) % c) by {
        vstd::arithmetic::div_mod::lemma_fundamental_div_mod_converse(
            l * ((p / l) % c) + p % l, l, (p / l) % c, p % l);
    }
}

/// The region of the position before the tail is that of the tail, unless the tail enters a region:
/// then it is the one before.
pub proof fn lemma_frontier(n: int, tail: int)
    requires
        crate::valid_len(n),
        0 <= tail,
    ensures
        0 <= region_at(n, tail - 1) < crate::helpers::REGION_COUNT,
        region_at(n, tail) == if tail % crate::helpers::region_len(n) != 0 {
            region_at(n, tail - 1)
        } else if region_at(n, tail - 1) + 1 < crate::helpers::REGION_COUNT {
            region_at(n, tail - 1) + 1
        } else {
            0
        },
{
    crate::helpers::lemma_widths();
    crate::helpers::lemma_region_len(n);
    let l = crate::helpers::region_len(n);
    let q = tail / l;
    let m = tail % l;
    vstd::arithmetic::div_mod::lemma_fundamental_div_mod(tail, l);
    if m != 0 {
        vstd::arithmetic::div_mod::lemma_fundamental_div_mod_converse(tail - 1, l, q, m - 1);
    } else {
        assert(l * (q - 1) == l * q - l) by (nonlinear_arith);
        vstd::arithmetic::div_mod::lemma_fundamental_div_mod_converse(tail - 1, l, q - 1, l - 1);
    }
}

/// Where a position lies within its region, and how far its fence is.
pub proof fn lemma_fence(n: int, p: int)
    requires
        crate::valid_len(n),
        0 <= p,
    ensures
        p < fence(n, p) <= p + n,
        fence(n, p) % crate::helpers::region_len(n) == 0,
        region_number(n, fence(n, p)) == region_number(n, p) + crate::helpers::REGION_COUNT,
        region_at(n, fence(n, p)) == region_at(n, p),
        0 <= region_number(n, p),
{
    crate::helpers::lemma_widths();
    crate::helpers::lemma_region_len(n);
    let l = crate::helpers::region_len(n);
    let c = crate::helpers::REGION_COUNT as int;
    let q = p / l;
    vstd::arithmetic::div_mod::lemma_fundamental_div_mod(p, l);
    assert((q + c) * l == l * q + l * c) by (nonlinear_arith);
    vstd::arithmetic::div_mod::lemma_fundamental_div_mod_converse((q + c) * l, l, q + c, 0);
    assert(l * c > l) by (nonlinear_arith)
        requires
            l > 0,
            c >= 4,
    ;
    vstd::arithmetic::div_mod::lemma_div_pos_is_pos(p, l);
}

/// A position beyond another one by whole regions at least has a greater region number.
proof fn lemma_region_order(n: int, p: int, q: int)
    requires
        crate::valid_len(n),
        0 <= p <= q,
    ensures
        region_number(n, p) <= region_number(n, q),
        region_number(n, p) < region_number(n, q) && region_at(n, p) == region_at(n, q) ==> fence(n, p)
            <= q,
{
    crate::helpers::lemma_widths();
    crate::helpers::lemma_region_len(n);
    let l = crate::helpers::region_len(n);
    let c = crate::helpers::REGION_COUNT as int;
    vstd::arithmetic::div_mod::lemma_div_is_ordered(p, q, l);
    vstd::arithmetic::div_mod::lemma_fundamental_div_mod(q, l);
    let a = p / l;
    let b = q / l;
    if a < b && a % c == b % c {
        assert(a + c <= b);
        assert((a + c) * l <= b * l) by (nonlinear_arith)
            requires
                a + c <= b,
                l > 0,
        ;
        assert(b * l == l * b) by (nonlinear_arith);
    }
}

impl Ledger {
    /// Writing the tail where that is admitted keeps the books well formed.
    pub proof fn lemma_pushed(self, n: int)
        requires
            crate::valid_len(n),
            self.wf(n),
            self.admits(n),
        ensures
            self.pushed().wf(n),
            forall|s: int| #[trigger]
                self.spans.dom().contains(s) ==> self.tail + 1 <= fence(n, s),
            forall|r: int| #[trigger]
                self.pushed().begun_in(n, r) == if self.open is None && r == region_at(
                    n,
                    self.tail,
                ) {
                    self.begun_in(n, r).insert(self.tail)
                } else {
                    self.begun_in(n, r)
                },
            self.open is None ==> !self.spans.dom().contains(self.tail),
    {
        let next = self.pushed();
        assert forall|s: int| #[trigger] self.spans.dom().contains(s) implies self.tail + 1
            <= fence(n, s) by {
            lemma_fence(n, s);
            if self.tail == fence(n, s) {
                assert(self.begun_in(n, region_at(n, self.tail)).contains(s));
            }
        }
        lemma_fence(n, self.tail);
        assert forall|r: int| #[trigger]
            next.begun_in(n, r) == if self.open is None && r == region_at(n, self.tail) {
                self.begun_in(n, r).insert(self.tail)
            } else {
                self.begun_in(n, r)
            } by {
            if self.open is None && r == region_at(n, self.tail) {
                assert(next.begun_in(n, r) =~= self.begun_in(n, r).insert(self.tail));
            } else {
                assert(next.begun_in(n, r) =~= self.begun_in(n, r));
            }
        }
    }

    /// Giving up a range keeps the books well formed.
    pub proof fn lemma_released(self, n: int, s: int)
        requires
            self.wf(n),
            self.spans.dom().contains(s),
            self.open != Some(s),
        ensures
            self.released(s).wf(n),
            forall|r: int| #[trigger]
                self.released(s).begun_in(n, r) == if r == region_at(n, s) {
                    self.begun_in(n, r).remove(s)
                } else {
                    self.begun_in(n, r)
                },
            self.begun_in(n, region_at(n, s)).contains(s),
    {
        assert forall|r: int| #[trigger]
            self.released(s).begun_in(n, r) == if r == region_at(n, s) {
                self.begun_in(n, r).remove(s)
            } else {
                self.begun_in(n, r)
            } by {
            if r == region_at(n, s) {
                assert(self.released(s).begun_in(n, r) =~= self.begun_in(n, r).remove(s));
            } else {
                assert(self.released(s).begun_in(n, r) =~= self.begun_in(n, r));
            }
        }
    }

    /// Taking out the first owned position keeps the books well formed.
    pub proof fn lemma_taken(self, n: int, s: int)
        requires
            self.wf(n),
            self.spans.dom().contains(s),
            self.open != Some(s),
            self.spans[s].front < self.spans[s].end,
        ensures
            self.taken(s).wf(n),
            forall|r: int| #[trigger] self.taken(s).begun_in(n, r) == self.begun_in(n, r),
    {
        assert(self.taken(s).spans.dom() =~= self.spans.dom());
    }

    /// Live batches that began in the same region began in the same lap around the buffer.
    pub proof fn lemma_same_lap(self, n: int, s: int, t: int)
        requires
            crate::valid_len(n),
            self.wf(n),
            self.spans.dom().contains(s),
            self.spans.dom().contains(t),
            region_at(n, s) == region_at(n, t),
        ensures
            region_number(n, s) == region_number(n, t),
    {
        if s <= t {
            lemma_region_order(n, s, t);
        } else {
            lemma_region_order(n, t, s);
        }
    }

    /// No more live batches began in a region than it has positions, and fewer where the tail
    /// may be written.
    pub proof fn lemma_begun_in_bound(self, n: int, r: int)
        requires
            crate::valid_len(n),
            self.wf(n),
        ensures
            self.begun_in(n, r).finite(),
            self.begun_in(n, r).len() <= crate::helpers::region_len(n),
            self.admits(n) && r == region_at(n, self.tail) ==> self.begun_in(n, r).len()
                < crate::helpers::region_len(n),
    {
        crate::helpers::lemma_region_len(n);
        let l = crate::helpers::region_len(n);
        let set = self.begun_in(n, r);
        if set.len() > 0 {
            let s = set.choose();
            assert(set.contains(s));
            let a = region_number(n, s) * l;
            let at_tail = self.admits(n) && r == region_at(n, self.tail);
            if at_tail {
                self.lemma_pushed(n);
                lemma_region_order(n, s, self.tail);
                lemma_fence(n, s);
                assert(region_number(n, s) == region_number(n, self.tail));
                vstd::arithmetic::div_mod::lemma_fundamental_div_mod(self.tail, l);
                assert(a == l * region_number(n, s)) by (nonlinear_arith)
                    requires
                        a == region_number(n, s) * l,
                ;
            }
            let b = if at_tail { self.tail } else { a + l };
            let range = vstd::set_lib::set_int_range(a, b);
            assert forall|t: int| #[trigger] set.contains(t) implies range.contains(t) by {
                self.lemma_same_lap(n, s, t);
                vstd::arithmetic::div_mod::lemma_fundamental_div_mod(t, l);
                assert(a == l * region_number(n, t)) by (nonlinear_arith)
                    requires
                        a == region_number(n, t) * l,
                ;
            }
            vstd::set_lib::lemma_int_range(a, b);
            vstd::set_lib::lemma_len_subset(set, range);
        }
    }

    /// Where regions are shorter than 256 positions, there is always room to count a batch.
    pub proof fn lemma_room(self, n: int)
        requires
            crate::valid_len(n),
            self.wf(n),
            self.admits(n),
            crate::helpers::region_len(n) <= 255,
        ensures
            self.has_room(n),
    {
        self.lemma_begun_in_bound(n, region_at(n, self.tail));
        self.lemma_begun_in_bound(n, region_at(n, self.tail) + 1);
    }

    /// Live batches own distinct cells of the buffer.
    pub proof fn lemma_cells_distinct(self, n: int, s: int, t: int, p: int, q: int)
        requires
            crate::valid_len(n),
            self.wf(n),
            self.spans.dom().contains(s),
            self.spans.dom().contains(t),
            s <= p < self.spans[s].end,
            t <= q < self.spans[t].end,
            p != q,
        ensures
            p % n != q % n,
    {
        lemma_fence(n, s);
        lemma_fence(n, t);
        lemma_close_positions_differ(n, p, q);
    }

    /// Where the tail may be written, its cell belongs to no live batch.
    pub proof fn lemma_tail_cell_free(self, n: int, s: int, p: int)
        requires
            crate::valid_len(n),
            self.wf(n),
            self.admits(n),
            self.spans.dom().contains(s),
            s <= p < self.spans[s].end,
        ensures
            p % n != self.tail % n,
    {
        self.lemma_pushed(n);
        lemma_fence(n, s);
        lemma_close_positions_differ(n, p, self.tail);
    }
}

/// Positions less than a lap apart live in different cells.
pub proof fn lemma_close_positions_differ(n: int, p: int, q: int)
    requires
        n > 0,
        0 <= p,
        0 <= q,
        p != q,
        -n < p - q < n,
    ensures
        p % n != q % n,
{
    if p % n == q % n {
        let d = p - q;
        vstd::arithmetic::div_mod::lemma_mod_equivalence(p, q, n);
        assert(d % n == 0);
        if d > 0 {
            vstd::arithmetic::div_mod::lemma_small_mod(d as nat, n as nat);
        } else {
            vstd::arithmetic::div_mod::lemma_mod_equivalence(q, p, n);
            vstd::arithmetic::div_mod::lemma_small_mod((-d) as nat, n as nat);
        }
    }
}

} // verus!
