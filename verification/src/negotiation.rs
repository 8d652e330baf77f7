//! The steps by which the one who resolves a task and the receiver of its value agree on who
//! takes care of the value.
//!
//! Each step reads or changes the state word of the task once, so every interleaving of the two
//! ends is a sequence of these steps. Once the resolver is through, another task may get the cell
//! that holds the word; the receiver tells by the address that the cell then has.
use vstd::prelude::*;

verus! {

/// How far the one who resolves the task is.
pub enum Resolver {
    /// It has not begun.
    Idle,
    /// It announced the value and found the receiver present.
    Setting,
    /// It is through.
    Done,
    /// It gave the task up without a value.
    Abandoned,
}

/// How far the receiver is.
pub enum Ending {
    /// It waits for the value.
    Waiting,
    /// It announced that it goes, and waits until the value is no longer being handed over.
    Leaving,
    /// It went without the value, and its memory with it.
    Gone,
    /// It got the value.
    Received,
}

/// Where the value is.
pub enum Place {
    /// Not sent yet.
    Unsent,
    /// In the memory of the receiver.
    Written,
    /// In the hands of the one who awaited it.
    Taken,
    /// Dropped.
    Dropped,
}

/// The state word of a task, whether the cell that holds it is still the task's own, and the two
/// ends.
pub struct Exchange {
    pub word: usize,
    pub own: bool,
    pub resolver: Resolver,
    pub receiver: Ending,
    pub value: Place,
}

/// A bit of the state word is set.
pub open spec fn is_set(word: usize, bit: usize) -> bool {
    word & bit == bit
}

/// What setting and flipping the bits of a state word does to each of them.
pub proof fn lemma_bits(word: usize)
    by (bit_vector)
    ensures
        (word | 1) & 1 == 1,
        (word | 1) & 2 == word & 2,
        (word | 1) & 4 == word & 4,
        (word | 4) & 1 == word & 1,
        (word | 4) & 2 == word & 2,
        (word | 4) & 4 == 4,
        (word ^ (1usize | 2usize)) & 1 == 1 <==> word & 1 != 1,
        (word ^ (1usize | 2usize)) & 2 == 2 <==> word & 2 != 2,
        (word ^ (1usize | 2usize)) & 4 == word & 4,
        word & 4 == 0 <==> word & 4 != 4,
        0usize & 1 == 0,
        0usize & 2 == 0,
        0usize & 4 == 0,
{
}

impl Exchange {
    /// A task that was just written.
    pub open spec fn initial() -> Exchange {
        Exchange {
            word: 0,
            own: true,
            resolver: Resolver::Idle,
            receiver: Ending::Waiting,
            value: Place::Unsent,
        }
    }

    /// What holds between any two steps.
    pub open spec fn inv(self) -> bool {
        &&& self.own ==> (is_set(self.word, crate::task::RECEIVER_DROPPED)
            <==> self.receiver is Leaving || self.receiver is Gone)
        &&& self.own && is_set(self.word, crate::task::VALUE_SET) ==> self.resolver is Done
            && !is_set(self.word, crate::task::SETTING_VALUE)
        &&& self.own && is_set(self.word, crate::task::SETTING_VALUE) ==> self.resolver is Setting
            || (self.resolver is Done && self.receiver is Gone && self.value is Dropped)
        &&& match self.resolver {
            Resolver::Idle => {
                &&& self.own
                &&& self.value is Unsent
                &&& self.receiver is Waiting || self.receiver is Gone
            },
            Resolver::Setting => {
                &&& self.own
                &&& is_set(self.word, crate::task::SETTING_VALUE)
                &&& !(self.receiver is Gone)
                &&& self.receiver is Received <==> self.value is Taken
                &&& self.value is Unsent || self.value is Written || self.value is Taken
            },
            Resolver::Done => {
                &&& self.receiver is Received <==> self.value is Taken
                &&& self.receiver is Gone <==> self.value is Dropped
                &&& self.receiver is Waiting || self.receiver is Leaving ==> self.value is Written
                    && (self.own ==> is_set(self.word, crate::task::VALUE_SET))
            },
            Resolver::Abandoned => {
                &&& self.value is Unsent
                &&& self.receiver is Waiting || self.receiver is Gone
            },
        }
    }

    /// The resolver announces the value; a receiver that was dropped before gets none.
    pub open spec fn begun(self) -> Exchange {
        let word = self.word | crate::task::SETTING_VALUE;
        if self.word & crate::task::RECEIVER_DROPPED == 0 {
            Exchange { word, resolver: Resolver::Setting, ..self }
        } else {
            Exchange { word, resolver: Resolver::Done, value: Place::Dropped, ..self }
        }
    }

    /// The resolver writes the value into the memory of the receiver and wakes it.
    pub open spec fn written(self) -> Exchange {
        Exchange { value: Place::Written, ..self }
    }

    /// The resolver announces that the value was handed over.
    pub open spec fn finished(self) -> Exchange {
        Exchange {
            word: self.word ^ (crate::task::SETTING_VALUE | crate::task::VALUE_SET),
            resolver: Resolver::Done,
            ..self
        }
    }

    /// The resolver gives the task up.
    pub open spec fn abandoned(self) -> Exchange {
        Exchange { resolver: Resolver::Abandoned, ..self }
    }

    /// Another task gets the cell.
    pub open spec fn reused(self) -> Exchange {
        Exchange { own: false, ..self }
    }

    /// What the receiver sees of the state word.
    pub open spec fn seen(self) -> usize {
        if self.own {
            self.word
        } else {
            crate::task::VALUE_SET
        }
    }

    /// The receiver, woken, takes the value.
    pub open spec fn taken(self) -> Exchange {
        Exchange { receiver: Ending::Received, value: Place::Taken, ..self }
    }

    /// What the receiver does on its way out after it saw `word`.
    pub open spec fn settled(self, word: usize) -> Exchange {
        if is_set(word, crate::task::SETTING_VALUE) {
            Exchange { receiver: Ending::Leaving, ..self }
        } else if is_set(word, crate::task::VALUE_SET) {
            Exchange {
                receiver: Ending::Gone,
                value: if self.value is Written {
                    Place::Dropped
                } else {
                    self.value
                },
                ..self
            }
        } else {
            Exchange { receiver: Ending::Gone, ..self }
        }
    }

    /// The receiver announces that it goes.
    pub open spec fn dropped(self) -> Exchange {
        if self.own {
            Exchange { word: self.word | crate::task::RECEIVER_DROPPED, ..self }.settled(self.seen())
        } else {
            self.settled(self.seen())
        }
    }

    /// The receiver looks again whether it may go.
    pub open spec fn retried(self) -> Exchange {
        self.settled(self.seen())
    }

    /// The next state after one step of either end.
    pub open spec fn steps_to(self, next: Exchange) -> bool {
        ||| self.resolver is Idle && next == self.begun()
        ||| self.resolver is Setting && self.value is Unsent && next == self.written()
        ||| self.resolver is Setting && !(self.value is Unsent) && next == self.finished()
        ||| self.resolver is Idle && next == self.abandoned()
        ||| (self.resolver is Done || self.resolver is Abandoned) && next == self.reused()
        ||| self.receiver is Waiting && self.value is Written && next == self.taken()
        ||| self.receiver is Waiting && next == self.dropped()
        ||| self.receiver is Leaving && next == self.retried()
    }

    /// A task that was just written satisfies the invariant.
    pub proof fn lemma_initial()
        ensures
            Exchange::initial().inv(),
    {
        lemma_bits(0);
    }

    /// Every step keeps the invariant.
    pub proof fn lemma_step(self, next: Exchange)
        requires
            self.inv(),
            self.steps_to(next),
        ensures
            next.inv(),
    {
        lemma_bits(self.word);
        lemma_bits(0);
        assert(2usize & 1 == 0 && 2usize & 2 == 2) by (bit_vector);
    }
}

} // verus!
