use vstd::prelude::*;
use crate::Executable;

verus! {

/// The "exclusively taken" bit of a cell's state word.
pub const LOCK_BIT: u64 = 0x8000_0000_0000_0000;

/// The "completed" bit of a cell's state word.
pub const COMP_BIT: u64 = 0x4000_0000_0000_0000;

/// The bits of a cell's state word that hold its counter.
pub const CNT_MASK: u64 = 0x3FFF_FFFF_FFFF_FFFF;

/// Both flag bits: flipping them turns Running into Completed.
pub const FLAG_BITS: u64 = 0xC000_0000_0000_0000;

pub open spec fn word_locked(w: u64) -> bool {
    w & LOCK_BIT != 0
}

pub open spec fn word_completed(w: u64) -> bool {
    w & COMP_BIT != 0
}

pub open spec fn word_count(w: u64) -> nat {
    (w & CNT_MASK) as nat
}

proof fn lemma_word_increment(w: u64)
    requires
        w & 0x3FFF_FFFF_FFFF_FFFFu64 < 0x3FFF_FFFF_FFFF_FFFFu64,
    ensures
        (w + 1) as u64 & 0x8000_0000_0000_0000u64 == w & 0x8000_0000_0000_0000u64,
        (w + 1) as u64 & 0x4000_0000_0000_0000u64 == w & 0x4000_0000_0000_0000u64,
        (w + 1) as u64 & 0x3FFF_FFFF_FFFF_FFFFu64 == (w & 0x3FFF_FFFF_FFFF_FFFFu64) + 1,
        w < 0xFFFF_FFFF_FFFF_FFFFu64,
{
    assert(w < 0xFFFF_FFFF_FFFF_FFFFu64) by (bit_vector)
        requires
            w & 0x3FFF_FFFF_FFFF_FFFFu64 < 0x3FFF_FFFF_FFFF_FFFFu64,
    ;
    assert((w + 1) as u64 & 0x8000_0000_0000_0000u64 == w & 0x8000_0000_0000_0000u64
        && (w + 1) as u64 & 0x4000_0000_0000_0000u64 == w & 0x4000_0000_0000_0000u64
        && (w + 1) as u64 & 0x3FFF_FFFF_FFFF_FFFFu64 == (w & 0x3FFF_FFFF_FFFF_FFFFu64) + 1)
        by (bit_vector)
        requires
            w & 0x3FFF_FFFF_FFFF_FFFFu64 < 0x3FFF_FFFF_FFFF_FFFFu64,
    ;
}

proof fn lemma_word_decrement(w: u64)
    requires
        w & 0x3FFF_FFFF_FFFF_FFFFu64 >= 1,
    ensures
        w >= 1,
        (w - 1) as u64 & 0x8000_0000_0000_0000u64 == w & 0x8000_0000_0000_0000u64,
        (w - 1) as u64 & 0x4000_0000_0000_0000u64 == w & 0x4000_0000_0000_0000u64,
        (w - 1) as u64 & 0x3FFF_FFFF_FFFF_FFFFu64 == (w & 0x3FFF_FFFF_FFFF_FFFFu64) - 1,
        (w == 1) == (w & 0x8000_0000_0000_0000u64 == 0 && w & 0x4000_0000_0000_0000u64 == 0
            && w & 0x3FFF_FFFF_FFFF_FFFFu64 == 1),
{
    assert(w >= 1) by (bit_vector)
        requires
            w & 0x3FFF_FFFF_FFFF_FFFFu64 >= 1,
    ;
    assert((w - 1) as u64 & 0x8000_0000_0000_0000u64 == w & 0x8000_0000_0000_0000u64
        && (w - 1) as u64 & 0x4000_0000_0000_0000u64 == w & 0x4000_0000_0000_0000u64
        && (w - 1) as u64 & 0x3FFF_FFFF_FFFF_FFFFu64 == (w & 0x3FFF_FFFF_FFFF_FFFFu64) - 1)
        by (bit_vector)
        requires
            w & 0x3FFF_FFFF_FFFF_FFFFu64 >= 1,
    ;
    assert((w == 1) == (w & 0x8000_0000_0000_0000u64 == 0 && w & 0x4000_0000_0000_0000u64 == 0
        && w & 0x3FFF_FFFF_FFFF_FFFFu64 == 1)) by (bit_vector);
}

proof fn lemma_word_fields(w: u64)
    ensures
        (w == 0) == (w & 0x8000_0000_0000_0000u64 == 0 && w & 0x4000_0000_0000_0000u64 == 0
            && w & 0x3FFF_FFFF_FFFF_FFFFu64 == 0),
        (w == 0x4000_0000_0000_0000u64) == (w & 0x8000_0000_0000_0000u64 == 0
            && w & 0x4000_0000_0000_0000u64 != 0 && w & 0x3FFF_FFFF_FFFF_FFFFu64 == 0),
        w < 0x4000_0000_0000_0000u64 ==> (w & 0x8000_0000_0000_0000u64 == 0
            && w & 0x4000_0000_0000_0000u64 == 0 && w & 0x3FFF_FFFF_FFFF_FFFFu64 == w),
        (w ^ 0xC000_0000_0000_0000u64) & 0x8000_0000_0000_0000u64 == (if w
            & 0x8000_0000_0000_0000u64 == 0 {
            0x8000_0000_0000_0000u64
        } else {
            0u64
        }),
        (w ^ 0xC000_0000_0000_0000u64) & 0x4000_0000_0000_0000u64 == (if w
            & 0x4000_0000_0000_0000u64 == 0 {
            0x4000_0000_0000_0000u64
        } else {
            0u64
        }),
        (w ^ 0xC000_0000_0000_0000u64) & 0x3FFF_FFFF_FFFF_FFFFu64 == w
            & 0x3FFF_FFFF_FFFF_FFFFu64,
        0x8000_0000_0000_0000u64 & 0x8000_0000_0000_0000u64 != 0,
        0x8000_0000_0000_0000u64 & 0x4000_0000_0000_0000u64 == 0,
        0x8000_0000_0000_0000u64 & 0x3FFF_FFFF_FFFF_FFFFu64 == 0,
        0x4000_0000_0000_0000u64 & 0x8000_0000_0000_0000u64 == 0,
        0x4000_0000_0000_0000u64 & 0x4000_0000_0000_0000u64 != 0,
        0x4000_0000_0000_0000u64 & 0x3FFF_FFFF_FFFF_FFFFu64 == 0,
{
    assert((w == 0) == (w & 0x8000_0000_0000_0000u64 == 0 && w & 0x4000_0000_0000_0000u64 == 0
        && w & 0x3FFF_FFFF_FFFF_FFFFu64 == 0)) by (bit_vector);
    assert((w == 0x4000_0000_0000_0000u64) == (w & 0x8000_0000_0000_0000u64 == 0
        && w & 0x4000_0000_0000_0000u64 != 0 && w & 0x3FFF_FFFF_FFFF_FFFFu64 == 0))
        by (bit_vector);
    assert(w < 0x4000_0000_0000_0000u64 ==> (w & 0x8000_0000_0000_0000u64 == 0
        && w & 0x4000_0000_0000_0000u64 == 0 && w & 0x3FFF_FFFF_FFFF_FFFFu64 == w))
        by (bit_vector);
    assert((w ^ 0xC000_0000_0000_0000u64) & 0x8000_0000_0000_0000u64 == (if w
        & 0x8000_0000_0000_0000u64 == 0 {
        0x8000_0000_0000_0000u64
    } else {
        0u64
    })) by (bit_vector);
    assert((w ^ 0xC000_0000_0000_0000u64) & 0x4000_0000_0000_0000u64 == (if w
        & 0x4000_0000_0000_0000u64 == 0 {
        0x4000_0000_0000_0000u64
    } else {
        0u64
    })) by (bit_vector);
    assert((w ^ 0xC000_0000_0000_0000u64) & 0x3FFF_FFFF_FFFF_FFFFu64 == w
        & 0x3FFF_FFFF_FFFF_FFFFu64) by (bit_vector);
    assert(0x8000_0000_0000_0000u64 & 0x8000_0000_0000_0000u64 != 0
        && 0x8000_0000_0000_0000u64 & 0x4000_0000_0000_0000u64 == 0
        && 0x8000_0000_0000_0000u64 & 0x3FFF_FFFF_FFFF_FFFFu64 == 0
        && 0x4000_0000_0000_0000u64 & 0x8000_0000_0000_0000u64 == 0
        && 0x4000_0000_0000_0000u64 & 0x4000_0000_0000_0000u64 != 0
        && 0x4000_0000_0000_0000u64 & 0x3FFF_FFFF_FFFF_FFFFu64 == 0) by (bit_vector);
}

/// A counter cell owning a payload, driven through a four-state machine packed
/// into one word: Counting(k), Running, Completed (and the transient
/// Running-to-Completed flip).
pub struct CountCell<T> {
    borrow: u64,
    value: T,
}

/// Proof that a cell was taken: it is handed back to release the cell into
/// the Completed state.
pub struct CountRef {
    taken: bool,
}

impl<T> CountCell<T> {
    pub closed spec fn word(&self) -> u64 {
        self.borrow
    }

    pub open spec fn is_locked(&self) -> bool {
        word_locked(self.word())
    }

    pub open spec fn is_completed(&self) -> bool {
        word_completed(self.word())
    }

    pub open spec fn count(&self) -> nat {
        word_count(self.word())
    }

    /// Counting(k): neither flag set.
    pub open spec fn is_counting(&self) -> bool {
        !self.is_locked() && !self.is_completed()
    }

    /// Ready: Counting(0), the state in which `take` succeeds.
    pub open spec fn is_ready(&self) -> bool {
        self.is_counting() && self.count() == 0
    }

    /// Running: taken, the counter at zero.
    pub open spec fn is_running(&self) -> bool {
        self.is_locked() && !self.is_completed()
    }

    /// Completed with no pending locks: the state in which `reset` is legal.
    pub open spec fn is_resettable(&self) -> bool {
        !self.is_locked() && self.is_completed() && self.count() == 0
    }

    pub closed spec fn payload(&self) -> T {
        self.value
    }

    /// A new cell in the Completed state, ready to be reset.
    pub fn new(value: T) -> (r: Self)
        ensures
            r.is_resettable(),
            r.payload() == value,
    {
        proof {
            lemma_word_fields(0);
        }
        CountCell { borrow: COMP_BIT, value }
    }

    /// Moves a Completed cell to Counting(`value`).
    pub fn reset(&mut self, value: u64)
        requires
            old(self).is_resettable(),
            value < COMP_BIT,
        ensures
            final(self).is_counting(),
            final(self).count() == value,
            final(self).payload() == old(self).payload(),
    {
        proof {
            lemma_word_fields(self.borrow);
            lemma_word_fields(value);
        }
        self.borrow = value;
    }

    /// Increments the counter, leaving both flags as they are.
    pub fn lock(&mut self)
        requires
            old(self).count() < CNT_MASK,
        ensures
            final(self).is_locked() == old(self).is_locked(),
            final(self).is_completed() == old(self).is_completed(),
            final(self).count() == old(self).count() + 1,
            final(self).payload() == old(self).payload(),
    {
        proof {
            lemma_word_increment(self.borrow);
        }
        self.borrow = self.borrow + 1;
    }

    /// Decrements the counter; true iff the cell went from Counting(1) to Ready.
    pub fn unlock(&mut self) -> (r: bool)
        requires
            old(self).count() >= 1,
        ensures
            final(self).is_locked() == old(self).is_locked(),
            final(self).is_completed() == old(self).is_completed(),
            final(self).count() == old(self).count() - 1,
            final(self).payload() == old(self).payload(),
            r == (old(self).is_counting() && old(self).count() == 1),
    {
        proof {
            lemma_word_decrement(self.borrow);
        }
        let old_word = self.borrow;
        self.borrow = self.borrow - 1;
        old_word == 1
    }

    /// Moves a Ready cell to Running and hands out the proof of it; any other
    /// cell is left as it is and nothing is handed out.
    pub fn take(&mut self) -> (r: Option<CountRef>)
        ensures
            r.is_some() == old(self).is_ready(),
            r.is_some() ==> final(self).is_running() && final(self).count() == 0,
            r.is_none() ==> *final(self) == *old(self),
            final(self).payload() == old(self).payload(),
    {
        proof {
            lemma_word_fields(self.borrow);
            lemma_word_fields(LOCK_BIT);
        }
        if self.borrow == 0 {
            self.borrow = LOCK_BIT;
            Some(CountRef { taken: true })
        } else {
            None
        }
    }

    /// Releases a taken cell: Running becomes Completed, the counter is kept.
    pub fn release(&mut self, handle: CountRef)
        requires
            old(self).is_running(),
        ensures
            !final(self).is_locked(),
            final(self).is_completed(),
            final(self).count() == old(self).count(),
            final(self).payload() == old(self).payload(),
    {
        proof {
            lemma_word_fields(self.borrow);
        }
        let _ = handle.taken;
        self.borrow = self.borrow ^ FLAG_BITS;
    }

    /// Runs the payload of a taken cell; the state word is left as it is.
    pub fn run_payload<D>(&mut self, data: &D)
        where T: Executable<D>,
        requires
            old(self).is_running(),
        ensures
            final(self).word() == old(self).word(),
    {
        self.value.run(data)
    }

    /// The payload.
    pub fn get(&self) -> (r: &T)
        ensures
            *r == self.payload(),
    {
        &self.value
    }
}

} // verus!
