//! Buffering of the complex quadrature mirror filterbanks.
//!
//! Both banks keep their delay line as a double-length ring that is written at
//! two offsets, so that advancing a slot is a pair of writes and the windowing
//! pass always reads one contiguous run. [`SlotRing`] is that ring, for any
//! kind of sample.

use vstd::prelude::*;

verus! {

/// Subbands the analysis bank produces per time slot.
pub const QMF_ANALYSIS_BANDS: usize = 32;

/// Subbands the synthesis bank consumes per time slot.
pub const QMF_SYNTHESIS_BANDS: usize = 64;

/// Samples of history the analysis bank windows.
pub const ANALYSIS_HISTORY: usize = 320;

/// Samples of history the synthesis bank windows at full width.
pub const SYNTHESIS_HISTORY: usize = 1280;

/// How many subbands a synthesis bank runs, which sets its output rate.
#[derive(Debug, Clone, Copy, PartialEq, Eq, Structural)]
pub enum SynthesisWidth {
    /// 64 subbands to 64 samples: the normal SBR output, at twice the core rate.
    Full,
    /// 32 subbands to 32 samples: core-rate output for downsampled SBR.
    Downsampled,
}

impl SynthesisWidth {
    pub open spec fn band_count(self) -> usize {
        match self {
            Self::Full => 64,
            Self::Downsampled => 32,
        }
    }

    /// Subbands consumed, and samples produced, per time slot.
    pub fn bands(self) -> (r: usize)
        ensures
            r == self.band_count(),
    {
        match self {
            Self::Full => 64,
            Self::Downsampled => 32,
        }
    }

    /// Samples of history the bank windows: ten slots of modulated samples.
    pub fn history(self) -> (r: usize)
        ensures
            r == 20 * self.band_count(),
            r <= SYNTHESIS_HISTORY,
    {
        20 * self.bands()
    }
}

/// The last `span` samples of a signal that arrives in slots, newest slot
/// first.
pub struct SlotRing<T> {
    /// Two copies of the history, so that a read of `span` samples never
    /// wraps.
    buf: Vec<T>,
    span: usize,
    slot: usize,
    /// Where the history starts.
    cursor: usize,
}

impl<T> View for SlotRing<T> {
    type V = Seq<T>;

    closed spec fn view(&self) -> Seq<T> {
        self.buf@.subrange(self.cursor as int, self.cursor + self.span)
    }
}

impl<T: Copy> SlotRing<T> {
    /// The two copies agree and the history starts at a slot boundary.
    pub closed spec fn wf(self) -> bool {
        &&& self.slot > 0
        &&& 2 * self.span <= usize::MAX
        &&& self.span % self.slot == 0
        &&& self.cursor % self.slot == 0
        &&& self.cursor <= self.span
        &&& self.slot <= self.span
        &&& self.buf@.len() == 2 * self.span
        &&& forall|i: int|
            #![trigger self.buf@[i]]
            0 <= i < self.span ==> self.buf@[i] == self.buf@[i + self.span]
    }

    /// The length of a slot.
    pub closed spec fn slot_len(self) -> nat {
        self.slot as nat
    }

    /// A history of `slots` slots of `slot` samples, all of them `fill`.
    pub fn new(fill: T, slot: usize, slots: usize) -> (r: Self)
        requires
            slot > 0,
            slots > 0,
            2 * (slot * slots) <= usize::MAX,
        ensures
            r.wf(),
            r.slot_len() == slot,
            r@ == Seq::new((slot * slots) as nat, |i: int| fill),
    {
        proof {
            assert(slot * slots >= slot) by (nonlinear_arith)
                requires
                    slots > 0,
                    slot > 0,
            ;
            vstd::arithmetic::div_mod::lemma_mod_multiples_basic(slots as int, slot as int);
            assert(slot * slots == slots * slot) by (nonlinear_arith);
        }
        let span: usize = slot * slots;
        let mut buf: Vec<T> = Vec::new();
        let mut i: usize = 0;
        while i < 2 * span
            invariant
                i <= 2 * span,
                2 * span <= usize::MAX,
                buf@.len() == i,
                forall|k: int| 0 <= k < i ==> #[trigger] buf@[k] == fill,
            decreases 2 * span - i,
        {
            buf.push(fill);
            i += 1;
        }
        let r = SlotRing { buf, span, slot, cursor: span };
        assert(r@ =~= Seq::new((slot * slots) as nat, |i: int| fill));
        r
    }

    /// Forgets all history: every sample becomes `fill`.
    pub fn reset(&mut self, fill: T)
        requires
            old(self).wf(),
        ensures
            final(self).wf(),
            final(self).slot_len() == old(self).slot_len(),
            final(self)@ == old(self)@.map_values(|x: T| fill),
    {
        let mut i: usize = 0;
        while i < self.buf.len()
            invariant
                i <= self.buf@.len(),
                self.buf@.len() == old(self).buf@.len(),
                self.span == old(self).span,
                self.slot == old(self).slot,
                forall|k: int| 0 <= k < i ==> #[trigger] self.buf@[k] == fill,
            decreases self.buf@.len() - i,
        {
            self.buf[i] = fill;
            i += 1;
        }
        self.cursor = self.span;
        assert(self@ =~= old(self)@.map_values(|x: T| fill));
    }

    /// Puts a slot in front of the history and drops the oldest one.
    pub fn push(&mut self, samples: &[T])
        requires
            old(self).wf(),
            samples@.len() == old(self).slot_len(),
        ensures
            final(self).wf(),
            final(self).slot_len() == old(self).slot_len(),
            final(self)@ == samples@ + old(self)@.take(old(self)@.len() - samples@.len()),
    {
        let span: usize = self.span;
        let slot: usize = self.slot;
        let ghost before = self.buf@;
        let ghost from = self.cursor as int;
        let end: usize = if self.cursor == 0 {
            span
        } else {
            self.cursor
        };
        proof {
            if end < slot {
                vstd::arithmetic::div_mod::lemma_small_mod(end as nat, slot as nat);
            }
            vstd::arithmetic::div_mod::lemma_mod_sub_multiples_vanish(end as int, slot as int);
        }
        let at: usize = end - slot;
        self.cursor = at;
        let mut m: usize = 0;
        while m < slot
            invariant
                m <= slot,
                slot == samples@.len(),
                self.span == span,
                self.slot == slot,
                self.cursor == at,
                at + slot <= span,
                self.buf@.len() == 2 * span,
                before.len() == 2 * span,
                2 * span <= usize::MAX,
                forall|k: int|
                    #![trigger self.buf@[k]]
                    0 <= k < 2 * span ==> self.buf@[k] == if at <= k < at + m {
                        samples@[k - at]
                    } else if at + span <= k < at + span + m {
                        samples@[k - at - span]
                    } else {
                        before[k]
                    },
            decreases slot - m,
        {
            self.buf[at + m] = samples[m];
            self.buf[at + span + m] = samples[m];
            m += 1;
        }
        proof {
            assert forall|i: int|
                #![trigger self.buf@[i]]
                0 <= i < span implies self.buf@[i] == self.buf@[i + span] by {
                assert(before[i] == before[i + span]);
            }
            let older = old(self)@.take(span - slot);
            assert forall|k: int| 0 <= k < span implies #[trigger] self@[k] == (samples@ + older)[k] by {
                assert(self@[k] == self.buf@[at + k]);
                if k >= slot {
                    assert(older[k - slot] == before[from + k - slot]);
                    if from == 0 {
                        assert(before[k - slot] == before[k - slot + span]);
                    }
                }
            }
            assert(self@ =~= samples@ + older);
        }
    }

    /// The history, newest slot first, as one contiguous run.
    pub fn window(&self) -> (r: &[T])
        requires
            self.wf(),
        ensures
            r@ == self@,
    {
        vstd::slice::slice_subrange(self.buf.as_slice(), self.cursor, self.cursor + self.span)
    }
}

} // verus!
