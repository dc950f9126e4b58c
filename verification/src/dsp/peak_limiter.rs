//! The bookkeeping of a look-ahead peak limiter.
//!
//! The limiter delays the audio by its attack time and drives its gain from
//! the loudest of the samples that are still on their way. [`PeakWindow`]
//! tracks that maximum without rescanning the window for every sample, and
//! [`DelayLine`] is the delay. Peaks are magnitudes, and the bit pattern of a
//! non-negative floating-point number orders as the number does, so a peak is
//! a `u32` here.

use vstd::prelude::*;

verus! {

/// `m` is the largest element of `s`.
pub open spec fn is_maximum(s: Seq<u32>, m: u32) -> bool {
    &&& s.contains(m)
    &&& forall|i: int| 0 <= i < s.len() ==> #[trigger] s[i] <= m
}

/// A ring seen oldest element first: element `at` is the oldest.
pub open spec fn unrolled<T>(ring: Seq<T>, at: int) -> Seq<T> {
    ring.skip(at) + ring.take(at)
}

proof fn lemma_unrolled_push<T>(ring: Seq<T>, at: int, x: T)
    requires
        0 <= at < ring.len(),
    ensures
        ({
            let next = if at + 1 == ring.len() {
                0
            } else {
                at + 1
            };
            unrolled(ring.update(at, x), next) == unrolled(ring, at).skip(1).push(x)
        }),
        unrolled(ring, at)[0] == ring[at],
{
    let next = if at + 1 == ring.len() {
        0
    } else {
        at + 1
    };
    assert(unrolled(ring.update(at, x), next) =~= unrolled(ring, at).skip(1).push(x));
}

proof fn lemma_unrolled_maximum(ring: Seq<u32>, at: int, m: u32)
    requires
        0 <= at < ring.len(),
        is_maximum(ring, m),
    ensures
        is_maximum(unrolled(ring, at), m),
{
    let s = unrolled(ring, at);
    let i = choose|i: int| 0 <= i < ring.len() && ring[i] == m;
    let j = if i >= at {
        i - at
    } else {
        i - at + ring.len()
    };
    assert(s[j] == m);
    assert forall|k: int| 0 <= k < s.len() implies #[trigger] s[k] <= m by {
        if k < ring.len() - at {
            assert(s[k] == ring[k + at]);
        } else {
            assert(s[k] == ring[k + at - ring.len()]);
        }
    }
}

/// The last so many peaks, and the largest of them. Viewed as the peaks,
/// oldest first.
pub struct PeakWindow {
    peaks: Vec<u32>,
    max_idx: usize,
    write_ptr: usize,
}

impl View for PeakWindow {
    type V = Seq<u32>;

    closed spec fn view(&self) -> Seq<u32> {
        unrolled(self.peaks@, self.write_ptr as int)
    }
}

impl PeakWindow {
    /// The remembered index is that of a largest element.
    pub closed spec fn wf(self) -> bool {
        &&& self.max_idx < self.peaks@.len()
        &&& self.write_ptr < self.peaks@.len()
        &&& forall|i: int|
            0 <= i < self.peaks@.len() ==> #[trigger] self.peaks@[i]
                <= self.peaks@[self.max_idx as int]
    }

    /// A window of `len` samples of silence.
    pub fn new(len: usize) -> (r: Self)
        requires
            len > 0,
        ensures
            r.wf(),
            r@ == Seq::new(len as nat, |i: int| 0u32),
    {
        let mut peaks: Vec<u32> = Vec::new();
        let mut i: usize = 0;
        while i < len
            invariant
                i <= len,
                peaks@.len() == i,
                forall|k: int| 0 <= k < i ==> #[trigger] peaks@[k] == 0,
            decreases len - i,
        {
            peaks.push(0);
            i += 1;
        }
        let r = PeakWindow { peaks, max_idx: 0, write_ptr: 0 };
        assert(r@ =~= Seq::new(len as nat, |i: int| 0u32));
        r
    }

    /// Lets `peak` in and the oldest peak out, and returns the largest of the
    /// window.
    pub fn push(&mut self, peak: u32) -> (r: u32)
        requires
            old(self).wf(),
        ensures
            final(self).wf(),
            final(self)@ == old(self)@.skip(1).push(peak),
            is_maximum(final(self)@, r),
    {
        let ghost ring = self.peaks@;
        let at: usize = self.write_ptr;
        self.peaks[at] = peak;
        if self.max_idx == at {
            // The slot that held the maximum was overwritten, so whether the
            // maximum is still in the window takes a rescan.
            self.max_idx = 0;
            let mut j: usize = 1;
            while j < self.peaks.len()
                invariant
                    1 <= j <= self.peaks@.len(),
                    self.max_idx < j,
                    self.write_ptr == at,
                    at < ring.len(),
                    self.peaks@ == ring.update(at as int, peak),
                    forall|i: int|
                        0 <= i < j ==> #[trigger] self.peaks@[i]
                            <= self.peaks@[self.max_idx as int],
                decreases self.peaks@.len() - j,
            {
                if self.peaks[j] > self.peaks[self.max_idx] {
                    self.max_idx = j;
                }
                j += 1;
            }
        } else if peak >= self.peaks[self.max_idx] {
            self.max_idx = at;
        }
        self.write_ptr = if self.peaks.len() - at == 1 {
            0
        } else {
            at + 1
        };
        let r: u32 = self.peaks[self.max_idx];
        proof {
            lemma_unrolled_push(ring, at as int, peak);
            assert(self.peaks@ =~= ring.update(at as int, peak));
            assert(self.peaks@.contains(r));
            lemma_unrolled_maximum(self.peaks@, self.write_ptr as int, r);
        }
        r
    }
}

/// A delay of so many samples, viewed as the samples on their way, oldest
/// first.
pub struct DelayLine<T> {
    ring: Vec<T>,
    at: usize,
}

impl<T> View for DelayLine<T> {
    type V = Seq<T>;

    closed spec fn view(&self) -> Seq<T> {
        unrolled(self.ring@, self.at as int)
    }
}

impl<T: Copy> DelayLine<T> {
    /// The delay is at least one sample long.
    pub closed spec fn wf(self) -> bool {
        self.at < self.ring@.len()
    }

    /// A delay of `len` samples, filled with `fill`.
    pub fn new(fill: T, len: usize) -> (r: Self)
        requires
            len > 0,
        ensures
            r.wf(),
            r@ == Seq::new(len as nat, |i: int| fill),
    {
        let mut ring: Vec<T> = Vec::new();
        let mut i: usize = 0;
        while i < len
            invariant
                i <= len,
                ring@.len() == i,
                forall|k: int| 0 <= k < i ==> #[trigger] ring@[k] == fill,
            decreases len - i,
        {
            ring.push(fill);
            i += 1;
        }
        let r = DelayLine { ring, at: 0 };
        assert(r@ =~= Seq::new(len as nat, |i: int| fill));
        r
    }

    /// Lets `x` in and the oldest sample out.
    pub fn push(&mut self, x: T) -> (r: T)
        requires
            old(self).wf(),
        ensures
            final(self).wf(),
            old(self)@.len() > 0,
            r == old(self)@[0],
            final(self)@ == old(self)@.skip(1).push(x),
    {
        proof {
            lemma_unrolled_push(self.ring@, self.at as int, x);
        }
        let at: usize = self.at;
        let r: T = self.ring[at];
        self.ring.set(at, x);
        self.at = if self.ring.len() - at == 1 {
            0
        } else {
            at + 1
        };
        r
    }
}

/// A delay line after `inputs` have gone through it.
pub open spec fn after_inputs<T>(line: Seq<T>, inputs: Seq<T>) -> Seq<T>
    decreases inputs.len(),
{
    if inputs.len() == 0 {
        line
    } else {
        after_inputs(line, inputs.drop_last()).skip(1).push(inputs.last())
    }
}

/// What comes out of a delay line is what went into it as many samples ago as
/// the line is long, and what it was filled with before that.
pub proof fn law_delay<T>(line: Seq<T>, inputs: Seq<T>)
    requires
        line.len() > 0,
    ensures
        after_inputs(line, inputs).len() == line.len(),
        after_inputs(line, inputs)[0] == if inputs.len() < line.len() {
            line[inputs.len() as int]
        } else {
            inputs[inputs.len() - line.len()]
        },
{
    lemma_after_inputs(line, inputs);
    assert((line + inputs).skip(inputs.len() as int)[0] == (line + inputs)[inputs.len() as int]);
}

proof fn lemma_after_inputs<T>(line: Seq<T>, inputs: Seq<T>)
    requires
        line.len() > 0,
    ensures
        after_inputs(line, inputs) == (line + inputs).skip(inputs.len() as int),
    decreases inputs.len(),
{
    if inputs.len() == 0 {
        assert((line + inputs).skip(0) =~= line);
    } else {
        lemma_after_inputs(line, inputs.drop_last());
        assert((line + inputs.drop_last()).skip(inputs.len() - 1).skip(1).push(inputs.last())
            =~= (line + inputs).skip(inputs.len() as int));
    }
}

} // verus!
