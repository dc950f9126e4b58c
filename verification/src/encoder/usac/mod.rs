//! MPEG-D USAC encoding.
//!
//! This module itself decides between the two core modes.

use crate::decoder::usac::UsacCoreMode;
use vstd::prelude::*;

pub mod arith;
pub mod coding;
pub mod container;
pub mod fd;
pub mod tns;

verus! {

/// Samples in a frame.
pub const CLASSIFIED_LEN: usize = 1024;

/// Zero crossings from which on a frame counts as music.
pub const MUSIC_CROSSINGS: usize = 80;

/// Which side of zero a sample is on; a sample that is not a number is on
/// neither.
#[derive(Debug, Clone, Copy, PartialEq, Eq, Structural)]
pub enum Side {
    NotNegative,
    Negative,
    Neither,
}

/// Whether two successive samples are on opposite sides of zero.
pub open spec fn crosses(a: Side, b: Side) -> bool {
    (a == Side::NotNegative && b == Side::Negative) || (a == Side::Negative && b
        == Side::NotNegative)
}

/// The zero crossings among the first `n` samples.
pub open spec fn crossings(sides: Seq<Side>, n: int) -> nat
    decreases n,
{
    if n <= 1 {
        0
    } else {
        crossings(sides, n - 1) + if crosses(sides[n - 2], sides[n - 1]) {
            1nat
        } else {
            0
        }
    }
}

/// USAC speech and music classifier.
#[derive(Debug, Clone, Copy, PartialEq, Eq, Structural)]
pub struct UsacEncoder;

impl Default for UsacEncoder {
    fn default() -> (r: Self)
        ensures
            r == UsacEncoder,
    {
        UsacEncoder
    }
}

impl UsacEncoder {
    pub fn new() -> (r: Self)
        ensures
            r == UsacEncoder,
    {
        UsacEncoder
    }

    /// Decides the core mode of a frame from the sides of zero its samples are
    /// on: speech crosses zero less often than music.
    pub fn classify_frame(&self, sides: &[Side]) -> (r: UsacCoreMode)
        requires
            sides@.len() == CLASSIFIED_LEN,
        ensures
            r == if crossings(sides@, CLASSIFIED_LEN as int) < MUSIC_CROSSINGS {
                UsacCoreMode::LpdMode
            } else {
                UsacCoreMode::FdMode
            },
    {
        let mut zcr: usize = 0;
        let mut i: usize = 1;
        while i < sides.len()
            invariant
                1 <= i <= sides@.len(),
                sides@.len() == CLASSIFIED_LEN,
                zcr == crossings(sides@, i as int),
                zcr <= i,
            decreases sides@.len() - i,
        {
            let before: Side = sides[i - 1];
            let here: Side = sides[i];
            if (before == Side::NotNegative && here == Side::Negative) || (before == Side::Negative
                && here == Side::NotNegative) {
                zcr = zcr + 1;
            }
            i += 1;
        }
        if zcr < MUSIC_CROSSINGS {
            UsacCoreMode::LpdMode
        } else {
            UsacCoreMode::FdMode
        }
    }
}

/// Two stretches of samples have the crossings of each and one more where
/// they meet on opposite sides of zero. One sample has none.
pub proof fn law_crossings_of_two_stretches(a: Seq<Side>, b: Seq<Side>)
    requires
        a.len() >= 1,
        b.len() >= 1,
    ensures
        ({
            let meet = match (a.last(), b[0]) {
                (Side::NotNegative, Side::Negative) => 1int,
                (Side::Negative, Side::NotNegative) => 1,
                _ => 0,
            };
            crossings(a + b, (a + b).len() as int) == crossings(a, a.len() as int) + crossings(
                b,
                b.len() as int,
            ) + meet
        }),
        a.len() == 1 ==> crossings(a, 1) == 0,
    decreases b.len(),
{
    if b.len() == 1 {
        lemma_crossings_same(a, a + b, a.len() as int);
    } else {
        let c = b.drop_last();
        law_crossings_of_two_stretches(a, c);
        lemma_crossings_same(a + c, a + b, (a + c).len() as int);
        lemma_crossings_same(c, b, c.len() as int);
        let n = (a + b).len() as int;
        assert((a + b)[n - 1] == b[b.len() - 1] && (a + b)[n - 2] == b[b.len() - 2]);
    }
}

proof fn lemma_crossings_same(a: Seq<Side>, b: Seq<Side>, n: int)
    requires
        n <= a.len(),
        n <= b.len(),
        forall|k: int| 0 <= k < n ==> #[trigger] a[k] == b[k],
    ensures
        crossings(a, n) == crossings(b, n),
    decreases n,
{
    if n > 1 {
        lemma_crossings_same(a, b, n - 1);
    }
}

} // verus!
