//! Every channel that the rate loop settles on can be said.

use crate::decoder::aac::huffman as decoding;
use crate::decoder::aac::inverse;
use crate::encoder::aac::huffman as coding;
use crate::encoder::aac::huffman::Codes;
use crate::encoder::aac::ics as writing;
use crate::encoder::aac::ics::{ChannelCoding, Layout};
use crate::encoder::aac::quant;
use crate::encoder::aac::quant::BandChoice;
use crate::encoder::aac::rate;
use crate::encoder::aac::rate::{
    Quantization, MAX_SCALEFACTOR, MAX_SCALEFACTOR_DELTA, MIN_SCALEFACTOR,
};
use vstd::prelude::*;

verus! {

/// Whether the tables are prefix codes that have a word for every delta within
/// reach.
pub open spec fn is_full(codes: Codes) -> bool {
    &&& decoding::is_prefix_code(codes.scalefactor)
    &&& forall|delta: int|
        -MAX_SCALEFACTOR_DELTA <= delta <= MAX_SCALEFACTOR_DELTA ==> (
        #[trigger] codes.delta_word(delta)) is Some
    &&& forall|cb: u8|
        1 <= cb <= 11 ==> decoding::is_prefix_code(#[trigger] codes.spectral_table(cb))
}

/// Whether a channel holds what the rate loop settles on: scalefactors within
/// the range of the gain field, bounded and recorded, and for each coded band
/// the cheapest codebook.
pub open spec fn is_settled(
    codes: Codes,
    coded: Quantization,
    assigned: Seq<Option<i32>>,
    offsets: Seq<usize>,
    n: nat,
) -> bool {
    let choices = coded.choices@;
    &&& assigned.len() == n
    &&& choices.len() == n
    &&& forall|b: int|
        0 <= b < n ==> (#[trigger] assigned[b] matches Some(x) ==> MIN_SCALEFACTOR <= x
            <= MAX_SCALEFACTOR)
    &&& coded.scalefactors@ == Seq::new(
        n,
        |b: int| rate::recorded(rate::bounded(assigned)[b], choices[b]),
    )
    &&& coded.first_coded == rate::first_coded_band(choices, 0, n as int)
    &&& forall|b: int|
        #![trigger choices[b]]
        0 <= b < n && choices[b].codebook != 0 ==> assigned[b] is Some && quant::choice(
            codes,
            writing::lines(coded.quant@, offsets, b),
        ) == Some(choices[b])
}

proof fn lemma_cheapest_range(codes: Codes, band: Seq<i32>, first: int, last: int)
    requires
        1 <= first,
        last <= 11,
    ensures
        quant::cheapest(codes, band, first, last) matches Some(c) ==> first <= c.codebook <= last,
    decreases last - first + 1,
{
    if first <= last {
        lemma_cheapest_range(codes, band, first, last - 1);
    }
}

/// The scalefactor that the delta of band `b` is counted from.
proof fn lemma_previous(choices: Seq<BandChoice>, sfs: Seq<i32>, b: int) -> (j: int)
    requires
        0 <= b <= choices.len(),
    ensures
        match rate::previous_coded(choices, sfs, b) {
            Some(p) => 0 <= j < b && choices[j].codebook != 0 && sfs[j] == p,
            None => forall|i: int| 0 <= i < b ==> (#[trigger] choices[i]).codebook == 0,
        },
    decreases b,
{
    if b > 0 && choices[b - 1].codebook == 0 {
        lemma_previous(choices, sfs, b - 1)
    } else {
        b - 1
    }
}

proof fn lemma_first(choices: Seq<BandChoice>, from: int, b: int, n: int)
    requires
        0 <= from <= b < n <= choices.len(),
        n <= usize::MAX,
        choices[b].codebook != 0,
        forall|i: int| 0 <= i < b ==> (#[trigger] choices[i]).codebook == 0,
    ensures
        rate::first_coded_band(choices, from, n) == Some(b as usize),
    decreases b - from,
{
    if from < b {
        assert(choices[from].codebook == 0);
        lemma_first(choices, from + 1, b, n);
    }
}

proof fn lemma_lowest_bound(assigned: Seq<Option<i32>>, n: int)
    requires
        0 <= n <= assigned.len(),
        forall|b: int|
            0 <= b < assigned.len() ==> (#[trigger] assigned[b] matches Some(x) ==> x
                >= MIN_SCALEFACTOR),
    ensures
        rate::lowest(assigned, n) matches Some(low) ==> low >= MIN_SCALEFACTOR,
    decreases n,
{
    if n > 0 {
        lemma_lowest_bound(assigned, n - 1);
        assert(assigned[n - 1] matches Some(x) ==> x >= MIN_SCALEFACTOR);
    }
}

/// What the rate loop settles on can be said: with full tables, every channel
/// it leaves can be written so that it reads back.
pub proof fn law_settled_channels_are_sayable(
    codes: Codes,
    channel: ChannelCoding,
    assigned: Seq<Option<i32>>,
    offsets: Seq<usize>,
    layout: Layout,
)
    requires
        is_full(codes),
        layout.bands() <= usize::MAX,
        is_settled(codes, channel.coded, assigned, offsets, layout.bands()),
        channel.tns matches Some(spec) ==> inverse::filter_fits(spec, layout.num_swb as int),
    ensures
        inverse::is_sayable(codes, channel, offsets, layout),
{
    let n = layout.bands();
    let choices = channel.coded.choices@;
    let sfs = channel.coded.scalefactors@;
    let q = channel.coded.quant@;
    let top = rate::ceiling(assigned);
    lemma_lowest_bound(assigned, assigned.len() as int);
    assert forall|b: int| #![trigger choices[b]] 0 <= b < n && choices[b].codebook != 0 implies {
        &&& sfs[b] == rate::capped(assigned[b]->0 as int, top)
        &&& 0 <= sfs[b] <= 255
    } by {
        assert(assigned[b] is Some);
    }
    assert forall|b: int| 0 <= b < n implies (#[trigger] choices[b]).codebook < 16 by {
        if choices[b].codebook != 0 {
            let band = writing::lines(q, offsets, b);
            let first = coding::book_for_peak(
                coding::peak(band, band.len()),
            );
            assert(first is Some);
            lemma_cheapest_range(codes, band, first->0 as int, 11);
        }
    }
    assert forall|b: int|
        #![trigger choices[b]]
        0 <= b < n && choices[b].codebook != 0 implies codes.delta_word(
        rate::delta_at(choices, sfs, b),
    ) is Some by {
        let j = lemma_previous(choices, sfs, b);
        if rate::previous_coded(choices, sfs, b) is Some {
            assert(choices[j].codebook != 0);
            rate::law_deltas_stay_codeable(assigned, b, j);
        }
    }
    assert forall|b: int| #![trigger choices[b]] 0 <= b < n && choices[b].codebook != 0 implies {
        &&& decoding::is_prefix_code(codes.spectral_table(choices[b].codebook))
        &&& quant::whole_band(codes, choices[b].codebook, writing::lines(q, offsets, b)) is Some
    } by {
        let band = writing::lines(q, offsets, b);
        let first = coding::book_for_peak(
            coding::peak(band, band.len()),
        );
        lemma_cheapest_range(codes, band, first->0 as int, 11);
        quant::law_choice_is_cheapest(codes, band, first->0);
    }
    assert forall|b: int|
        #![trigger choices[b]]
        0 <= b < n && choices[b].codebook != 0 && rate::previous_coded(choices, sfs, b) is None
        implies channel.coded.first_coded == Some(b as usize) by {
        let _ = lemma_previous(choices, sfs, b);
        lemma_first(choices, 0, b, n as int);
    }
}

} // verus!
