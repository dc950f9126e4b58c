//! Reading a channel stream undoes writing it.
//!
//! The reading side is stated as functions on a [`Cursor`], field by field as
//! the format lays them down, and [`law_payload_roundtrip`] shows that they
//! give back what the encoder put in.

use crate::bits;
use crate::bitstream;
use crate::bitstream::Cursor;
use crate::decoder::aac::huffman as decoding;
use crate::decoder::aac::ics::{TnsFilterSpec, MAX_TNS_ORDER};
use crate::encoder::aac::huffman::{Codebook, Codes};
use crate::encoder::aac::ics as writing;
use crate::encoder::aac::ics::{ChannelCoding, Layout};
use crate::encoder::aac::quant;
use crate::encoder::aac::quant::BandChoice;
use crate::encoder::aac::rate;
use crate::error::{DecodeErrorView, ErrorView};
use vstd::arithmetic::power2::*;
use vstd::prelude::*;

verus! {

pub open spec fn bad_section() -> ErrorView {
    ErrorView::Decode(DecodeErrorView::InvalidSectionLength)
}

/// A section length: steps of `width` bits until one is not all ones.
pub open spec fn read_length(c: Cursor, width: nat) -> (nat, Cursor)
    decreases c.bits.len(),
{
    let (step, rest) = c.read(width);
    if step < pow2(width) - 1 || rest.bits.len() >= c.bits.len() {
        (step, rest)
    } else {
        let (more, rest) = read_length(rest, width);
        (step + more, rest)
    }
}

/// The codebooks of `n` bands of one window group.
pub open spec fn read_group(c: Cursor, width: nat, n: nat) -> (Seq<u8>, Cursor)
    decreases n,
{
    if n == 0 {
        (Seq::empty(), c)
    } else {
        let (cb, c) = c.read(4);
        let (run, c) = read_length(c, width);
        if run == 0 || run > n {
            (Seq::empty(), c.fail_if(true, bad_section()))
        } else {
            let (more, c) = read_group(c, width, (n - run) as nat);
            (Seq::new(run, |i: int| cb as u8) + more, c)
        }
    }
}

/// The codebooks of the groups from `g` on.
pub open spec fn read_sections_from(
    c: Cursor,
    max_sfb: int,
    count: int,
    g: int,
    width: nat,
) -> (Seq<u8>, Cursor)
    decreases count - g,
{
    if g >= count {
        (Seq::empty(), c)
    } else {
        let (here, c) = read_group(c, width, max_sfb as nat);
        let (more, c) = read_sections_from(c, max_sfb, count, g + 1, width);
        (here + more, c)
    }
}

/// The scalefactors of the first `n` bands, counted up from `gain` by the
/// delta of each band that has a codebook, and where the count stands.
pub open spec fn read_scalefactors(codes: Codes, cbs: Seq<u8>, gain: int, c: Cursor, n: nat) -> (
    Seq<Option<int>>,
    int,
    Cursor,
)
    decreases n,
{
    if n == 0 {
        (Seq::empty(), gain, c)
    } else {
        let (found, running, c) = read_scalefactors(codes, cbs, gain, c, (n - 1) as nat);
        if cbs[n - 1] == 0 {
            (found.push(None), running, c)
        } else {
            let (delta, c) = decoding::read_delta(codes, c);
            (found.push(Some(running + delta)), running + delta, c)
        }
    }
}

/// A number of `width` bits as a two's complement one.
pub open spec fn signed(v: int, width: nat) -> int {
    if v < pow2((width - 1) as nat) {
        v
    } else {
        v - pow2(width)
    }
}

/// `n` reflection coefficients.
pub open spec fn read_coefficients(c: Cursor, width: nat, n: nat) -> (Seq<int>, Cursor)
    decreases n,
{
    if n == 0 {
        (Seq::empty(), c)
    } else {
        let (v, c) = c.read(width);
        let (more, c) = read_coefficients(c, width, (n - 1) as nat);
        (seq![signed(v as int, width)] + more, c)
    }
}

/// A noise shaping filter as it is read.
#[verifier::ext_equal]
pub struct ReadFilter {
    pub resolution: int,
    /// Bands from the start of the filter to the end of the band table.
    pub length: int,
    pub downward: bool,
    pub coefficients: Seq<int>,
}

/// The noise shaping data of a long window carrying one filter.
pub open spec fn read_filter(c: Cursor) -> (ReadFilter, Cursor) {
    let (_, c) = c.read(2);
    let (resolution, c) = c.read(1);
    let (length, c) = c.read(6);
    let (order, c) = c.read(5);
    if order == 0 {
        (
            ReadFilter {
                resolution: resolution as int,
                length: length as int,
                downward: false,
                coefficients: Seq::empty(),
            },
            c,
        )
    } else {
        let (downward, c) = c.flag();
        let (_, c) = c.flag();
        let (coefficients, c) = read_coefficients(c, resolution + 3, order);
        (
            ReadFilter {
                resolution: resolution as int,
                length: length as int,
                downward,
                coefficients,
            },
            c,
        )
    }
}

/// The tool flags, and the filter if there is one.
pub open spec fn read_tools(c: Cursor) -> (Option<ReadFilter>, Cursor) {
    let (_, c) = c.flag();
    let (present, c) = c.flag();
    if present {
        let (filter, c) = read_filter(c);
        let (_, c) = c.flag();
        (Some(filter), c)
    } else {
        let (_, c) = c.flag();
        (None, c)
    }
}

/// The lines of the first `n` bands; none for a band without a codebook.
pub open spec fn read_spectra(codes: Codes, cbs: Seq<u8>, offsets: Seq<usize>, c: Cursor, n: nat) -> (
    Seq<Seq<int>>,
    Cursor,
)
    decreases n,
{
    if n == 0 {
        (Seq::empty(), c)
    } else {
        let (found, c) = read_spectra(codes, cbs, offsets, c, (n - 1) as nat);
        if cbs[n - 1] == 0 {
            (found.push(Seq::empty()), c)
        } else {
            let width = (offsets[n as int] - offsets[n - 1]) as nat;
            let (values, c) = decoding::read_band(
                codes,
                cbs[n - 1],
                c,
                quant::tuples(cbs[n - 1], width),
            );
            (found.push(values), c)
        }
    }
}

/// What a channel's payload says.
#[verifier::ext_equal]
pub struct ReadChannel {
    pub codebooks: Seq<u8>,
    pub scalefactors: Seq<Option<int>>,
    pub tns: Option<ReadFilter>,
    pub spectra: Seq<Seq<int>>,
}

/// The payload of a channel.
pub open spec fn read_payload(
    codes: Codes,
    gain: int,
    offsets: Seq<usize>,
    layout: Layout,
    c: Cursor,
) -> (ReadChannel, Cursor) {
    let n = layout.bands();
    let (codebooks, c) = read_sections_from(
        c,
        layout.max_sfb as int,
        layout.group_count as int,
        0,
        layout.length_bits(),
    );
    let (scalefactors, _, c) = read_scalefactors(codes, codebooks, gain, c, n);
    let (tns, c) = read_tools(c);
    let (spectra, c) = read_spectra(codes, codebooks, offsets, c, n);
    (ReadChannel { codebooks, scalefactors, tns, spectra }, c)
}

proof fn lemma_length(n: nat, width: nat, rest: Seq<bool>)
    requires
        width >= 1,
    ensures
        read_length(Cursor::at(writing::length_field(n, width, rest)), width) == (
            n,
            Cursor::at(rest),
        ),
    decreases n,
{
    lemma_pow2_unfold(width);
    lemma_pow2_pos((width - 1) as nat);
    let escape = (pow2(width) - 1) as nat;
    if n >= escape {
        let tail = writing::length_field((n - escape) as nat, width, rest);
        lemma_length((n - escape) as nat, width, rest);
        bitstream::lemma_read_field(escape, width, tail);
        vstd::arithmetic::div_mod::lemma_small_mod(escape, pow2(width));
        reveal(bits::field);
        bits::lemma_uint_len(escape, width);
        assert(bits::field(escape, width, tail).len() == width + tail.len());
    } else {
        bitstream::lemma_read_field(n, width, rest);
        vstd::arithmetic::div_mod::lemma_small_mod(n, pow2(width));
    }
}

proof fn lemma_run_bounds(cbs: Seq<u8>)
    requires
        cbs.len() > 0,
    ensures
        1 <= writing::run_of(cbs) <= cbs.len(),
        forall|i: int| 0 <= i < writing::run_of(cbs) ==> #[trigger] cbs[i] == cbs[0],
    decreases cbs.len(),
{
    if cbs.len() > 1 && cbs[0] == cbs[1] {
        let tail = cbs.skip(1);
        lemma_run_bounds(tail);
        assert forall|i: int| 0 <= i < writing::run_of(cbs) implies #[trigger] cbs[i] == cbs[0] by {
            if i > 0 {
                assert(tail[i - 1] == tail[0]);
            }
        }
    }
}

proof fn lemma_group(cbs: Seq<u8>, width: nat, rest: Seq<bool>)
    requires
        width >= 1,
        forall|i: int| 0 <= i < cbs.len() ==> #[trigger] cbs[i] < 16,
    ensures
        read_group(Cursor::at(writing::group_sections(cbs, width, rest)), width, cbs.len()) == (
            cbs,
            Cursor::at(rest),
        ),
    decreases cbs.len(),
{
    if cbs.len() == 0 {
        assert(cbs =~= Seq::<u8>::empty());
    } else {
        let run = writing::run_of(cbs);
        lemma_run_bounds(cbs);
        let after = cbs.skip(run as int);
        let tail = writing::group_sections(after, width, rest);
        lemma2_to64();
        assert(cbs[0] < 16);
        bitstream::lemma_read_field(
            cbs[0] as nat,
            4,
            writing::length_field(run, width, tail),
        );
        lemma_length(run, width, tail);
        lemma_group(after, width, rest);
        assert(Seq::new(run, |i: int| cbs[0] as nat as u8) + after =~= cbs);
    }
}

proof fn lemma_sections(
    cbs: Seq<u8>,
    max_sfb: int,
    count: int,
    g: int,
    width: nat,
    rest: Seq<bool>,
)
    requires
        width >= 1,
        0 <= max_sfb,
        0 <= g <= count,
        max_sfb * count <= cbs.len(),
        forall|i: int| 0 <= i < max_sfb * count ==> #[trigger] cbs[i] < 16,
    ensures
        read_sections_from(
            Cursor::at(writing::sections_from(cbs, max_sfb, count, g, width, rest)),
            max_sfb,
            count,
            g,
            width,
        ) == (cbs.subrange(g * max_sfb, count * max_sfb), Cursor::at(rest)),
    decreases count - g,
{
    assert(count * max_sfb == max_sfb * count) by (nonlinear_arith);
    if g >= count {
        assert(0 <= g * max_sfb) by (nonlinear_arith)
            requires
                0 <= g,
                0 <= max_sfb,
        ;
        assert(cbs.subrange(g * max_sfb, count * max_sfb) =~= Seq::<u8>::empty());
    } else {
        let here = cbs.subrange(g * max_sfb, g * max_sfb + max_sfb);
        assert(0 <= g * max_sfb && g * max_sfb + max_sfb <= count * max_sfb) by (nonlinear_arith)
            requires
                0 <= g,
                g + 1 <= count,
                0 <= max_sfb,
        ;
        assert((g + 1) * max_sfb == g * max_sfb + max_sfb) by (nonlinear_arith);
        let tail = writing::sections_from(cbs, max_sfb, count, g + 1, width, rest);
        assert forall|i: int| 0 <= i < here.len() implies #[trigger] here[i] < 16 by {
            assert(cbs[g * max_sfb + i] < 16);
        }
        lemma_group(here, width, tail);
        lemma_sections(cbs, max_sfb, count, g + 1, width, rest);
        assert(here + cbs.subrange((g + 1) * max_sfb, count * max_sfb) =~= cbs.subrange(
            g * max_sfb,
            count * max_sfb,
        ));
    }
}

/// Whether a prefix code has a word for the delta of every coded band.
pub open spec fn has_deltas(
    codes: Codes,
    choices: Seq<BandChoice>,
    sfs: Seq<i32>,
    n: int,
) -> bool {
    &&& decoding::is_prefix_code(codes.scalefactor)
    &&& forall|b: int|
        #![trigger choices[b]]
        0 <= b < n && choices[b].codebook != 0 ==> codes.delta_word(
            rate::delta_at(choices, sfs, b),
        ) is Some
}

/// The scalefactor count after the first `n` bands, if it starts at `gain`.
spec fn count_at(choices: Seq<BandChoice>, sfs: Seq<i32>, gain: int, n: int) -> int {
    match rate::previous_coded(choices, sfs, n) {
        Some(p) => p as int,
        None => gain,
    }
}

/// The scalefactors that are sent.
pub open spec fn sent(choices: Seq<BandChoice>, sfs: Seq<i32>, n: nat) -> Seq<Option<int>> {
    Seq::new(
        n,
        |b: int|
            if choices[b].codebook == 0 {
                None
            } else {
                Some(sfs[b] as int)
            },
    )
}

proof fn lemma_scalefactors(
    codes: Codes,
    choices: Seq<BandChoice>,
    sfs: Seq<i32>,
    cbs: Seq<u8>,
    gain: int,
    n: nat,
    rest: Seq<bool>,
)
    requires
        n <= choices.len(),
        n <= sfs.len(),
        n <= cbs.len(),
        forall|b: int| 0 <= b < n ==> #[trigger] cbs[b] == choices[b].codebook,
        has_deltas(codes, choices, sfs, n as int),
        forall|b: int|
            #![trigger choices[b]]
            0 <= b < n && choices[b].codebook != 0 && rate::previous_coded(choices, sfs, b) is None
                ==> sfs[b] == gain,
    ensures
        read_scalefactors(
            codes,
            cbs,
            gain,
            Cursor::at(writing::deltas(codes, choices, sfs, n as int) + rest),
            n,
        ) == (
            sent(choices, sfs, n),
            count_at(choices, sfs, gain, n as int),
            Cursor::at(rest),
        ),
    decreases n,
{
    let all = writing::deltas(codes, choices, sfs, n as int);
    if n == 0 {
        assert(all + rest =~= rest);
        assert(sent(choices, sfs, 0) =~= Seq::<Option<int>>::empty());
    } else {
        let head = writing::deltas(codes, choices, sfs, n - 1);
        assert(cbs[n - 1] == choices[n - 1].codebook);
        if choices[n - 1].codebook == 0 {
            lemma_scalefactors(codes, choices, sfs, cbs, gain, (n - 1) as nat, rest);
            assert(sent(choices, sfs, n) =~= sent(choices, sfs, (n - 1) as nat).push(None));
        } else {
            let delta = rate::delta_at(choices, sfs, n - 1);
            let word = (codes.delta_word(delta)->0).word();
            lemma_scalefactors(codes, choices, sfs, cbs, gain, (n - 1) as nat, word + rest);
            assert((head + word) + rest =~= head + (word + rest));
            decoding::law_delta_roundtrip(codes, delta, rest);
            assert(sent(choices, sfs, n) =~= sent(choices, sfs, (n - 1) as nat).push(
                Some(sfs[n - 1] as int),
            ));
        }
    }
}

/// Whether the coefficients from `i` to `n` fit `width` bits.
pub open spec fn coefficients_fit(coef: Seq<i8>, i: int, n: int, width: nat) -> bool {
    forall|k: int|
        i <= k < n ==> -pow2((width - 1) as nat) <= #[trigger] coef[k] < pow2((width - 1) as nat)
}

/// Coefficients that fit come back from the bits they were written to.
pub(crate) proof fn lemma_coefficients(coef: Seq<i8>, i: int, n: int, width: nat, rest: Seq<bool>)
    requires
        0 <= i <= n <= coef.len(),
        width == 3 || width == 4,
        coefficients_fit(coef, i, n, width),
    ensures
        read_coefficients(
            Cursor::at(writing::coefficients(coef, i, n, width, rest)),
            width,
            (n - i) as nat,
        ) == (Seq::new((n - i) as nat, |k: int| coef[i + k] as int), Cursor::at(rest)),
    decreases n - i,
{
    if i >= n {
        assert(Seq::new(0, |k: int| coef[i + k] as int) =~= Seq::<int>::empty());
    } else {
        lemma2_to64();
        let tail = writing::coefficients(coef, i + 1, n, width, rest);
        let v = writing::coefficient_bits(coef[i]);
        bitstream::lemma_read_field(v, width, tail);
        lemma_coefficients(coef, i + 1, n, width, rest);
        assert(-pow2((width - 1) as nat) <= coef[i] < pow2((width - 1) as nat));
        assert(signed((v % pow2(width)) as int, width) == coef[i]);
        assert(seq![coef[i] as int] + Seq::new(
            (n - i - 1) as nat,
            |k: int| coef[i + 1 + k] as int,
        ) =~= Seq::new((n - i) as nat, |k: int| coef[i + k] as int));
    }
}

/// Whether every field of a filter fits its place.
pub open spec fn filter_fits(spec: TnsFilterSpec, num_swb: int) -> bool {
    &&& spec.resolution <= 1
    &&& 1 <= spec.order <= MAX_TNS_ORDER
    &&& spec.start_band <= num_swb < spec.start_band + 64
    &&& coefficients_fit(spec.coef@, 0, spec.order as int, (spec.resolution + 3) as nat)
}

/// A filter as it reads.
pub open spec fn as_read(spec: TnsFilterSpec, num_swb: int) -> ReadFilter {
    ReadFilter {
        resolution: spec.resolution as int,
        length: num_swb - spec.start_band,
        downward: spec.downward,
        coefficients: Seq::new(spec.order as nat, |k: int| spec.coef@[k] as int),
    }
}

proof fn lemma_tools(tns: Option<TnsFilterSpec>, num_swb: int, rest: Seq<bool>)
    requires
        tns matches Some(spec) ==> filter_fits(spec, num_swb),
    ensures
        read_tools(Cursor::at(writing::tools(tns, num_swb, rest))) == (
            match tns {
                Some(spec) => Some(as_read(spec, num_swb)),
                None => None,
            },
            Cursor::at(rest),
        ),
{
    let end = bits::flag(false, rest);
    bitstream::lemma_read_flag(false, rest);
    match tns {
        Some(spec) => {
            lemma2_to64();
            let data = writing::tns_data(spec, num_swb, end);
            bitstream::lemma_read_flag(false, bits::flag(true, data));
            bitstream::lemma_read_flag(true, data);
            let width = (spec.resolution + 3) as nat;
            let r6 = writing::coefficients(spec.coef@, 0, spec.order as int, width, end);
            let r5 = bits::flag(false, r6);
            let r4 = bits::flag(spec.downward, r5);
            let r3 = bits::field(spec.order as nat, 5, r4);
            let length = (num_swb - spec.start_band) as nat;
            let r2 = bits::field(length, 6, r3);
            let r1 = bits::field(spec.resolution as nat, 1, r2);
            bitstream::lemma_read_field(1, 2, r1);
            bitstream::lemma_read_field(spec.resolution as nat, 1, r2);
            bitstream::lemma_read_field(length, 6, r3);
            bitstream::lemma_read_field(spec.order as nat, 5, r4);
            bitstream::lemma_read_flag(spec.downward, r5);
            bitstream::lemma_read_flag(false, r6);
            lemma_coefficients(spec.coef@, 0, spec.order as int, width, end);
            assert(Seq::new(spec.order as nat, |k: int| spec.coef@[0 + k] as int) =~= Seq::new(
                spec.order as nat,
                |k: int| spec.coef@[k] as int,
            ));
        },
        None => {
            bitstream::lemma_read_flag(false, bits::flag(false, end));
            bitstream::lemma_read_flag(false, end);
        },
    }
}

/// Whether a prefix code can represent the lines of every coded band.
pub open spec fn has_spectra(
    codes: Codes,
    choices: Seq<BandChoice>,
    q: Seq<i32>,
    offsets: Seq<usize>,
    n: int,
) -> bool {
    forall|b: int|
        #![trigger choices[b]]
        0 <= b < n && choices[b].codebook != 0 ==> {
            &&& decoding::is_prefix_code(codes.spectral_table(choices[b].codebook))
            &&& quant::whole_band(
                codes,
                choices[b].codebook,
                writing::lines(q, offsets, b),
            ) is Some
        }
}

/// The lines of each band that are sent.
pub open spec fn sent_lines(
    choices: Seq<BandChoice>,
    q: Seq<i32>,
    offsets: Seq<usize>,
    n: nat,
) -> Seq<Seq<int>> {
    Seq::new(
        n,
        |b: int|
            if choices[b].codebook == 0 {
                Seq::empty()
            } else {
                writing::lines(q, offsets, b).map_values(|v: i32| v as int)
            },
    )
}

proof fn lemma_spectra(
    codes: Codes,
    choices: Seq<BandChoice>,
    q: Seq<i32>,
    offsets: Seq<usize>,
    cbs: Seq<u8>,
    n: nat,
    rest: Seq<bool>,
)
    requires
        n <= cbs.len(),
        forall|b: int| 0 <= b < n ==> #[trigger] cbs[b] == choices[b].codebook,
        writing::is_coding(choices, q, offsets, n as int),
        has_spectra(codes, choices, q, offsets, n as int),
    ensures
        read_spectra(
            codes,
            cbs,
            offsets,
            Cursor::at(writing::spectra(codes, choices, q, offsets, n as int) + rest),
            n,
        ) == (sent_lines(choices, q, offsets, n), Cursor::at(rest)),
    decreases n,
{
    let all = writing::spectra(codes, choices, q, offsets, n as int);
    if n == 0 {
        assert(all + rest =~= rest);
        assert(sent_lines(choices, q, offsets, 0) =~= Seq::<Seq<int>>::empty());
    } else {
        let head = writing::spectra(codes, choices, q, offsets, n - 1);
        let before = sent_lines(choices, q, offsets, (n - 1) as nat);
        assert(cbs[n - 1] == choices[n - 1].codebook);
        if choices[n - 1].codebook == 0 {
            lemma_spectra(codes, choices, q, offsets, cbs, (n - 1) as nat, rest);
            assert(sent_lines(choices, q, offsets, n) =~= before.push(Seq::empty()));
        } else {
            let cb = choices[n - 1].codebook;
            let band = writing::lines(q, offsets, n - 1);
            let word = quant::whole_band(codes, cb, band)->0;
            assert(quant::written_band(codes, cb, band) == word);
            lemma_spectra(codes, choices, q, offsets, cbs, (n - 1) as nat, word + rest);
            assert((head + word) + rest =~= head + (word + rest));
            quant::law_band_roundtrip(codes, cb, band, rest);
            assert(Seq::new(band.len(), |i: int| band[i] as int) =~= band.map_values(
                |v: i32| v as int,
            ));
            assert(sent_lines(choices, q, offsets, n) =~= before.push(
                band.map_values(|v: i32| v as int),
            ));
        }
    }
}

/// Whether everything a channel carries can be said in the format: codebook
/// numbers of four bits, a word for every delta and every tuple, a filter whose
/// fields fit, and a first scalefactor that the gain field can hold.
pub open spec fn is_sayable(
    codes: Codes,
    channel: ChannelCoding,
    offsets: Seq<usize>,
    layout: Layout,
) -> bool {
    let n = layout.bands() as int;
    let choices = channel.coded.choices@;
    let sfs = channel.coded.scalefactors@;
    &&& forall|b: int| 0 <= b < n ==> (#[trigger] choices[b]).codebook < 16
    &&& has_deltas(codes, choices, sfs, n)
    &&& has_spectra(codes, choices, channel.coded.quant@, offsets, n)
    &&& channel.tns matches Some(spec) ==> filter_fits(spec, layout.num_swb as int)
    &&& forall|b: int|
        #![trigger choices[b]]
        0 <= b < n && choices[b].codebook != 0 && rate::previous_coded(choices, sfs, b) is None
            ==> 0 <= sfs[b] <= 255 && channel.coded.first_coded is Some
            && channel.coded.first_coded->0 == b
}

/// What a channel says.
pub open spec fn said(channel: ChannelCoding, offsets: Seq<usize>, layout: Layout) -> ReadChannel {
    let n = layout.bands();
    let choices = channel.coded.choices@;
    ReadChannel {
        codebooks: writing::books(choices).take(n as int),
        scalefactors: sent(choices, channel.coded.scalefactors@, n),
        tns: match channel.tns {
            Some(spec) => Some(as_read(spec, layout.num_swb as int)),
            None => None,
        },
        spectra: sent_lines(choices, channel.coded.quant@, offsets, n),
    }
}

/// Reading the payload of a channel, from the gain that its stream starts
/// with, gives back the codebooks, the scalefactors and the lines of every
/// coded band and the noise shaping filter, and leaves what follows alone.
pub proof fn law_payload_roundtrip(
    codes: Codes,
    channel: ChannelCoding,
    offsets: Seq<usize>,
    layout: Layout,
    rest: Seq<bool>,
)
    requires
        channel.wf(offsets, layout),
        is_sayable(codes, channel, offsets, layout),
    ensures
        read_payload(
            codes,
            channel.gain(layout.bands() as int),
            offsets,
            layout,
            Cursor::at(channel.payload(codes, offsets, layout) + rest),
        ) == (said(channel, offsets, layout), Cursor::at(rest)),
{
    let n = layout.bands();
    let choices = channel.coded.choices@;
    let sfs = channel.coded.scalefactors@;
    let q = channel.coded.quant@;
    let gain = channel.gain(n as int);
    let max_sfb = layout.max_sfb as int;
    let count = layout.group_count as int;
    let width = layout.length_bits();
    let cbs = writing::books(choices);
    let spectrum = writing::spectra(codes, choices, q, offsets, n as int);
    let t = writing::tools(channel.tns, layout.num_swb as int, spectrum);
    let d = writing::deltas(codes, choices, sfs, n as int);
    lemma_sections_tail(cbs, max_sfb, count, 0, width, d + t, rest);
    lemma_tools_tail(channel.tns, layout.num_swb as int, spectrum, rest);
    let t_rest = writing::tools(channel.tns, layout.num_swb as int, spectrum + rest);
    assert((d + t) + rest =~= d + t_rest);
    assert forall|i: int| 0 <= i < max_sfb * count implies #[trigger] cbs[i] < 16 by {
        assert(choices[i].codebook < 16);
    }
    lemma_sections(cbs, max_sfb, count, 0, width, d + t_rest);
    let found = cbs.take(n as int);
    assert(0 * max_sfb == 0);
    assert(count * max_sfb == max_sfb * count) by (nonlinear_arith);
    assert(cbs.subrange(0, n as int) =~= found);
    assert forall|b: int|
        #![trigger choices[b]]
        0 <= b < n && choices[b].codebook != 0 && rate::previous_coded(choices, sfs, b) is None
        implies sfs[b] == gain by {
    }
    lemma_scalefactors(codes, choices, sfs, found, gain, n, t_rest);
    lemma_tools(channel.tns, layout.num_swb as int, spectrum + rest);
    lemma_spectra(codes, choices, q, offsets, found, n, rest);
}

proof fn lemma_length_tail(n: nat, width: nat, rest: Seq<bool>, tail: Seq<bool>)
    ensures
        writing::length_field(n, width, rest) + tail == writing::length_field(
            n,
            width,
            rest + tail,
        ),
    decreases n,
{
    broadcast use crate::bits::group_tail;

    let escape = (pow2(width) - 1) as nat;
    if escape > 0 && n >= escape {
        lemma_length_tail((n - escape) as nat, width, rest, tail);
    }
}

proof fn lemma_group_tail(cbs: Seq<u8>, width: nat, rest: Seq<bool>, tail: Seq<bool>)
    ensures
        writing::group_sections(cbs, width, rest) + tail == writing::group_sections(
            cbs,
            width,
            rest + tail,
        ),
    decreases cbs.len(),
{
    broadcast use crate::bits::group_tail;

    if cbs.len() > 0 {
        let run = writing::run_of(cbs);
        if run > 0 && run <= cbs.len() {
            let after = cbs.skip(run as int);
            lemma_group_tail(after, width, rest, tail);
            lemma_length_tail(run, width, writing::group_sections(after, width, rest), tail);
        }
    }
}

proof fn lemma_sections_tail(
    cbs: Seq<u8>,
    max_sfb: int,
    count: int,
    g: int,
    width: nat,
    rest: Seq<bool>,
    tail: Seq<bool>,
)
    ensures
        writing::sections_from(cbs, max_sfb, count, g, width, rest) + tail
            == writing::sections_from(cbs, max_sfb, count, g, width, rest + tail),
    decreases count - g,
{
    if g < count {
        lemma_sections_tail(cbs, max_sfb, count, g + 1, width, rest, tail);
        lemma_group_tail(
            cbs.subrange(g * max_sfb, g * max_sfb + max_sfb),
            width,
            writing::sections_from(cbs, max_sfb, count, g + 1, width, rest),
            tail,
        );
    }
}

pub(crate) proof fn lemma_coefficients_tail(
    coef: Seq<i8>,
    i: int,
    n: int,
    width: nat,
    rest: Seq<bool>,
    tail: Seq<bool>,
)
    ensures
        writing::coefficients(coef, i, n, width, rest) + tail == writing::coefficients(
            coef,
            i,
            n,
            width,
            rest + tail,
        ),
    decreases n - i,
{
    broadcast use crate::bits::group_tail;

    if i < n {
        lemma_coefficients_tail(coef, i + 1, n, width, rest, tail);
    }
}

proof fn lemma_tools_tail(
    tns: Option<TnsFilterSpec>,
    num_swb: int,
    rest: Seq<bool>,
    tail: Seq<bool>,
)
    ensures
        writing::tools(tns, num_swb, rest) + tail == writing::tools(tns, num_swb, rest + tail),
{
    broadcast use crate::bits::group_tail;

    if let Some(spec) = tns {
        lemma_coefficients_tail(
            spec.coef@,
            0,
            spec.order as int,
            (spec.resolution + 3) as nat,
            bits::flag(false, rest),
            tail,
        );
    }
}

} // verus!
