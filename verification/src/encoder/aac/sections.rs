//! How the sections of a window group are written.

use crate::bits;
use crate::encoder::aac::huffman::Codes;
use crate::encoder::aac::ics;
use crate::encoder::aac::ics::{ChannelCoding, Layout};
use crate::encoder::aac::quant;
use crate::encoder::aac::quant::BandChoice;
use crate::layouts;
use crate::types::WindowSequence;
use vstd::arithmetic::power2::*;
use vstd::prelude::*;

verus! {

/// A run starts with its first element, all its elements are the same, and
/// what follows it is another.
pub proof fn law_run(cbs: Seq<u8>)
    requires
        cbs.len() >= 1,
    ensures
        1 <= ics::run_of(cbs) <= cbs.len(),
        forall|i: int| 0 <= i < ics::run_of(cbs) ==> #[trigger] cbs[i] == cbs[0],
        ics::run_of(cbs) < cbs.len() ==> cbs[ics::run_of(cbs) as int] != cbs[0],
    decreases cbs.len(),
{
    if cbs.len() > 1 && cbs[0] == cbs[1] {
        let rest = cbs.skip(1);
        law_run(rest);
        assert forall|i: int| 0 <= i < ics::run_of(cbs) implies #[trigger] cbs[i] == cbs[0] by {
            if i >= 1 {
                assert(rest[i - 1] == rest[0]);
            }
        }
        if ics::run_of(cbs) < cbs.len() {
            assert(cbs[ics::run_of(cbs) as int] == rest[ics::run_of(rest) as int]);
        }
    }
}

proof fn lemma_all_ones(ones: nat, width: nat, i: int)
    requires
        (width == 3 && ones == 7) || (width == 5 && ones == 31),
        0 <= i < width,
    ensures
        (ones / pow2((width - 1 - i) as nat)) % 2 == 1,
{
    lemma2_to64();
    let k = (width - 1 - i) as nat;
    let p = pow2(k);
    assert(p == 1 || p == 2 || p == 4 || p == 8 || p == 16) by {
        assert(k == 0 || k == 1 || k == 2 || k == 3 || k == 4);
    }
    assert(p == 1 ==> ones / p == ones);
    assert(p == 2 ==> ones / p == ones / 2);
    assert(p == 4 ==> ones / p == ones / 4);
    assert(p == 8 ==> ones / p == ones / 8);
    assert(p == 16 ==> ones / p == ones / 16);
    assert(width == 3 ==> k <= 2 && (p == 1 || p == 2 || p == 4)) by {
        assert(width == 3 ==> k == 0 || k == 1 || k == 2);
    }
}

/// A section length is as many fields of all ones as go into it, and one field
/// for the rest.
pub proof fn law_length_of_a_section(n: nat, width: nat, rest: Seq<bool>)
    requires
        width == 3 || width == 5,
    ensures
        ({
            let ones = if width == 3 { 7int } else { 31 };
            let s = ics::length_field(n, width, rest);
            let fields = n as int / ones;
            &&& s.len() == width * (fields + 1) + rest.len()
            &&& forall|i: int| 0 <= i < width * fields ==> #[trigger] s[i]
            &&& bits::value(s.subrange(width * fields, width * fields + width)) == n as int % ones
            &&& s.skip(width * fields + width) == rest
        }),
    decreases n,
{
    reveal(bits::field);
    lemma2_to64();
    let ones = if width == 3 { 7nat } else { 31 };
    let s = ics::length_field(n, width, rest);
    let fields = n as int / ones as int;
    if n >= ones {
        let m = (n - ones) as nat;
        law_length_of_a_section(m, width, rest);
        let t = ics::length_field(m, width, rest);
        let head = bits::uint(ones, width);
        bits::lemma_uint_len(ones, width);
        assert(s == head + t);
        let less = m as int / ones as int;
        assert(less == fields - 1);
        assert(width * fields == width * less + width) by (nonlinear_arith)
            requires
                less == fields - 1,
        ;
        assert(width * (fields + 1) == width * (less + 1) + width) by (nonlinear_arith)
            requires
                less == fields - 1,
        ;
        assert(0 <= width * less) by (nonlinear_arith)
            requires
                less >= 0,
        ;
        assert forall|i: int| 0 <= i < width * fields implies #[trigger] s[i] by {
            if i < width {
                bits::lemma_uint_index(ones, width, i);
                lemma_all_ones(ones, width, i);
                assert(s[i] == head[i]);
            } else {
                assert(t[i - width]);
            }
        }
        assert(s.subrange(width * fields, width * fields + width) =~= t.subrange(
            width * less,
            width * less + width,
        ));
        assert(s.skip(width * fields + width) =~= t.skip(width * less + width));
    } else {
        let head = bits::uint(n, width);
        bits::lemma_uint_len(n, width);
        assert(s == head + rest);
        assert(fields == 0);
        assert(width * fields == 0) by (nonlinear_arith)
            requires
                fields == 0,
        ;
        assert(s.subrange(0, width as int) =~= head);
        bits::lemma_value_of_uint_exact(n, width);
        assert(s.skip(width as int) =~= rest);
    }
}

/// A group starts with the codebook of its first band, in four bits, and the
/// length of its first run, in three or five.
pub proof fn law_first_section(cbs: Seq<u8>, width: nat, rest: Seq<bool>)
    requires
        cbs.len() >= 1,
        cbs[0] < 16,
        width == 3 || width == 5,
    ensures
        ({
            let s = ics::group_sections(cbs, width, rest);
            let ones = if width == 3 { 7int } else { 31 };
            let run = ics::run_of(cbs) as int;
            &&& layouts::number_at(s, 0, 4) == cbs[0]
            &&& layouts::number_at(s, 4, width) == if run < ones {
                run
            } else {
                ones
            }
            &&& run < ones ==> s.skip(4 + width as int) == ics::group_sections(
                cbs.skip(run),
                width,
                rest,
            )
        }),
        ics::group_sections(Seq::empty(), width, rest) == rest,
{
    broadcast use layouts::lemma_at_field;

    lemma2_to64();
    law_run(cbs);
    let run = ics::run_of(cbs);
    let more = ics::group_sections(cbs.skip(run as int), width, rest);
    let ones = if width == 3 { 7int } else { 31 };
    let s = ics::group_sections(cbs, width, rest);
    let field = ics::length_field(run, width, more);
    assert(s == bits::field(cbs[0] as nat, 4, field));
    assert(layouts::number_at(s, 4, width) == layouts::number_at(field, 0, width));
    reveal(bits::field);
    bits::lemma_uint_len(cbs[0] as nat, 4);
    bits::lemma_uint_len(run, width);
    if run < ones {
        assert(s.skip(4 + width as int) =~= more);
    }
}

/// A section length has three bits in a frame of short windows and five in any
/// other. The groups of a frame follow one another, each with its own bands.
pub proof fn law_sections_of_a_frame(layout: Layout, cbs: Seq<u8>, rest: Seq<bool>)
    ensures
        layout.length_bits() == if layout.sequence == WindowSequence::EightShortSequence {
            3nat
        } else {
            5
        },
        layout.group_count == 1 && cbs.len() == layout.max_sfb ==> ics::sections(layout, cbs, rest)
            == ics::group_sections(cbs, layout.length_bits(), rest),
        layout.group_count == 2 && cbs.len() == 2 * layout.max_sfb ==> ics::sections(
            layout,
            cbs,
            rest,
        ) == ics::group_sections(
            cbs.take(layout.max_sfb as int),
            layout.length_bits(),
            ics::group_sections(cbs.skip(layout.max_sfb as int), layout.length_bits(), rest),
        ),
{
    reveal_with_fuel(ics::sections_from, 3);
    let m = layout.max_sfb as int;
    assert(0 * m == 0 && 1 * m == m);
    if layout.group_count == 1 && cbs.len() == m {
        assert(cbs.subrange(0, m) =~= cbs);
    }
    if layout.group_count == 2 && cbs.len() == 2 * m {
        assert(cbs.subrange(0, m) =~= cbs.take(m));
        assert(cbs.subrange(m, m + m) =~= cbs.skip(m));
    }
}

/// Another band adds the codeword of its delta and the bits of its lines where
/// it is coded, and nothing where it is not.
pub proof fn law_another_band(
    codes: Codes,
    choices: Seq<BandChoice>,
    sfs: Seq<i32>,
    q: Seq<i32>,
    offsets: Seq<usize>,
    n: int,
)
    requires
        n >= 0,
    ensures
        ics::deltas(codes, choices, sfs, 0).len() == 0,
        ics::spectra(codes, choices, q, offsets, 0).len() == 0,
        choices[n].codebook == 0 ==> ics::deltas(codes, choices, sfs, n + 1) == ics::deltas(
            codes,
            choices,
            sfs,
            n,
        ) && ics::spectra(codes, choices, q, offsets, n + 1) == ics::spectra(
            codes,
            choices,
            q,
            offsets,
            n,
        ),
        choices[n].codebook != 0 ==> ics::spectra(codes, choices, q, offsets, n + 1)
            == ics::spectra(codes, choices, q, offsets, n) + quant::written_band(
            codes,
            choices[n].codebook,
            q.subrange(offsets[n] as int, offsets[n + 1] as int),
        ),
        ({
            let step = crate::encoder::aac::rate::delta_at(choices, sfs, n);
            choices[n].codebook != 0 && codes.scalefactor.len() == 121 && -60 <= step <= 60
                && codes.scalefactor[60 + step].len > 0 ==> ics::deltas(codes, choices, sfs, n + 1)
                == ics::deltas(codes, choices, sfs, n) + bits::uint(
                codes.scalefactor[60 + step].bits as nat,
                codes.scalefactor[60 + step].len as nat,
            )
        }),
{
}

/// Behind the sections come the deltas, the flags of the tools that are not
/// used and of noise shaping, and the spectra.
pub proof fn law_payload_in_order(
    codes: Codes,
    ch: ChannelCoding,
    offsets: Seq<usize>,
    layout: Layout,
)
    ensures
        ({
            let n = layout.max_sfb * layout.group_count;
            let cbs = Seq::new(ch.coded.choices@.len(), |b: int| ch.coded.choices@[b].codebook);
            let d = ics::deltas(codes, ch.coded.choices@, ch.coded.scalefactors@, n);
            let spectrum = ics::spectra(codes, ch.coded.choices@, ch.coded.quant@, offsets, n);
            ch.tns is None ==> ch.payload(codes, offsets, layout) == ics::sections(
                layout,
                cbs,
                d + seq![false, false, false] + spectrum,
            )
        }),
        ({
            let n = layout.max_sfb * layout.group_count;
            let cbs = Seq::new(ch.coded.choices@.len(), |b: int| ch.coded.choices@[b].codebook);
            let d = ics::deltas(codes, ch.coded.choices@, ch.coded.scalefactors@, n);
            let spectrum = ics::spectra(codes, ch.coded.choices@, ch.coded.quant@, offsets, n);
            ch.tns matches Some(f) ==> ch.payload(codes, offsets, layout) == ics::sections(
                layout,
                cbs,
                d + seq![false, true] + ics::tns_data(
                    f,
                    layout.num_swb as int,
                    seq![false] + spectrum,
                ),
            )
        }),
{
    reveal(bits::flag);
    let n = layout.max_sfb * layout.group_count;
    assert(n >= 0) by (nonlinear_arith)
        requires
            n == layout.max_sfb * layout.group_count,
            layout.max_sfb >= 0,
            layout.group_count >= 0,
    ;
    let choices = ch.coded.choices@;
    let cbs = Seq::new(choices.len(), |b: int| choices[b].codebook);
    assert(ics::books(choices) =~= cbs);
    let d = ics::deltas(codes, choices, ch.coded.scalefactors@, n);
    let spectrum = ics::spectra(codes, choices, ch.coded.quant@, offsets, n);
    assert(bits::flag(false, spectrum) =~= seq![false] + spectrum);
    match ch.tns {
        None => {
            assert(d + ics::tools(ch.tns, layout.num_swb as int, spectrum) =~= d + seq![
                false,
                false,
                false,
            ] + spectrum);
        },
        Some(f) => {
            let data = ics::tns_data(f, layout.num_swb as int, seq![false] + spectrum);
            assert(d + ics::tools(ch.tns, layout.num_swb as int, spectrum) =~= d + seq![
                false,
                true,
            ] + data);
        },
    }
}

} // verus!
