//! Writing an individual channel stream: window description, sections,
//! scalefactors, tools and spectrum.

use crate::bits;
use crate::bitstream::BitWriter;
use crate::decoder::aac::ics::{TnsFilterSpec, MAX_TNS_ORDER};
use crate::encoder::aac::huffman;
use crate::encoder::aac::huffman::{write_scalefactor_delta, Codebook, Codes, EncodeTables};
use crate::encoder::aac::quant;
use crate::encoder::aac::quant::{write_band, BandChoice, SF_OFFSET};
use crate::encoder::aac::rate;
use crate::encoder::aac::rate::Quantization;
use crate::types::WindowSequence;
use vstd::arithmetic::power2::*;
use vstd::prelude::*;

verus! {

/// Everything the bitstream needs to know about a frame's window layout.
#[derive(Debug, Clone, Copy, PartialEq, Eq, Structural)]
pub struct Layout {
    pub sequence: WindowSequence,
    /// Bands coded per window group.
    pub max_sfb: usize,
    /// Window groups in use.
    pub group_count: usize,
    /// The `scale_factor_grouping` field.
    pub grouping_bits: u8,
    /// Bands the band table has, which the noise shaping field is counted
    /// from.
    pub num_swb: usize,
}

impl Layout {
    pub open spec fn is_short(self) -> bool {
        self.sequence == WindowSequence::EightShortSequence
    }

    /// Bands the whole frame codes, across every group.
    pub open spec fn bands(self) -> nat {
        (self.max_sfb * self.group_count) as nat
    }

    /// The width of a section length field.
    pub open spec fn length_bits(self) -> nat {
        if self.is_short() {
            3
        } else {
            5
        }
    }

    /// Bands the whole frame codes, across every group.
    pub fn coded_bands(&self) -> (r: usize)
        requires
            self.bands() <= usize::MAX,
        ensures
            r == self.bands(),
    {
        self.max_sfb * self.group_count
    }
}

/// The window description, before `rest`.
pub open spec fn ics_info(layout: Layout, rest: Seq<bool>) -> Seq<bool> {
    let rest = if layout.is_short() {
        bits::field(
            layout.max_sfb as nat,
            4,
            bits::field(layout.grouping_bits as nat, 7, rest),
        )
    } else {
        bits::field(layout.max_sfb as nat, 6, bits::flag(false, rest))
    };
    bits::flag(
        false,
        bits::field(layout.sequence.code() as nat, 2, bits::field(0, 1, rest)),
    )
}

/// A section length in steps of `width` bits, where all ones mean that more
/// follow, before `rest`.
pub open spec fn length_field(n: nat, width: nat, rest: Seq<bool>) -> Seq<bool>
    decreases n,
{
    let escape = (pow2(width) - 1) as nat;
    if escape > 0 && n >= escape {
        bits::field(escape, width, length_field((n - escape) as nat, width, rest))
    } else {
        bits::field(n, width, rest)
    }
}

/// How many of the first elements are the same.
pub open spec fn run_of(cbs: Seq<u8>) -> nat
    decreases cbs.len(),
{
    if cbs.len() <= 1 {
        cbs.len()
    } else if cbs[0] == cbs[1] {
        1 + run_of(cbs.skip(1))
    } else {
        1
    }
}

/// The sections of one window group, before `rest`: each a codebook and how
/// many bands it is for.
pub open spec fn group_sections(cbs: Seq<u8>, width: nat, rest: Seq<bool>) -> Seq<bool>
    decreases cbs.len(),
{
    if cbs.len() == 0 {
        rest
    } else {
        let run = run_of(cbs);
        if run == 0 || run > cbs.len() {
            rest
        } else {
            bits::field(
                cbs[0] as nat,
                4,
                length_field(run, width, group_sections(cbs.skip(run as int), width, rest)),
            )
        }
    }
}

/// The sections of the groups from `g` on, before `rest`. A run never crosses
/// a group boundary.
pub open spec fn sections_from(
    cbs: Seq<u8>,
    max_sfb: int,
    count: int,
    g: int,
    width: nat,
    rest: Seq<bool>,
) -> Seq<bool>
    decreases count - g,
{
    if g >= count {
        rest
    } else {
        group_sections(
            cbs.subrange(g * max_sfb, g * max_sfb + max_sfb),
            width,
            sections_from(cbs, max_sfb, count, g + 1, width, rest),
        )
    }
}

/// The codebooks of a list of choices.
pub open spec fn books(choices: Seq<BandChoice>) -> Seq<u8> {
    choices.map_values(|c: BandChoice| c.codebook)
}

/// The section data of a frame, before `rest`.
pub open spec fn sections(layout: Layout, cbs: Seq<u8>, rest: Seq<bool>) -> Seq<bool> {
    sections_from(
        cbs,
        layout.max_sfb as int,
        layout.group_count as int,
        0,
        layout.length_bits(),
        rest,
    )
}

/// The deltas of the first `n` bands.
pub open spec fn deltas(codes: Codes, choices: Seq<BandChoice>, sfs: Seq<i32>, n: int) -> Seq<bool>
    decreases n,
{
    if n <= 0 {
        Seq::empty()
    } else {
        let head = deltas(codes, choices, sfs, n - 1);
        if choices[n - 1].codebook == 0 {
            head
        } else {
            match codes.delta_word(rate::delta_at(choices, sfs, n - 1)) {
                Some(cw) => head + cw.word(),
                None => head,
            }
        }
    }
}

/// The low byte of a coefficient.
pub open spec fn coefficient_bits(c: i8) -> nat {
    (c as int % 256) as nat
}

/// The coefficients from `i` to `n`, before `rest`.
pub open spec fn coefficients(coef: Seq<i8>, i: int, n: int, width: nat, rest: Seq<bool>) -> Seq<
    bool,
>
    decreases n - i,
{
    if i >= n {
        rest
    } else {
        bits::field(
            coefficient_bits(coef[i]),
            width,
            coefficients(coef, i + 1, n, width, rest),
        )
    }
}

/// Noise shaping data for a long window carrying one filter, before `rest`.
/// The range is sent as a length counted down from the number of bands.
pub open spec fn tns_data(spec: TnsFilterSpec, num_swb: int, rest: Seq<bool>) -> Seq<bool> {
    let start = if spec.start_band <= num_swb {
        spec.start_band as int
    } else {
        num_swb
    };
    let rest = if spec.order > 0 {
        bits::flag(
            spec.downward,
            bits::flag(
                false,
                coefficients(
                    spec.coef@,
                    0,
                    spec.order as int,
                    (spec.resolution + 3) as nat,
                    rest,
                ),
            ),
        )
    } else {
        rest
    };
    bits::field(
        1,
        2,
        bits::field(
            spec.resolution as nat,
            1,
            bits::field((num_swb - start) as nat, 6, bits::field(spec.order as nat, 5, rest)),
        ),
    )
}

/// The tool flags and the noise shaping data, before `rest`.
pub open spec fn tools(tns: Option<TnsFilterSpec>, num_swb: int, rest: Seq<bool>) -> Seq<bool> {
    let rest = bits::flag(false, rest);
    bits::flag(
        false,
        match tns {
            Some(spec) => bits::flag(true, tns_data(spec, num_swb, rest)),
            None => bits::flag(false, rest),
        },
    )
}

/// The lines of band `b`.
pub open spec fn lines(q: Seq<i32>, offsets: Seq<usize>, b: int) -> Seq<i32> {
    q.subrange(offsets[b] as int, offsets[b + 1] as int)
}

/// The spectra of the first `n` bands.
pub open spec fn spectra(
    codes: Codes,
    choices: Seq<BandChoice>,
    q: Seq<i32>,
    offsets: Seq<usize>,
    n: int,
) -> Seq<bool>
    decreases n,
{
    if n <= 0 {
        Seq::empty()
    } else {
        let head = spectra(codes, choices, q, offsets, n - 1);
        if choices[n - 1].codebook == 0 {
            head
        } else {
            head + quant::written_band(codes, choices[n - 1].codebook, lines(q, offsets, n - 1))
        }
    }
}

/// One channel of a frame: what the rate loop settled on, and the noise
/// shaping.
#[derive(Debug, Clone)]
pub struct ChannelCoding {
    pub coded: Quantization,
    pub tns: Option<TnsFilterSpec>,
}

/// The offsets of the first `n` bands lie inside the spectrum, in order, and
/// every band that is coded divides into tuples.
pub open spec fn is_coding(
    choices: Seq<BandChoice>,
    q: Seq<i32>,
    offsets: Seq<usize>,
    n: int,
) -> bool {
    &&& n <= choices.len()
    &&& n < offsets.len()
    &&& huffman::measurable(q)
    &&& forall|b: int|
        #![trigger choices[b]]
        0 <= b < n && choices[b].codebook != 0 ==> {
            &&& offsets[b] <= offsets[b + 1] <= q.len()
            &&& quant::divides(choices[b].codebook, (offsets[b + 1] - offsets[b]) as nat)
        }
}

impl ChannelCoding {
    /// The channel can be written with the given band table and layout.
    pub open spec fn wf(self, offsets: Seq<usize>, layout: Layout) -> bool {
        &&& layout.bands() <= self.coded.scalefactors@.len()
        &&& rate::deltas_fit(
            self.coded.choices@,
            self.coded.scalefactors@,
            layout.bands() as int,
        )
        &&& is_coding(self.coded.choices@, self.coded.quant@, offsets, layout.bands() as int)
        &&& self.tns matches Some(spec) ==> spec.resolution <= 1 && spec.order <= MAX_TNS_ORDER
    }

    /// The gain that the scalefactor deltas are counted from.
    pub open spec fn gain(self, bands: int) -> int {
        match self.coded.first_coded {
            Some(b) => if b < bands {
                let sf = self.coded.scalefactors@[b as int];
                if sf < 0 {
                    0
                } else if sf > 255 {
                    255
                } else {
                    sf as int
                }
            } else {
                SF_OFFSET as int
            },
            None => SF_OFFSET as int,
        }
    }

    /// Sections, scalefactors, tools and spectrum.
    pub open spec fn payload(self, codes: Codes, offsets: Seq<usize>, layout: Layout) -> Seq<bool> {
        let n = layout.bands() as int;
        let choices = self.coded.choices@;
        let spectrum = spectra(codes, choices, self.coded.quant@, offsets, n);
        sections(
            layout,
            books(choices),
            deltas(codes, choices, self.coded.scalefactors@, n) + tools(
                self.tns,
                layout.num_swb as int,
                spectrum,
            ),
        )
    }

    /// A stream with its own window description.
    pub open spec fn stream(self, codes: Codes, offsets: Seq<usize>, layout: Layout) -> Seq<bool> {
        bits::field(
            self.gain(layout.bands() as int) as nat,
            8,
            ics_info(layout, self.payload(codes, offsets, layout)),
        )
    }

    /// A stream whose window description came from its element.
    pub open spec fn body(self, codes: Codes, offsets: Seq<usize>, layout: Layout) -> Seq<bool> {
        bits::field(
            self.gain(layout.bands() as int) as nat,
            8,
            self.payload(codes, offsets, layout),
        )
    }
}

/// Writes the window description.
pub fn write_ics_info(writer: &mut BitWriter, layout: &Layout)
    ensures
        forall|rest: Seq<bool>|
            #[trigger] (final(writer)@ + rest) == old(writer)@ + ics_info(*layout, rest),
{
    let ghost w0 = writer@;
    writer.write_bit(false);  // ics_reserved_bit
    let ghost w1 = writer@;
    writer.write_u8(layout.sequence.as_u8(), 2);
    let ghost w2 = writer@;
    writer.write_u8(0, 1);  // sine window
    let ghost w3 = writer@;
    let ghost code = layout.sequence.code() as nat;
    if layout.sequence == WindowSequence::EightShortSequence {
        writer.write_bits(layout.max_sfb as u64, 4);
        let ghost w4 = writer@;
        writer.write_u8(layout.grouping_bits, 7);
        proof {
            assert forall|rest: Seq<bool>|
                #[trigger] (writer@ + rest) == w0 + ics_info(*layout, rest) by {
                let r3 = bits::field(layout.grouping_bits as nat, 7, rest);
                let r2 = bits::field(layout.max_sfb as nat, 4, r3);
                let r1 = bits::field(0, 1, r2);
                bits::lemma_append_field(w4, layout.grouping_bits as nat, 7, rest);
                bits::lemma_append_field(w3, layout.max_sfb as nat, 4, r3);
                bits::lemma_append_field(w2, 0, 1, r2);
                bits::lemma_append_field(w1, code, 2, r1);
                bits::lemma_append_flag(w0, false, bits::field(code, 2, r1));
            }
        }
    } else {
        writer.write_bits(layout.max_sfb as u64, 6);
        let ghost w4 = writer@;
        writer.write_bit(false);  // predictor_data_present
        proof {
            assert forall|rest: Seq<bool>|
                #[trigger] (writer@ + rest) == w0 + ics_info(*layout, rest) by {
                let r3 = bits::flag(false, rest);
                let r2 = bits::field(layout.max_sfb as nat, 6, r3);
                let r1 = bits::field(0, 1, r2);
                bits::lemma_append_flag(w4, false, rest);
                bits::lemma_append_field(w3, layout.max_sfb as nat, 6, r3);
                bits::lemma_append_field(w2, 0, 1, r2);
                bits::lemma_append_field(w1, code, 2, r1);
                bits::lemma_append_flag(w0, false, bits::field(code, 2, r1));
            }
        }
    }
}

/// A run of equal elements that ends where another element, or nothing,
/// follows.
pub(crate) proof fn lemma_run_of(cbs: Seq<u8>, run: nat)
    requires
        1 <= run <= cbs.len(),
        forall|i: int| 0 <= i < run ==> #[trigger] cbs[i] == cbs[0],
        run < cbs.len() ==> cbs[run as int] != cbs[0],
    ensures
        run_of(cbs) == run,
    decreases cbs.len(),
{
    if cbs.len() > 1 {
        if run > 1 {
            assert(cbs[1] == cbs[0]);
            let tail = cbs.skip(1);
            assert forall|i: int| 0 <= i < run - 1 implies #[trigger] tail[i] == tail[0] by {
                assert(cbs[i + 1] == cbs[0]);
            }
            lemma_run_of(tail, (run - 1) as nat);
        }
    }
}

/// Writes the codebook of a run and its length.
fn write_run(writer: &mut BitWriter, cb: u8, run: usize, width: usize)
    requires
        width == 3 || width == 5,
    ensures
        forall|rest: Seq<bool>|
            #[trigger] (final(writer)@ + rest) == old(writer)@ + bits::field(
                cb as nat,
                4,
                length_field(run as nat, width as nat, rest),
            ),
{
    proof {
        lemma2_to64();
    }
    let ghost w0 = writer@;
    let ghost w = width as nat;
    writer.write_u8(cb, 4);
    let ghost start = writer@;
    let escape: usize = if width == 3 {
        7
    } else {
        31
    };
    let mut left: usize = run;
    while left >= escape
        invariant
            width == 3 || width == 5,
            w == width,
            escape == pow2(w) - 1,
            escape > 0,
            forall|rest: Seq<bool>|
                #[trigger] (writer@ + length_field(left as nat, w, rest)) == start + length_field(
                    run as nat,
                    w,
                    rest,
                ),
        decreases left,
    {
        let ghost before = writer@;
        writer.write_bits(escape as u64, width);
        proof {
            assert forall|rest: Seq<bool>|
                #[trigger] (writer@ + length_field((left - escape) as nat, w, rest)) == start
                    + length_field(run as nat, w, rest) by {
                let tail = length_field((left - escape) as nat, w, rest);
                bits::lemma_append_field(before, escape as nat, w, tail);
                assert(before + length_field(left as nat, w, rest) == start + length_field(
                    run as nat,
                    w,
                    rest,
                ));
            }
        }
        left = left - escape;
    }
    let ghost before = writer@;
    writer.write_bits(left as u64, width);
    proof {
        assert forall|rest: Seq<bool>|
            #[trigger] (writer@ + rest) == w0 + bits::field(
                cb as nat,
                4,
                length_field(run as nat, w, rest),
            ) by {
            bits::lemma_append_field(before, left as nat, w, rest);
            bits::lemma_append_field(w0, cb as nat, 4, length_field(run as nat, w, rest));
            assert(before + length_field(left as nat, w, rest) == start + length_field(
                run as nat,
                w,
                rest,
            ));
        }
    }
}

fn write_sections(writer: &mut BitWriter, layout: &Layout, choices: &Vec<BandChoice>)
    requires
        layout.bands() <= choices@.len(),
    ensures
        forall|rest: Seq<bool>|
            #[trigger] (final(writer)@ + rest) == old(writer)@ + sections(
                *layout,
                books(choices@),
                rest,
            ),
{
    let ghost cbs = books(choices@);
    let ghost start = writer@;
    let width: usize = if layout.sequence == WindowSequence::EightShortSequence {
        3
    } else {
        5
    };
    let max_sfb: usize = layout.max_sfb;
    let count: usize = layout.group_count;
    let len: usize = choices.len();
    let mut g: usize = 0;
    let mut base: usize = 0;
    while g < count
        invariant
            g <= count,
            width == 3 || width == 5,
            width == layout.length_bits(),
            max_sfb == layout.max_sfb,
            count == layout.group_count,
            base == g * max_sfb,
            cbs == books(choices@),
            len == choices@.len(),
            max_sfb * count <= len,
            forall|rest: Seq<bool>|
                #[trigger] (writer@ + sections_from(
                    cbs,
                    max_sfb as int,
                    count as int,
                    g as int,
                    width as nat,
                    rest,
                )) == start + sections(*layout, cbs, rest),
        decreases count - g,
    {
        let ghost before = writer@;
        proof {
            assert(base + max_sfb <= max_sfb * count) by (nonlinear_arith)
                requires
                    base == g * max_sfb,
                    g + 1 <= count,
            ;
            assert((g + 1) * max_sfb == base + max_sfb) by (nonlinear_arith)
                requires
                    base == g * max_sfb,
            ;
        }
        write_group(writer, choices, base, max_sfb, width);
        proof {
            assert forall|rest: Seq<bool>|
                #[trigger] (writer@ + sections_from(
                    cbs,
                    max_sfb as int,
                    count as int,
                    g + 1,
                    width as nat,
                    rest,
                )) == start + sections(*layout, cbs, rest) by {
                let after = sections_from(
                    cbs,
                    max_sfb as int,
                    count as int,
                    g + 1,
                    width as nat,
                    rest,
                );
                assert(writer@ + after == before + group_sections(
                    cbs.subrange(base as int, base + max_sfb),
                    width as nat,
                    after,
                ));
                assert(before + sections_from(
                    cbs,
                    max_sfb as int,
                    count as int,
                    g as int,
                    width as nat,
                    rest,
                ) == start + sections(*layout, cbs, rest));
            }
        }
        base = base + max_sfb;
        g += 1;
    }
    proof {
        assert forall|rest: Seq<bool>|
            #[trigger] (writer@ + rest) == start + sections(*layout, cbs, rest) by {
            assert(writer@ + sections_from(
                cbs,
                max_sfb as int,
                count as int,
                g as int,
                width as nat,
                rest,
            ) == start + sections(*layout, cbs, rest));
        }
    }
}

fn write_group(
    writer: &mut BitWriter,
    choices: &Vec<BandChoice>,
    base: usize,
    max_sfb: usize,
    width: usize,
)
    requires
        width == 3 || width == 5,
        base + max_sfb <= choices@.len(),
    ensures
        forall|rest: Seq<bool>|
            #[trigger] (final(writer)@ + rest) == old(writer)@ + group_sections(
                books(choices@).subrange(base as int, base + max_sfb),
                width as nat,
                rest,
            ),
{
    let ghost cbs = books(choices@);
    let ghost all = cbs.subrange(base as int, base + max_sfb);
    let ghost start = writer@;
    let len: usize = choices.len();
    let end: usize = base + max_sfb;
    let mut b: usize = base;
    assert(cbs.subrange(b as int, end as int) =~= all);
    while b < end
        invariant
            base <= b <= end,
            end == base + max_sfb,
            len == choices@.len(),
            end <= len,
            width == 3 || width == 5,
            cbs == books(choices@),
            all == cbs.subrange(base as int, end as int),
            forall|rest: Seq<bool>|
                #[trigger] (writer@ + group_sections(
                    cbs.subrange(b as int, end as int),
                    width as nat,
                    rest,
                )) == start + group_sections(all, width as nat, rest),
        decreases end - b,
    {
        let first: BandChoice = choices[b];
        let cb: u8 = first.codebook;
        let mut stop: usize = b + 1;
        let mut same: bool = true;
        while same && stop < end
            invariant
                b < stop <= end,
                end <= choices@.len(),
                cbs == books(choices@),
                forall|i: int| b <= i < stop ==> #[trigger] cbs[i] == cb,
                !same ==> stop < end && cbs[stop as int] != cb,
            decreases (end - stop) + (if same { 1int } else { 0 }),
        {
            let next: BandChoice = choices[stop];
            if next.codebook == cb {
                stop = stop + 1;
            } else {
                same = false;
            }
        }
        let run: usize = stop - b;
        let ghost here = cbs.subrange(b as int, end as int);
        let ghost before = writer@;
        let ghost after = cbs.subrange(stop as int, end as int);
        proof {
            assert forall|i: int| 0 <= i < run implies #[trigger] here[i] == here[0] by {
                assert(cbs[b + i] == cb);
            }
            lemma_run_of(here, run as nat);
            assert(here.skip(run as int) =~= after);
        }
        write_run(writer, cb, run, width);
        proof {
            assert forall|rest: Seq<bool>|
                #[trigger] (writer@ + group_sections(after, width as nat, rest)) == start
                    + group_sections(all, width as nat, rest) by {
                let tail = group_sections(after, width as nat, rest);
                assert(writer@ + tail == before + bits::field(
                    cb as nat,
                    4,
                    length_field(run as nat, width as nat, tail),
                ));
                assert(before + group_sections(here, width as nat, rest) == start
                    + group_sections(all, width as nat, rest));
            }
        }
        b = stop;
    }
    proof {
        assert forall|rest: Seq<bool>|
            #[trigger] (writer@ + rest) == start + group_sections(all, width as nat, rest) by {
            assert(cbs.subrange(b as int, end as int).len() == 0);
            assert(writer@ + group_sections(
                cbs.subrange(b as int, end as int),
                width as nat,
                rest,
            ) == start + group_sections(all, width as nat, rest));
        }
    }
}

fn write_deltas(
    writer: &mut BitWriter,
    tables: &EncodeTables,
    coded: &Quantization,
    bands: usize,
)
    requires
        bands <= coded.choices@.len(),
        bands <= coded.scalefactors@.len(),
        rate::deltas_fit(coded.choices@, coded.scalefactors@, bands as int),
    ensures
        final(writer)@ == old(writer)@ + deltas(
            tables@,
            coded.choices@,
            coded.scalefactors@,
            bands as int,
        ),
{
    let ghost choices = coded.choices@;
    let ghost sfs = coded.scalefactors@;
    let ghost start = writer@;
    let mut previous: Option<i32> = None;
    let mut b: usize = 0;
    assert(start + Seq::<bool>::empty() =~= start);
    while b < bands
        invariant
            b <= bands,
            bands <= choices.len(),
            bands <= sfs.len(),
            choices == coded.choices@,
            sfs == coded.scalefactors@,
            rate::deltas_fit(choices, sfs, bands as int),
            previous == rate::previous_coded(choices, sfs, b as int),
            writer@ == start + deltas(tables@, choices, sfs, b as int),
        decreases bands - b,
    {
        assert(choices[b as int].codebook != 0 ==> i32::MIN <= rate::delta_at(
            choices,
            sfs,
            b as int,
        ) <= i32::MAX);
        let choice: BandChoice = coded.choices[b];
        if choice.codebook != 0 {
            let sf: i32 = coded.scalefactors[b];
            let delta: i32 = match previous {
                Some(p) => sf - p,
                None => 0,
            };
            previous = Some(sf);
            let _ = write_scalefactor_delta(writer, tables, delta);
        }
        b += 1;
        assert(writer@ =~= start + deltas(tables@, choices, sfs, b as int));
    }
}

fn low_byte(c: i8) -> (r: u8)
    ensures
        r == coefficient_bits(c),
{
    let r: u8 = c as u8;
    assert(r as int == c as int % 256) by (bit_vector)
        requires
            r == c as u8,
    ;
    r
}

/// Writes the first `order` coefficients.
pub fn write_coefficients(writer: &mut BitWriter, coef: &[i8; 20], order: usize, width: usize)
    requires
        order <= MAX_TNS_ORDER,
        width <= 8,
    ensures
        forall|rest: Seq<bool>|
            #[trigger] (final(writer)@ + rest) == old(writer)@ + coefficients(
                coef@,
                0,
                order as int,
                width as nat,
                rest,
            ),
{
    let ghost start = writer@;
    let ghost n = order as int;
    let ghost w = width as nat;
    let mut i: usize = 0;
    while i < order
        invariant
            i <= order <= MAX_TNS_ORDER,
            w == width <= 8,
            n == order,
            forall|rest: Seq<bool>|
                #[trigger] (writer@ + coefficients(coef@, i as int, n, w, rest)) == start
                    + coefficients(coef@, 0, n, w, rest),
        decreases order - i,
    {
        let ghost before = writer@;
        let c: i8 = coef[i];
        writer.write_u8(low_byte(c), width);
        proof {
            assert forall|rest: Seq<bool>|
                #[trigger] (writer@ + coefficients(coef@, i + 1, n, w, rest)) == start
                    + coefficients(coef@, 0, n, w, rest) by {
                bits::lemma_append_field(
                    before,
                    coefficient_bits(c),
                    w,
                    coefficients(coef@, i + 1, n, w, rest),
                );
                assert(before + coefficients(coef@, i as int, n, w, rest) == start
                    + coefficients(coef@, 0, n, w, rest));
            }
        }
        i += 1;
    }
    proof {
        assert forall|rest: Seq<bool>|
            #[trigger] (writer@ + rest) == start + coefficients(coef@, 0, n, w, rest) by {
            assert(writer@ + coefficients(coef@, i as int, n, w, rest) == start + coefficients(
                coef@,
                0,
                n,
                w,
                rest,
            ));
        }
    }
}

/// Writes the noise shaping data of a long window carrying one filter.
fn write_tns_data(writer: &mut BitWriter, spec: &TnsFilterSpec, num_swb: usize)
    requires
        spec.resolution <= 1,
        spec.order <= MAX_TNS_ORDER,
    ensures
        forall|rest: Seq<bool>|
            #[trigger] (final(writer)@ + rest) == old(writer)@ + tns_data(
                *spec,
                num_swb as int,
                rest,
            ),
{
    let start: usize = if spec.start_band <= num_swb {
        spec.start_band
    } else {
        num_swb
    };
    let width: usize = spec.resolution as usize + 3;
    let ghost w0 = writer@;
    writer.write_u8(1, 2);  // n_filt
    let ghost w1 = writer@;
    writer.write_u8(spec.resolution, 1);
    let ghost w2 = writer@;
    writer.write_bits((num_swb - start) as u64, 6);  // length
    let ghost w3 = writer@;
    writer.write_bits(spec.order as u64, 5);
    let ghost w4 = writer@;
    if spec.order > 0 {
        writer.write_bit(spec.downward);
        let ghost w5 = writer@;
        writer.write_bit(false);  // coef_compress
        let ghost w6 = writer@;
        let ghost n = spec.order as int;
        let ghost w = width as nat;
        write_coefficients(writer, &spec.coef, spec.order, width);
        proof {
            assert forall|rest: Seq<bool>|
                #[trigger] (writer@ + rest) == w4 + bits::flag(
                    spec.downward,
                    bits::flag(false, coefficients(spec.coef@, 0, n, w, rest)),
                ) by {
                let r = coefficients(spec.coef@, 0, n, w, rest);
                bits::lemma_append_flag(w5, false, r);
                bits::lemma_append_flag(w4, spec.downward, bits::flag(false, r));
                assert(writer@ + rest == w6 + r);
            }
        }
    }
    proof {
        assert forall|rest: Seq<bool>|
            #[trigger] (writer@ + rest) == w0 + tns_data(*spec, num_swb as int, rest) by {
            let r4 = if spec.order > 0 {
                bits::flag(
                    spec.downward,
                    bits::flag(
                        false,
                        coefficients(spec.coef@, 0, spec.order as int, width as nat, rest),
                    ),
                )
            } else {
                rest
            };
            assert(writer@ + rest == w4 + r4);
            let r3 = bits::field(spec.order as nat, 5, r4);
            let r2 = bits::field((num_swb - start) as nat, 6, r3);
            let r1 = bits::field(spec.resolution as nat, 1, r2);
            bits::lemma_append_field(w3, spec.order as nat, 5, r4);
            bits::lemma_append_field(w2, (num_swb - start) as nat, 6, r3);
            bits::lemma_append_field(w1, spec.resolution as nat, 1, r2);
            bits::lemma_append_field(w0, 1, 2, r1);
        }
    }
}

fn write_tools(writer: &mut BitWriter, tns: &Option<TnsFilterSpec>, num_swb: usize)
    requires
        tns matches Some(spec) ==> spec.resolution <= 1 && spec.order <= MAX_TNS_ORDER,
    ensures
        forall|rest: Seq<bool>|
            #[trigger] (final(writer)@ + rest) == old(writer)@ + tools(
                *tns,
                num_swb as int,
                rest,
            ),
{
    let ghost w0 = writer@;
    writer.write_bit(false);  // pulse_data_present
    let ghost w1 = writer@;
    match tns {
        Some(spec) => {
            writer.write_bit(true);
            let ghost w2 = writer@;
            write_tns_data(writer, spec, num_swb);
            let ghost w3 = writer@;
            writer.write_bit(false);  // gain_control_data_present
            proof {
                assert forall|rest: Seq<bool>|
                    #[trigger] (writer@ + rest) == w0 + tools(*tns, num_swb as int, rest) by {
                    let r3 = bits::flag(false, rest);
                    let r2 = tns_data(*spec, num_swb as int, r3);
                    bits::lemma_append_flag(w3, false, rest);
                    assert(w3 + r3 == w2 + r2);
                    bits::lemma_append_flag(w1, true, r2);
                    bits::lemma_append_flag(w0, false, bits::flag(true, r2));
                }
            }
        },
        None => {
            writer.write_bit(false);
            let ghost w2 = writer@;
            writer.write_bit(false);  // gain_control_data_present
            proof {
                assert forall|rest: Seq<bool>|
                    #[trigger] (writer@ + rest) == w0 + tools(*tns, num_swb as int, rest) by {
                    let r2 = bits::flag(false, rest);
                    bits::lemma_append_flag(w2, false, rest);
                    bits::lemma_append_flag(w1, false, r2);
                    bits::lemma_append_flag(w0, false, bits::flag(false, r2));
                }
            }
        },
    }
}

fn write_spectra(
    writer: &mut BitWriter,
    tables: &EncodeTables,
    coded: &Quantization,
    offsets: &[usize],
    bands: usize,
)
    requires
        is_coding(coded.choices@, coded.quant@, offsets@, bands as int),
    ensures
        final(writer)@ == old(writer)@ + spectra(
            tables@,
            coded.choices@,
            coded.quant@,
            offsets@,
            bands as int,
        ),
{
    let ghost choices = coded.choices@;
    let ghost q = coded.quant@;
    let ghost start = writer@;
    let mut b: usize = 0;
    assert(start + Seq::<bool>::empty() =~= start);
    while b < bands
        invariant
            b <= bands,
            choices == coded.choices@,
            q == coded.quant@,
            is_coding(choices, q, offsets@, bands as int),
            writer@ == start + spectra(tables@, choices, q, offsets@, b as int),
        decreases bands - b,
    {
        let choice: BandChoice = coded.choices[b];
        if choice.codebook != 0 {
            assert(choices[b as int].codebook != 0);
            let lo: usize = offsets[b];
            let hi: usize = offsets[b + 1];
            let band: &[i32] = vstd::slice::slice_subrange(coded.quant.as_slice(), lo, hi);
            assert(band@ == lines(q, offsets@, b as int));
            let _ = write_band(writer, tables, choice.codebook, band);
        }
        b += 1;
        assert(writer@ =~= start + spectra(tables@, choices, q, offsets@, b as int));
    }
}

/// Writes section data, scalefactors, tool flags and spectral data.
pub fn write_ics_payload(
    writer: &mut BitWriter,
    tables: &EncodeTables,
    channel: &ChannelCoding,
    offsets: &[usize],
    layout: &Layout,
)
    requires
        channel.wf(offsets@, *layout),
    ensures
        final(writer)@ == old(writer)@ + channel.payload(tables@, offsets@, *layout),
{
    let ghost w0 = writer@;
    let ghost len = offsets@.len();
    assert(offsets.len() == len);
    let bands: usize = layout.coded_bands();
    write_sections(writer, layout, &channel.coded.choices);
    let ghost w1 = writer@;
    write_deltas(writer, tables, &channel.coded, bands);
    let ghost w2 = writer@;
    write_tools(writer, &channel.tns, layout.num_swb);
    let ghost w3 = writer@;
    write_spectra(writer, tables, &channel.coded, offsets, bands);
    proof {
        let n = bands as int;
        let choices = channel.coded.choices@;
        let spectrum = spectra(tables@, choices, channel.coded.quant@, offsets@, n);
        let ds = deltas(tables@, choices, channel.coded.scalefactors@, n);
        let ts = tools(channel.tns, layout.num_swb as int, spectrum);
        assert(w3 + spectrum == w2 + ts);
        assert(w2 + ts =~= w1 + (ds + ts));
        assert(w1 + (ds + ts) == w0 + sections(*layout, books(choices), ds + ts));
    }
}

/// The gain that the scalefactor deltas are counted from.
///
/// The decoder starts its running scalefactor at this value and adds the first
/// coded band's delta to it like any other, so setting it to that band's
/// scalefactor makes the first delta zero.
pub fn global_gain(channel: &ChannelCoding, bands: usize) -> (r: u8)
    requires
        bands <= channel.coded.scalefactors@.len(),
    ensures
        r == channel.gain(bands as int),
{
    match channel.coded.first_coded {
        Some(b) => if b < bands {
            let sf: i32 = channel.coded.scalefactors[b];
            if sf < 0 {
                0
            } else if sf > 255 {
                255
            } else {
                sf as u8
            }
        } else {
            SF_OFFSET as u8
        },
        None => SF_OFFSET as u8,
    }
}

/// Writes a whole channel stream including its window description.
pub fn write_channel(
    writer: &mut BitWriter,
    tables: &EncodeTables,
    channel: &ChannelCoding,
    offsets: &[usize],
    layout: &Layout,
)
    requires
        channel.wf(offsets@, *layout),
    ensures
        final(writer)@ == old(writer)@ + channel.stream(tables@, offsets@, *layout),
{
    let ghost w0 = writer@;
    assert(offsets.len() == offsets@.len());
    let gain: u8 = global_gain(channel, layout.coded_bands());
    writer.write_u8(gain, 8);
    let ghost w1 = writer@;
    write_ics_info(writer, layout);
    let ghost w2 = writer@;
    write_ics_payload(writer, tables, channel, offsets, layout);
    proof {
        let payload = channel.payload(tables@, offsets@, *layout);
        assert(w2 + payload == w1 + ics_info(*layout, payload));
        bits::lemma_append_field(w0, gain as nat, 8, ics_info(*layout, payload));
    }
}

/// Writes a channel stream whose window description came from the element.
pub fn write_channel_body(
    writer: &mut BitWriter,
    tables: &EncodeTables,
    channel: &ChannelCoding,
    offsets: &[usize],
    layout: &Layout,
)
    requires
        channel.wf(offsets@, *layout),
    ensures
        final(writer)@ == old(writer)@ + channel.body(tables@, offsets@, *layout),
{
    let ghost w0 = writer@;
    assert(offsets.len() == offsets@.len());
    let gain: u8 = global_gain(channel, layout.coded_bands());
    writer.write_u8(gain, 8);
    write_ics_payload(writer, tables, channel, offsets, layout);
    proof {
        bits::lemma_append_field(
            w0,
            gain as nat,
            8,
            channel.payload(tables@, offsets@, *layout),
        );
    }
}

} // verus!
