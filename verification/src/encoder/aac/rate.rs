//! Scalefactor bookkeeping and frame cost.
//!
//! The rate loop gives every band that is worth coding a scalefactor. This
//! module keeps those within one delta's reach of each other, and says what a
//! channel's quantization costs in the bitstream.

use crate::encoder::aac::huffman::{scalefactor_codeword, Codes, Codeword, EncodeTables};
use crate::encoder::aac::quant::{BandChoice, SF_OFFSET};
use vstd::prelude::*;

verus! {

/// Widest span two coded bands' scalefactors may have, so every delta stays
/// inside the scalefactor codebook.
pub const MAX_SCALEFACTOR_DELTA: i32 = 60;

/// Smallest scalefactor the bitstream can carry.
pub const MIN_SCALEFACTOR: i32 = 0;

/// Largest scalefactor the bitstream can carry.
pub const MAX_SCALEFACTOR: i32 = 255;

/// What a delta outside the scalefactor codebook is charged.
pub const UNCODEABLE_DELTA_BITS: usize = 19;

/// One channel's quantization, as the rate loop leaves it.
#[derive(Debug, Clone)]
pub struct Quantization {
    /// Scalefactor per band; equal to [`SF_OFFSET`] for bands that carry
    /// nothing.
    pub scalefactors: Vec<i32>,
    /// Codebook and cost per band.
    pub choices: Vec<BandChoice>,
    /// Quantized coefficients, band-major over the whole frame.
    pub quant: Vec<i32>,
    /// Payload bits the frame will cost.
    pub bits: usize,
    /// First band that carries data, if any.
    pub first_coded: Option<usize>,
}

impl Quantization {
    /// Allocate for a frame of `lines` coefficients in `bands` bands.
    pub fn new(lines: usize, bands: usize) -> (r: Self)
        ensures
            r.scalefactors@ == Seq::new(bands as nat, |b: int| SF_OFFSET),
            r.choices@ == Seq::new(bands as nat, |b: int| BandChoice { codebook: 0, bits: 0 }),
            r.quant@ == Seq::new(lines as nat, |i: int| 0i32),
            r.bits == 0,
            r.first_coded is None,
    {
        let mut scalefactors: Vec<i32> = Vec::new();
        let mut choices: Vec<BandChoice> = Vec::new();
        let mut b: usize = 0;
        while b < bands
            invariant
                b <= bands,
                scalefactors@ == Seq::new(b as nat, |b: int| SF_OFFSET),
                choices@ == Seq::new(b as nat, |b: int| BandChoice { codebook: 0, bits: 0 }),
            decreases bands - b,
        {
            scalefactors.push(SF_OFFSET);
            choices.push(BandChoice::default());
            b += 1;
            assert(scalefactors@ =~= Seq::new(b as nat, |b: int| SF_OFFSET));
            assert(choices@ =~= Seq::new(b as nat, |b: int| BandChoice { codebook: 0, bits: 0 }));
        }
        let mut quant: Vec<i32> = Vec::new();
        let mut i: usize = 0;
        while i < lines
            invariant
                i <= lines,
                quant@ == Seq::new(i as nat, |i: int| 0i32),
            decreases lines - i,
        {
            quant.push(0);
            i += 1;
            assert(quant@ =~= Seq::new(i as nat, |i: int| 0i32));
        }
        Quantization { scalefactors, choices, quant, bits: 0, first_coded: None }
    }
}

/// The lowest scalefactor among the first `n` bands, if any of them has one.
pub open spec fn lowest(assigned: Seq<Option<i32>>, n: int) -> Option<i32>
    decreases n,
{
    if n <= 0 {
        None
    } else {
        let before = lowest(assigned, n - 1);
        match (before, assigned[n - 1]) {
            (Some(a), Some(b)) => Some(
                if a <= b {
                    a
                } else {
                    b
                },
            ),
            (None, b) => b,
            (a, None) => a,
        }
    }
}

/// The highest scalefactor within one delta's reach of the lowest.
pub open spec fn ceiling(assigned: Seq<Option<i32>>) -> int {
    match lowest(assigned, assigned.len() as int) {
        Some(low) => low + MAX_SCALEFACTOR_DELTA,
        None => MAX_SCALEFACTOR as int,
    }
}

/// `x`, but not above `top`.
pub open spec fn capped(x: int, top: int) -> int {
    if x <= top {
        x
    } else {
        top
    }
}

/// Scalefactors brought within one delta's reach of the lowest.
pub open spec fn bounded(assigned: Seq<Option<i32>>) -> Seq<Option<i32>> {
    assigned.map_values(
        |a: Option<i32>|
            match a {
                Some(x) => Some(capped(x as int, ceiling(assigned)) as i32),
                None => None,
            },
    )
}

/// Brings the scalefactors of the coded bands within one delta's reach of the
/// lowest. Bands without one are not coded. Returns the scalefactors and, for
/// each band, whether it changed and has to be quantized anew.
pub fn bound_scalefactors(assigned: &[Option<i32>]) -> (r: (Vec<Option<i32>>, Vec<bool>))
    requires
        ceiling(assigned@) <= i32::MAX,
    ensures
        r.0@ == bounded(assigned@),
        r.1@.len() == assigned@.len(),
        forall|b: int|
            0 <= b < assigned@.len() ==> (#[trigger] r.1@[b] == (assigned@[b] != r.0@[b])),
{
    let mut low: Option<i32> = None;
    let mut b: usize = 0;
    while b < assigned.len()
        invariant
            b <= assigned@.len(),
            low == lowest(assigned@, b as int),
        decreases assigned@.len() - b,
    {
        if let Some(x) = assigned[b] {
            low = match low {
                Some(y) => Some(
                    if y <= x {
                        y
                    } else {
                        x
                    },
                ),
                None => Some(x),
            };
        }
        b += 1;
    }
    let top: i32 = match low {
        Some(x) => x + MAX_SCALEFACTOR_DELTA,
        None => MAX_SCALEFACTOR,
    };
    assert(top == ceiling(assigned@));
    let mut out: Vec<Option<i32>> = Vec::new();
    let mut changed: Vec<bool> = Vec::new();
    let mut b: usize = 0;
    while b < assigned.len()
        invariant
            b <= assigned@.len(),
            top == ceiling(assigned@),
            out@.len() == b,
            changed@.len() == b,
            forall|k: int| 0 <= k < b ==> #[trigger] out@[k] == bounded(assigned@)[k],
            forall|k: int|
                0 <= k < b ==> (#[trigger] changed@[k] == (assigned@[k] != out@[k])),
        decreases assigned@.len() - b,
    {
        match assigned[b] {
            Some(x) => {
                if x > top {
                    out.push(Some(top));
                    changed.push(true);
                } else {
                    out.push(Some(x));
                    changed.push(false);
                }
            },
            None => {
                out.push(None);
                changed.push(false);
            },
        }
        b += 1;
    }
    assert(out@ =~= bounded(assigned@));
    (out, changed)
}

proof fn lemma_lowest(assigned: Seq<Option<i32>>, n: int, b: int)
    requires
        0 <= b < n <= assigned.len(),
        assigned[b] is Some,
    ensures
        lowest(assigned, n) is Some,
        lowest(assigned, n)->0 <= assigned[b]->0,
    decreases n,
{
    if b < n - 1 {
        lemma_lowest(assigned, n - 1, b);
    }
}

/// Once bounded, the scalefactors of any two coded bands are within one
/// delta's reach of each other.
pub proof fn law_deltas_stay_codeable(assigned: Seq<Option<i32>>, a: int, b: int)
    requires
        0 <= a < assigned.len(),
        0 <= b < assigned.len(),
        assigned[a] is Some,
        assigned[b] is Some,
    ensures
        ({
            let top = ceiling(assigned);
            let delta = capped(assigned[a]->0 as int, top) - capped(assigned[b]->0 as int, top);
            -MAX_SCALEFACTOR_DELTA <= delta <= MAX_SCALEFACTOR_DELTA
        }),
{
    lemma_lowest(assigned, assigned.len() as int, a);
    lemma_lowest(assigned, assigned.len() as int, b);
}

/// The scalefactor of the last coded band before band `b`.
pub open spec fn previous_coded(choices: Seq<BandChoice>, sfs: Seq<i32>, b: int) -> Option<i32>
    decreases b,
{
    if b <= 0 {
        None
    } else if choices[b - 1].codebook != 0 {
        Some(sfs[b - 1])
    } else {
        previous_coded(choices, sfs, b - 1)
    }
}

/// The delta that is sent for coded band `b`: none for the first one, whose
/// scalefactor is the global gain.
pub open spec fn delta_at(choices: Seq<BandChoice>, sfs: Seq<i32>, b: int) -> int {
    match previous_coded(choices, sfs, b) {
        Some(p) => sfs[b] - p,
        None => 0,
    }
}

/// Whether the deltas of the first `n` bands fit in 32 bits.
pub open spec fn deltas_fit(choices: Seq<BandChoice>, sfs: Seq<i32>, n: int) -> bool {
    forall|b: int|
        0 <= b < n && (#[trigger] choices[b]).codebook != 0 ==> i32::MIN <= delta_at(
            choices,
            sfs,
            b,
        ) <= i32::MAX
}

/// What sending a delta costs.
pub open spec fn delta_cost(codes: Codes, delta: int) -> nat {
    match codes.delta_word(delta) {
        Some(cw) => cw.len as nat,
        None => UNCODEABLE_DELTA_BITS as nat,
    }
}

/// What the deltas of the first `n` bands cost.
pub open spec fn deltas_cost(codes: Codes, choices: Seq<BandChoice>, sfs: Seq<i32>, n: int) -> nat
    decreases n,
{
    if n <= 0 {
        0
    } else {
        deltas_cost(codes, choices, sfs, n - 1) + if choices[n - 1].codebook == 0 {
            0
        } else {
            delta_cost(codes, delta_at(choices, sfs, n - 1))
        }
    }
}

/// What the spectra of the first `n` bands cost.
pub open spec fn spectra_cost(choices: Seq<BandChoice>, n: int) -> nat
    decreases n,
{
    if n <= 0 {
        0
    } else {
        spectra_cost(choices, n - 1) + choices[n - 1].bits as nat
    }
}

/// The runs of equal codebooks among the first `n` bands, counted as one if
/// there are no bands.
pub open spec fn section_count(choices: Seq<BandChoice>, n: int) -> nat
    decreases n,
{
    if n <= 1 {
        1
    } else {
        section_count(choices, n - 1) + if choices[n - 1].codebook != choices[n - 2].codebook {
            1nat
        } else {
            0
        }
    }
}

/// What the first `n` bands of a channel cost: their spectra, nine bits for
/// each section, and the deltas.
pub open spec fn frame_cost(
    codes: Codes,
    choices: Seq<BandChoice>,
    sfs: Seq<i32>,
    n: int,
) -> nat {
    spectra_cost(choices, n) + 9 * section_count(choices, n) + deltas_cost(codes, choices, sfs, n)
}

proof fn lemma_costs_grow(
    codes: Codes,
    choices: Seq<BandChoice>,
    sfs: Seq<i32>,
    n: int,
    more: int,
)
    requires
        n <= more,
    ensures
        spectra_cost(choices, n) <= spectra_cost(choices, more),
        section_count(choices, n) <= section_count(choices, more),
        deltas_cost(codes, choices, sfs, n) <= deltas_cost(codes, choices, sfs, more),
    decreases more - n,
{
    if n < more {
        lemma_costs_grow(codes, choices, sfs, n, more - 1);
    }
}

/// Payload bits one channel's quantization costs.
pub fn cost(tables: &EncodeTables, q: &Quantization, bands: usize) -> (r: usize)
    requires
        bands <= q.choices@.len(),
        bands <= q.scalefactors@.len(),
        deltas_fit(q.choices@, q.scalefactors@, bands as int),
        frame_cost(tables@, q.choices@, q.scalefactors@, bands as int) <= usize::MAX,
    ensures
        r == frame_cost(tables@, q.choices@, q.scalefactors@, bands as int),
{
    let ghost choices = q.choices@;
    let ghost sfs = q.scalefactors@;
    let ghost codes = tables@;
    let mut spectra: usize = 0;
    let mut sections: usize = 1;
    let mut deltas: usize = 0;
    let mut previous: Option<i32> = None;
    let mut b: usize = 0;
    while b < bands
        invariant
            b <= bands,
            choices == q.choices@,
            sfs == q.scalefactors@,
            codes == tables@,
            bands <= choices.len(),
            bands <= sfs.len(),
            deltas_fit(choices, sfs, bands as int),
            frame_cost(codes, choices, sfs, bands as int) <= usize::MAX,
            spectra == spectra_cost(choices, b as int),
            sections == section_count(choices, b as int),
            deltas == deltas_cost(codes, choices, sfs, b as int),
            previous == previous_coded(choices, sfs, b as int),
        decreases bands - b,
    {
        proof {
            lemma_costs_grow(codes, choices, sfs, b + 1, bands as int);
            assert(choices[b as int].codebook != 0 ==> i32::MIN <= delta_at(
                choices,
                sfs,
                b as int,
            ) <= i32::MAX);
        }
        let choice: BandChoice = q.choices[b];
        spectra = spectra + choice.bits as usize;
        if b > 0 {
            let before: BandChoice = q.choices[b - 1];
            if choice.codebook != before.codebook {
                sections = sections + 1;
            }
        }
        if choice.codebook != 0 {
            let sf: i32 = q.scalefactors[b];
            let delta: i32 = match previous {
                Some(p) => sf - p,
                None => 0,
            };
            let bits: usize = match scalefactor_codeword(tables, delta) {
                Some(c) => c.len as usize,
                None => UNCODEABLE_DELTA_BITS,
            };
            deltas = deltas + bits;
            previous = Some(sf);
        }
        b += 1;
    }
    spectra + sections * 9 + deltas
}

/// The first band that carries data.
pub open spec fn first_coded_band(choices: Seq<BandChoice>, from: int, n: int) -> Option<usize>
    decreases n - from,
{
    if from >= n {
        None
    } else if choices[from].codebook != 0 {
        Some(from as usize)
    } else {
        first_coded_band(choices, from + 1, n)
    }
}

/// The scalefactor of a band as it is recorded: that which it was assigned if
/// the band carries data, else that of unit gain.
pub open spec fn recorded(assigned: Option<i32>, choice: BandChoice) -> i32 {
    if choice.codebook == 0 || assigned is None {
        SF_OFFSET
    } else {
        assigned->0
    }
}

/// Records what the rate loop settled on: the scalefactors, the first band
/// that carries data, and the cost.
pub fn record(
    tables: &EncodeTables,
    assigned: &[Option<i32>],
    choices: Vec<BandChoice>,
    quant: Vec<i32>,
) -> (r: Quantization)
    requires
        assigned@.len() == choices@.len(),
        deltas_fit(
            choices@,
            Seq::new(choices@.len(), |b: int| recorded(assigned@[b], choices@[b])),
            choices@.len() as int,
        ),
        frame_cost(
            tables@,
            choices@,
            Seq::new(choices@.len(), |b: int| recorded(assigned@[b], choices@[b])),
            choices@.len() as int,
        ) <= usize::MAX,
    ensures
        r.choices@ == choices@,
        r.quant@ == quant@,
        r.scalefactors@ == Seq::new(
            choices@.len(),
            |b: int| recorded(assigned@[b], choices@[b]),
        ),
        r.first_coded == first_coded_band(choices@, 0, choices@.len() as int),
        r.bits == frame_cost(tables@, r.choices@, r.scalefactors@, choices@.len() as int),
{
    let bands: usize = choices.len();
    let ghost want = Seq::new(choices@.len(), |b: int| recorded(assigned@[b], choices@[b]));
    let mut scalefactors: Vec<i32> = Vec::new();
    let mut b: usize = 0;
    while b < bands
        invariant
            b <= bands,
            bands == choices@.len(),
            bands == assigned@.len(),
            want == Seq::new(choices@.len(), |b: int| recorded(assigned@[b], choices@[b])),
            scalefactors@ == want.take(b as int),
        decreases bands - b,
    {
        let choice: BandChoice = choices[b];
        let sf: i32 = match assigned[b] {
            Some(x) => if choice.codebook == 0 {
                SF_OFFSET
            } else {
                x
            },
            None => SF_OFFSET,
        };
        scalefactors.push(sf);
        b += 1;
        assert(scalefactors@ =~= want.take(b as int));
    }
    assert(want.take(bands as int) =~= want);
    let mut first: Option<usize> = None;
    let mut k: usize = bands;
    while k > 0
        invariant
            k <= bands,
            bands == choices@.len(),
            first == first_coded_band(choices@, k as int, bands as int),
        decreases k,
    {
        k = k - 1;
        let choice: BandChoice = choices[k];
        if choice.codebook != 0 {
            first = Some(k);
        }
    }
    let mut out = Quantization { scalefactors, choices, quant, bits: 0, first_coded: first };
    let bits: usize = cost(tables, &out, bands);
    out.bits = bits;
    out
}

proof fn lemma_lowest_is_one(assigned: Seq<Option<i32>>, n: int)
    requires
        0 <= n <= assigned.len(),
    ensures
        lowest(assigned, n) matches Some(x) ==> exists|a: int|
            0 <= a < n && #[trigger] assigned[a] == Some(x),
    decreases n,
{
    if n > 0 {
        lemma_lowest_is_one(assigned, n - 1);
        let before = lowest(assigned, n - 1);
        if lowest(assigned, n) is Some && lowest(assigned, n) == before {
            let a = choose|a: int| 0 <= a < n - 1 && #[trigger] assigned[a] == before;
            assert(assigned[a] == lowest(assigned, n));
        } else if lowest(assigned, n) is Some {
            assert(assigned[n - 1] == lowest(assigned, n));
        }
    }
}

/// Bounding leaves a band uncoded, or leaves its scalefactor, or lowers it to
/// sixty above that of another band; it stays sixty above none.
pub proof fn law_bounded_scalefactors(assigned: Seq<Option<i32>>, b: int)
    requires
        0 <= b < assigned.len(),
        forall|a: int|
            0 <= a < assigned.len() ==> (#[trigger] assigned[a]) is None || assigned[a]->0
                <= i32::MAX - 60,
    ensures
        bounded(assigned).len() == assigned.len(),
        assigned[b] is None ==> bounded(assigned)[b] is None,
        assigned[b] matches Some(x) ==> bounded(assigned)[b] is Some && {
            let y = bounded(assigned)[b]->0;
            &&& y <= x
            &&& forall|a: int|
                0 <= a < assigned.len() && (#[trigger] assigned[a]) is Some ==> y <= assigned[a]->0
                    + 60
            &&& y < x ==> exists|a: int|
                0 <= a < assigned.len() && (#[trigger] assigned[a]) is Some && y == assigned[a]->0
                    + 60
        },
{
    if let Some(x) = assigned[b] {
        let n = assigned.len() as int;
        lemma_lowest(assigned, n, b);
        lemma_lowest_is_one(assigned, n);
        let low = lowest(assigned, n)->0;
        let at = choose|a: int| 0 <= a < n && #[trigger] assigned[a] == Some(low);
        let y = bounded(assigned)[b]->0;
        assert(y == capped(x as int, low + 60));
        assert forall|a: int| 0 <= a < assigned.len() && (#[trigger] assigned[a]) is Some implies y
            <= assigned[a]->0 + 60 by {
            lemma_lowest(assigned, n, a);
        }
        if y < x {
            assert(assigned[at] is Some && y == assigned[at]->0 + 60);
        }
    }
}

proof fn lemma_previous(choices: Seq<BandChoice>, sfs: Seq<i32>, a: int, b: int)
    requires
        0 <= a < b,
        choices[a].codebook != 0,
        forall|k: int| a < k < b ==> (#[trigger] choices[k]).codebook == 0,
    ensures
        previous_coded(choices, sfs, b) == Some(sfs[a]),
    decreases b,
{
    if a < b - 1 {
        assert(choices[b - 1].codebook == 0);
        lemma_previous(choices, sfs, a, b - 1);
    }
}

proof fn lemma_no_previous(choices: Seq<BandChoice>, sfs: Seq<i32>, b: int)
    requires
        forall|k: int| 0 <= k < b ==> (#[trigger] choices[k]).codebook == 0,
    ensures
        previous_coded(choices, sfs, b) is None,
    decreases b,
{
    if b > 0 {
        assert(choices[b - 1].codebook == 0);
        lemma_no_previous(choices, sfs, b - 1);
    }
}

/// A band's delta is how far its scalefactor is above that of the coded band
/// before it; the first coded band has none.
pub proof fn law_delta_to_the_coded_band_before(
    choices: Seq<BandChoice>,
    sfs: Seq<i32>,
    a: int,
    b: int,
)
    requires
        0 <= a < b,
    ensures
        choices[a].codebook != 0 && (forall|k: int|
            a < k < b ==> (#[trigger] choices[k]).codebook == 0) ==> sfs[a] + delta_at(
            choices,
            sfs,
            b,
        ) == sfs[b],
        (forall|k: int| 0 <= k < b ==> (#[trigger] choices[k]).codebook == 0) ==> delta_at(
            choices,
            sfs,
            b,
        ) == 0,
{
    if choices[a].codebook != 0 && forall|k: int|
        a < k < b ==> (#[trigger] choices[k]).codebook == 0 {
        lemma_previous(choices, sfs, a, b);
    }
    if forall|k: int| 0 <= k < b ==> (#[trigger] choices[k]).codebook == 0 {
        lemma_no_previous(choices, sfs, b);
    }
}

/// Another band costs its spectrum, nine bits where its codebook is another
/// one than that of the band before, and the codeword of its delta where it is
/// coded. A delta without a codeword costs nineteen bits. One band starts with
/// nine bits for its section.
pub proof fn law_cost_of_another_band(
    codes: Codes,
    choices: Seq<BandChoice>,
    sfs: Seq<i32>,
    n: int,
)
    requires
        n >= 0,
    ensures
        ({
            let delta = match codes.delta_word(delta_at(choices, sfs, n)) {
                Some(w) => w.len as int,
                None => 19,
            };
            let more = frame_cost(codes, choices, sfs, n + 1) - frame_cost(codes, choices, sfs, n);
            more == choices[n].bits + (if n > 0 && choices[n].codebook != choices[n - 1].codebook {
                9int
            } else {
                0
            }) + if choices[n].codebook != 0 {
                delta
            } else {
                0
            }
        }),
        frame_cost(codes, choices, sfs, 0) == 9,
{
}

proof fn lemma_first_coded(choices: Seq<BandChoice>, from: int, n: int)
    requires
        0 <= from,
        n <= choices.len() <= usize::MAX,
    ensures
        match first_coded_band(choices, from, n) {
            Some(b) => from <= b < n && choices[b as int].codebook != 0 && forall|k: int|
                from <= k < b ==> (#[trigger] choices[k]).codebook == 0,
            None => forall|k: int| from <= k < n ==> (#[trigger] choices[k]).codebook == 0,
        },
    decreases n - from,
{
    if from < n && choices[from].codebook == 0 {
        lemma_first_coded(choices, from + 1, n);
    }
}

/// The first coded band is coded, and none before it is; without one, none is.
pub proof fn law_first_coded_band(choices: Seq<BandChoice>, n: int)
    requires
        n <= choices.len() <= usize::MAX,
    ensures
        match first_coded_band(choices, 0, n) {
            Some(b) => b < n && choices[b as int].codebook != 0 && forall|k: int|
                0 <= k < b ==> (#[trigger] choices[k]).codebook == 0,
            None => forall|k: int| 0 <= k < n ==> (#[trigger] choices[k]).codebook == 0,
        },
{
    lemma_first_coded(choices, 0, n);
}

/// A coded band is recorded with the scalefactor it was assigned, any other
/// with that of unit gain.
pub proof fn law_recorded_scalefactors(x: i32, choice: BandChoice)
    ensures
        choice.codebook != 0 ==> recorded(Some(x), choice) == x && recorded(None, choice) == 100,
        choice.codebook == 0 ==> recorded(Some(x), choice) == 100 && recorded(None, choice) == 100,
{
}

} // verus!
