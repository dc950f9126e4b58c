//! Reading dynamic range metadata.

use crate::bitstream::{BitReader, Cursor};
use crate::error::Result;
use vstd::arithmetic::power2::*;
use vstd::prelude::*;

verus! {

/// The most bands a `dynamic_range_info()` element can describe.
pub const MAX_DRC_BANDS: usize = 16;

/// One `dynamic_range_info()` element.
#[derive(Debug, Clone, Copy, PartialEq, Eq)]
pub struct DrcInfo {
    /// Bands in use.
    pub bands: usize,
    /// One past the last spectral line of each band; a single band has no end.
    pub band_top: [usize; 16],
    /// Gain of each band in quarter decibels.
    pub gain: [i8; 16],
    /// Level of the programme in quarter decibels below full scale.
    pub reference_level: Option<u8>,
    /// Which channels the gains apply to.
    pub channel_included: [bool; 8],
    pub interpolation_scheme: u8,
}

/// [`DrcInfo`] as numbers.
#[verifier::ext_equal]
pub struct DrcView {
    pub bands: nat,
    pub band_top: Seq<usize>,
    pub gain: Seq<i8>,
    pub reference_level: Option<u8>,
    pub channel_included: Seq<bool>,
    pub interpolation_scheme: u8,
}

impl View for DrcInfo {
    type V = DrcView;

    open spec fn view(&self) -> DrcView {
        DrcView {
            bands: self.bands as nat,
            band_top: self.band_top@,
            gain: self.gain@,
            reference_level: self.reference_level,
            channel_included: self.channel_included@,
            interpolation_scheme: self.interpolation_scheme,
        }
    }
}

/// No channel is excluded.
pub open spec fn all_included() -> Seq<bool> {
    Seq::new(8, |i: int| true)
}

/// The exclusion bits of the first `n` channels.
pub open spec fn read_mask(c: Cursor, n: nat) -> (Seq<bool>, Cursor)
    decreases n,
{
    if n == 0 {
        (all_included(), c)
    } else {
        let (found, c) = read_mask(c, (n - 1) as nat);
        let (excluded, c) = c.flag();
        (found.update(n - 1, !excluded), c)
    }
}

/// Further masks, of seven channels and a bit that says whether yet another
/// one follows.
pub open spec fn skip_masks(c: Cursor) -> Cursor
    decreases c.bits.len(),
{
    let (mask, rest) = c.read(8);
    if mask % 2 == 1 && rest.bits.len() < c.bits.len() {
        skip_masks(rest)
    } else {
        rest
    }
}

/// The channels that a mask leaves included, and those of the further masks
/// if there are any: the first bit of those is the eighth channel's.
pub open spec fn read_included(c: Cursor) -> (Seq<bool>, Cursor) {
    let (found, c) = read_mask(c, 7);
    let (more, c) = c.flag();
    if more {
        let (mask, rest) = c.read(8);
        (
            found.update(7, mask < 128),
            if mask % 2 == 1 {
                skip_masks(rest)
            } else {
                rest
            },
        )
    } else {
        (found, c)
    }
}

/// The ends of the first `n` bands; a field of `v` ends its band at `4(v + 1)`.
pub open spec fn read_tops(c: Cursor, n: nat) -> (Seq<usize>, Cursor)
    decreases n,
{
    if n == 0 {
        (Seq::new(16, |b: int| usize::MAX), c)
    } else {
        let (found, c) = read_tops(c, (n - 1) as nat);
        let (v, c) = c.read(8);
        (
            if c.fault is None {
                found.update(n - 1, (4 * (v + 1)) as usize)
            } else {
                found
            },
            c,
        )
    }
}

/// A gain: its sign and its magnitude.
pub open spec fn gain_of(negative: bool, magnitude: nat) -> i8 {
    if negative {
        (-(magnitude as int)) as i8
    } else {
        magnitude as i8
    }
}

/// The gains of the first `n` bands.
pub open spec fn read_gains(c: Cursor, n: nat) -> (Seq<i8>, Cursor)
    decreases n,
{
    if n == 0 {
        (Seq::new(16, |b: int| 0i8), c)
    } else {
        let (found, c) = read_gains(c, (n - 1) as nat);
        let (negative, c) = c.flag();
        let (magnitude, c) = c.read(7);
        (
            if c.fault is None {
                found.update(n - 1, gain_of(negative, magnitude))
            } else {
                found
            },
            c,
        )
    }
}

impl DrcInfo {
    /// The element that a bit string starts with.
    pub open spec fn decode(c: Cursor) -> (DrcView, Cursor) {
        let (tagged, c) = c.flag();
        let (_, c) = c.read_if(tagged, 8);
        let (excludes, c) = c.flag();
        let (channel_included, c) = if excludes {
            read_included(c)
        } else {
            (all_included(), c)
        };
        let (multiband, c) = c.flag();
        let (more, c) = c.read_if(multiband, 4);
        let (scheme, c) = c.read_if(multiband, 4);
        let bands = more + 1;
        let (band_top, c) = read_tops(
            c,
            if multiband {
                bands
            } else {
                0
            },
        );
        let (levelled, c) = c.flag();
        let (level, c) = c.read_if(levelled, 7);
        let (_, c) = c.read_if(levelled, 1);
        let (gain, c) = read_gains(c, bands);
        (
            DrcView {
                bands,
                band_top,
                gain,
                reference_level: if levelled {
                    Some(level as u8)
                } else {
                    None
                },
                channel_included,
                interpolation_scheme: scheme as u8,
            },
            c,
        )
    }
}

proof fn lemma_mask_faulted(c: Cursor, n: nat, more: nat)
    requires
        n <= more,
        read_mask(c, n).1.fault is Some,
    ensures
        read_mask(c, more).1 == read_mask(c, n).1,
    decreases more,
{
    broadcast use crate::bitstream::group_faulted;

    if n < more {
        lemma_mask_faulted(c, n, (more - 1) as nat);
    }
}

proof fn lemma_tops_faulted(c: Cursor, n: nat, more: nat)
    requires
        n <= more,
        read_tops(c, n).1.fault is Some,
    ensures
        read_tops(c, more).1 == read_tops(c, n).1,
    decreases more,
{
    broadcast use crate::bitstream::group_faulted;

    if n < more {
        lemma_tops_faulted(c, n, (more - 1) as nat);
    }
}

proof fn lemma_gains_faulted(c: Cursor, n: nat, more: nat)
    requires
        n <= more,
        read_gains(c, n).1.fault is Some,
    ensures
        read_gains(c, more).1 == read_gains(c, n).1,
    decreases more,
{
    broadcast use crate::bitstream::group_faulted;

    if n < more {
        lemma_gains_faulted(c, n, (more - 1) as nat);
    }
}

broadcast proof fn lemma_mask_after_fault(c: Cursor, n: nat)
    ensures
        c.fault is Some ==> (#[trigger] read_mask(c, n)).1 == c,
{
    if c.fault is Some {
        lemma_mask_faulted(c, 0, n);
    }
}

broadcast proof fn lemma_skip_after_fault(c: Cursor)
    ensures
        c.fault is Some ==> #[trigger] skip_masks(c) == c,
{
    broadcast use crate::bitstream::group_faulted;

}

broadcast proof fn lemma_tops_after_fault(c: Cursor, n: nat)
    ensures
        c.fault is Some ==> (#[trigger] read_tops(c, n)).1 == c,
{
    if c.fault is Some {
        lemma_tops_faulted(c, 0, n);
    }
}

broadcast proof fn lemma_gains_after_fault(c: Cursor, n: nat)
    ensures
        c.fault is Some ==> (#[trigger] read_gains(c, n)).1 == c,
{
    if c.fault is Some {
        lemma_gains_faulted(c, 0, n);
    }
}

/// After a fault no more of an element is read.
pub broadcast group group_drc_faulted {
    lemma_mask_after_fault,
    lemma_skip_after_fault,
    lemma_tops_after_fault,
    lemma_gains_after_fault,
}

fn parse_further_masks(reader: &mut BitReader) -> (r: Result<()>)
    ensures
        ({
            let c = skip_masks(old(reader).cursor());
            &&& final(reader)@ == c.bits
            &&& final(reader).consumed() == old(reader).position_before(c.bits)
            &&& match r {
                Ok(_) => c.fault is None,
                Err(e) => c.fault == Some(e@),
            }
        }),
    decreases old(reader)@.len(),
{
    broadcast use crate::bitstream::group_faulted;

    let mask: u8 = reader.read_u8(8)?;
    proof {
        crate::bitstream::lemma_read_shortens(old(reader).cursor(), 8);
    }
    if mask % 2 == 1 {
        parse_further_masks(reader)?;
    }
    Ok(())
}

fn parse_included(reader: &mut BitReader) -> (r: Result<[bool; 8]>)
    ensures
        ({
            let (v, c) = read_included(old(reader).cursor());
            &&& final(reader)@ == c.bits
            &&& final(reader).consumed() == old(reader).position_before(c.bits)
            &&& match r {
                Ok(x) => c.fault is None && x@ == v,
                Err(e) => c.fault == Some(e@),
            }
        }),
{
    broadcast use {crate::bitstream::group_faulted, group_drc_faulted};

    let ghost start = reader.cursor();
    let mut included: [bool; 8] = [true;8];
    assert(included@ =~= all_included());
    let mut k: usize = 0;
    while k < 7
        invariant
            k <= 7,
            start == old(reader).cursor(),
            read_mask(start, k as nat) == (included@, reader.cursor()),
            reader.consumed() == old(reader).position_before(reader@),
        decreases 7 - k,
    {
        match reader.read_bit() {
            Ok(excluded) => {
                included[k] = !excluded;
            },
            Err(e) => {
                proof {
                    broadcast use {crate::bitstream::group_faulted, group_drc_faulted};

                    lemma_mask_faulted(start, (k + 1) as nat, 7);
                }
                return Err(e);
            },
        }
        k += 1;
    }
    let more: bool = reader.read_bit()?;
    if more {
        let mask: u8 = reader.read_u8(8)?;
        included[7] = mask < 128;
        if mask % 2 == 1 {
            parse_further_masks(reader)?;
        }
    }
    Ok(included)
}

fn parse_tops(reader: &mut BitReader, bands: usize) -> (r: Result<[usize; 16]>)
    requires
        bands <= 16,
    ensures
        ({
            let (v, c) = read_tops(old(reader).cursor(), bands as nat);
            &&& final(reader)@ == c.bits
            &&& final(reader).consumed() == old(reader).position_before(c.bits)
            &&& match r {
                Ok(x) => c.fault is None && x@ == v,
                Err(e) => c.fault == Some(e@),
            }
        }),
{
    let ghost start = reader.cursor();
    let mut tops: [usize; 16] = [usize::MAX;16];
    assert(tops@ =~= Seq::new(16, |b: int| usize::MAX));
    let mut k: usize = 0;
    while k < bands
        invariant
            k <= bands <= 16,
            start == old(reader).cursor(),
            read_tops(start, k as nat) == (tops@, reader.cursor()),
            reader.consumed() == old(reader).position_before(reader@),
        decreases bands - k,
    {
        match reader.read_u8(8) {
            Ok(v) => {
                tops[k] = 4 * (v as usize + 1);
            },
            Err(e) => {
                proof {
                    lemma_tops_faulted(start, (k + 1) as nat, bands as nat);
                }
                return Err(e);
            },
        }
        k += 1;
    }
    Ok(tops)
}

fn parse_gains(reader: &mut BitReader, bands: usize) -> (r: Result<[i8; 16]>)
    requires
        bands <= 16,
    ensures
        ({
            let (v, c) = read_gains(old(reader).cursor(), bands as nat);
            &&& final(reader)@ == c.bits
            &&& final(reader).consumed() == old(reader).position_before(c.bits)
            &&& match r {
                Ok(x) => c.fault is None && x@ == v,
                Err(e) => c.fault == Some(e@),
            }
        }),
{
    broadcast use crate::bitstream::group_faulted;

    let ghost start = reader.cursor();
    let mut gains: [i8; 16] = [0;16];
    assert(gains@ =~= Seq::new(16, |b: int| 0i8));
    let mut k: usize = 0;
    while k < bands
        invariant
            k <= bands <= 16,
            start == old(reader).cursor(),
            read_gains(start, k as nat) == (gains@, reader.cursor()),
            reader.consumed() == old(reader).position_before(reader@),
        decreases bands - k,
    {
        let negative: bool = match reader.read_bit() {
            Ok(v) => v,
            Err(e) => {
                proof {
                    broadcast use crate::bitstream::group_faulted;

                    lemma_gains_faulted(start, (k + 1) as nat, bands as nat);
                }
                return Err(e);
            },
        };
        match reader.read_u8(7) {
            Ok(magnitude) => {
                proof {
                    lemma2_to64();
                }
                gains[k] = if negative {
                    -(magnitude as i8)
                } else {
                    magnitude as i8
                };
            },
            Err(e) => {
                proof {
                    broadcast use crate::bitstream::group_faulted;

                    lemma_gains_faulted(start, (k + 1) as nat, bands as nat);
                }
                return Err(e);
            },
        }
        k += 1;
    }
    Ok(gains)
}

impl DrcInfo {
    /// Reads one element.
    pub fn parse(reader: &mut BitReader) -> (r: Result<Self>)
        ensures
            ({
                let (v, c) = Self::decode(old(reader).cursor());
                &&& final(reader)@ == c.bits
                &&& final(reader).consumed() == old(reader).position_before(c.bits)
                &&& match r {
                    Ok(x) => c.fault is None && x@ == v,
                    Err(e) => c.fault == Some(e@),
                }
            }),
    {
        broadcast use {crate::bitstream::group_faulted, group_drc_faulted};

        proof {
            lemma2_to64();
        }
        let tagged: bool = reader.read_bit()?;
        if tagged {
            let _ = reader.read_u8(8)?;
        }
        let excludes: bool = reader.read_bit()?;
        let channel_included: [bool; 8] = if excludes {
            parse_included(reader)?
        } else {
            let all: [bool; 8] = [true;8];
            assert(all@ =~= all_included());
            all
        };
        let multiband: bool = reader.read_bit()?;
        let more: u8 = if multiband {
            reader.read_u8(4)?
        } else {
            0
        };
        let scheme: u8 = if multiband {
            reader.read_u8(4)?
        } else {
            0
        };
        let bands: usize = more as usize + 1;
        let band_top: [usize; 16] = parse_tops(
            reader,
            if multiband {
                bands
            } else {
                0
            },
        )?;
        let levelled: bool = reader.read_bit()?;
        let level: u8 = if levelled {
            reader.read_u8(7)?
        } else {
            0
        };
        if levelled {
            let _ = reader.read_u8(1)?;
        }
        let gain: [i8; 16] = parse_gains(reader, bands)?;
        Ok(
            DrcInfo {
                bands,
                band_top,
                gain,
                reference_level: if levelled {
                    Some(level)
                } else {
                    None
                },
                channel_included,
                interpolation_scheme: scheme,
            },
        )
    }
}

} // verus!
