//! MPEG-D USAC (Unified Speech and Audio Coding) core decoding.
//!
//! * [`arith`] is the context-adaptive arithmetic decoder for spectral data,
//!   and [`inverse`] the proof that it undoes the encoder.
//! * [`acelp`] is the bitstream side of the speech core.
//! * [`avq`] and [`lattice`] decode the lattice vector quantizer.
//!
//! This module itself reads the head of a Linear Prediction Domain (LPD)
//! frame. A frame whose mode field asks for the transform half of that domain
//! is refused: an unsupported tool is an error and never a wrong answer.

use crate::bitstream::{BitReader, Cursor};
use crate::error::{Error, FormatError, Result};
use crate::tables::usac_acelp::LEN_SUBFR;
use crate::text;
use acelp::AcelpFrame;
use vstd::arithmetic::power2::*;
use vstd::prelude::*;

pub mod acelp;
pub mod arith;
pub mod avq;
pub mod container;
pub mod fd;
pub mod inverse;
pub mod lattice;
pub mod lattice_blocks;
pub mod lattice_leaders;
pub mod lattice_points;
pub mod pulses;
pub mod ranking;
pub mod scaling;
pub mod speech;
pub mod stopping;

verus! {

/// Core coding mode for a USAC audio frame.
#[derive(Debug, Clone, Copy, PartialEq, Eq, Structural)]
pub enum UsacCoreMode {
    /// Frequency Domain: an MDCT core, for music and general audio.
    FdMode,
    /// Linear Prediction Domain: ACELP or TCX, for speech.
    LpdMode,
}

/// What one subframe of an LPD superframe is coded with.
#[derive(Debug, Clone, Copy, PartialEq, Eq, Structural)]
pub enum LpdSubframeMode {
    Acelp,
    Tcx20,
    Tcx40,
    Tcx80,
}

impl LpdSubframeMode {
    pub open spec fn of_code(code: int) -> Self {
        if code == 0 {
            Self::Acelp
        } else if code == 1 {
            Self::Tcx20
        } else if code == 2 {
            Self::Tcx40
        } else {
            Self::Tcx80
        }
    }

    pub open spec fn name(self) -> Seq<char> {
        match self {
            Self::Acelp => "Acelp"@,
            Self::Tcx20 => "Tcx20"@,
            Self::Tcx40 => "Tcx40"@,
            Self::Tcx80 => "Tcx80"@,
        }
    }

    fn from_code(code: u8) -> (r: Self)
        ensures
            r == Self::of_code(code as int),
    {
        match code {
            0 => Self::Acelp,
            1 => Self::Tcx20,
            2 => Self::Tcx40,
            _ => Self::Tcx80,
        }
    }

    fn to_text(&self) -> (r: &'static str)
        ensures
            r@ == self.name(),
    {
        match self {
            Self::Acelp => "Acelp",
            Self::Tcx20 => "Tcx20",
            Self::Tcx40 => "Tcx40",
            Self::Tcx80 => "Tcx80",
        }
    }
}

/// The mode of each of the four subframes of an LPD superframe.
#[derive(Debug, Clone, Copy, PartialEq, Eq)]
pub struct LpdModeSet(pub [LpdSubframeMode; 4]);

/// Bit `k` of `x`.
pub open spec fn mode_bit(x: int, k: nat) -> int {
    (x / pow2(k) as int) % 2
}

impl LpdModeSet {
    /// The codes that the field `m` packs: 25 is one long transform over the
    /// whole superframe, 24 two of half its length, 16 to 23 one of half its
    /// length beside two subframes of one bit each, and anything below 16 four
    /// subframes of one bit each.
    pub open spec fn codes(m: int) -> Seq<int> {
        if m == 25 {
            seq![3, 3, 3, 3]
        } else if m == 24 {
            seq![2, 2, 2, 2]
        } else if m >= 20 {
            seq![mode_bit(m, 0), mode_bit(m, 1), 2, 2]
        } else if m >= 16 {
            seq![2, 2, mode_bit(m, 0), mode_bit(m, 1)]
        } else {
            seq![mode_bit(m, 0), mode_bit(m, 1), mode_bit(m, 2), mode_bit(m, 3)]
        }
    }

    pub open spec fn of_field(m: int) -> Seq<LpdSubframeMode> {
        Self::codes(m).map_values(|c: int| LpdSubframeMode::of_code(c))
    }

    /// The four modes in square brackets.
    pub open spec fn list(modes: Seq<LpdSubframeMode>) -> Seq<char> {
        "["@ + modes[0].name() + ", "@ + modes[1].name() + ", "@ + modes[2].name() + ", "@
            + modes[3].name() + "]"@
    }

    pub open spec fn all_acelp(modes: Seq<LpdSubframeMode>) -> bool {
        forall|i: int| 0 <= i < modes.len() ==> #[trigger] modes[i] == LpdSubframeMode::Acelp
    }

    /// Unpacks the transmitted `lpd_mode` field.
    pub fn parse(lpd_mode: u8) -> (r: Result<Self>)
        ensures
            match r {
                Ok(x) => lpd_mode <= 25 && x.0@ == Self::of_field(lpd_mode as int),
                Err(e) => lpd_mode > 25 && e@ == acelp::invalid_usac(
                    "lpd_mode "@ + text::decimal_text(lpd_mode as nat)
                        + " is out of range 0..=25"@,
                ),
            },
    {
        if lpd_mode > 25 {
            let mut message: String = text::with_number("lpd_mode ", lpd_mode as u64);
            message.append(" is out of range 0..=25");
            return Err(Error::Format(FormatError::InvalidUsacContainer(message)));
        }
        proof {
            lemma2_to64();
        }
        let b0: u8 = lpd_mode % 2;
        let b1: u8 = lpd_mode / 2 % 2;
        let m: [u8; 4] = if lpd_mode == 25 {
            [3, 3, 3, 3]
        } else if lpd_mode == 24 {
            [2, 2, 2, 2]
        } else if lpd_mode >= 20 {
            [b0, b1, 2, 2]
        } else if lpd_mode >= 16 {
            [2, 2, b0, b1]
        } else {
            [b0, b1, lpd_mode / 4 % 2, lpd_mode / 8 % 2]
        };
        let modes: [LpdSubframeMode; 4] = [
            LpdSubframeMode::from_code(m[0]),
            LpdSubframeMode::from_code(m[1]),
            LpdSubframeMode::from_code(m[2]),
            LpdSubframeMode::from_code(m[3]),
        ];
        assert(modes@ =~= Self::of_field(lpd_mode as int));
        Ok(LpdModeSet(modes))
    }

    /// True when every subframe is ACELP.
    pub fn is_all_acelp(&self) -> (r: bool)
        ensures
            r == Self::all_acelp(self.0@),
    {
        self.0[0] == LpdSubframeMode::Acelp && self.0[1] == LpdSubframeMode::Acelp && self.0[2]
            == LpdSubframeMode::Acelp && self.0[3] == LpdSubframeMode::Acelp
    }

    fn to_text(&self) -> (r: String)
        ensures
            r@ == Self::list(self.0@),
    {
        let mut out: String = String::new();
        out.append("[");
        out.append(self.0[0].to_text());
        out.append(", ");
        out.append(self.0[1].to_text());
        out.append(", ");
        out.append(self.0[2].to_text());
        out.append(", ");
        out.append(self.0[3].to_text());
        out.append("]");
        assert(out@ =~= Self::list(self.0@));
        out
    }
}

/// Two fields in range that unpack to the same modes are the same field.
pub proof fn law_lpd_modes_distinct(a: int, b: int)
    requires
        0 <= a <= 25,
        0 <= b <= 25,
        LpdModeSet::of_field(a) == LpdModeSet::of_field(b),
    ensures
        a == b,
{
    lemma2_to64();
    let f = LpdModeSet::of_field(a);
    let g = LpdModeSet::of_field(b);
    assert(f[0] == g[0] && f[1] == g[1] && f[2] == g[2] && f[3] == g[3]);
}

/// An LPD frame that is coded entirely with ACELP.
#[derive(Debug, Clone)]
pub struct LpdFrame {
    /// The field that fixes the innovation's bit budget.
    pub core_mode: usize,
    pub frame: AcelpFrame,
}

/// [`LpdFrame`] as numbers.
#[verifier::ext_equal]
pub struct LpdFrameView {
    pub core_mode: int,
    pub frame: acelp::AcelpFrameView,
}

impl View for LpdFrame {
    type V = LpdFrameView;

    open spec fn view(&self) -> LpdFrameView {
        LpdFrameView { core_mode: self.core_mode as int, frame: self.frame@ }
    }
}

impl LpdFrame {
    /// The frame that a bit string starts with. It is refused where its mode
    /// field is out of range or asks for anything but ACELP.
    pub open spec fn decode(c: Cursor) -> (LpdFrameView, Cursor) {
        let (core_mode, c) = c.read(3);
        let (lpd_mode, c) = c.read(5);
        let c = c.fail_if(
            lpd_mode > 25,
            acelp::invalid_usac(
                "lpd_mode "@ + text::decimal_text(lpd_mode) + " is out of range 0..=25"@,
            ),
        );
        let modes = LpdModeSet::of_field(lpd_mode as int);
        let c = c.fail_if(
            !LpdModeSet::all_acelp(modes),
            acelp::invalid_usac(
                "LPD frame uses "@ + LpdModeSet::list(modes)
                    + "; TCX and FAC are not implemented yet"@,
            ),
        );
        let (frame, c) = AcelpFrame::decode(c, core_mode as int, 4);
        (LpdFrameView { core_mode: core_mode as int, frame }, c)
    }

    /// Reads one LPD frame.
    pub fn parse(reader: &mut BitReader) -> (r: Result<Self>)
        ensures
            ({
                let (v, c) = Self::decode(old(reader).cursor());
                &&& final(reader)@ == c.bits
                &&& final(reader).consumed() == old(reader).position_before(c.bits)
                &&& match r {
                    Ok(x) => c.fault is None && x@ == v && final(reader).consumed() == old(
                        reader,
                    ).consumed() + 8 + AcelpFrame::width(v.core_mode, 4),
                    Err(e) => c.fault == Some(e@),
                }
            }),
    {
        broadcast use {crate::bitstream::group_faulted, acelp::lemma_frame_after_fault};

        proof {
            lemma2_to64();
        }
        let core_mode: u32 = reader.read_u32(3)?;
        let lpd_mode: u32 = reader.read_u32(5)?;
        let modes: LpdModeSet = LpdModeSet::parse(lpd_mode as u8)?;
        if !modes.is_all_acelp() {
            let mut message: String = String::new();
            message.append("LPD frame uses ");
            message.append(modes.to_text().as_str());
            message.append("; TCX and FAC are not implemented yet");
            assert(message@ =~= "LPD frame uses "@ + LpdModeSet::list(modes.0@)
                + "; TCX and FAC are not implemented yet"@);
            return Err(Error::Format(FormatError::InvalidUsacContainer(message)));
        }
        let frame: AcelpFrame = AcelpFrame::parse(reader, core_mode as usize, 4)?;
        Ok(LpdFrame { core_mode: core_mode as usize, frame })
    }
}

/// Samples one LPD frame produces.
pub fn frame_len() -> (r: usize)
    ensures
        r == 256,
{
    4 * LEN_SUBFR
}

/// The only field that says that every subframe is ACELP is zero.
pub proof fn law_only_zero_is_all_acelp(m: int)
    requires
        0 <= m <= 25,
    ensures
        LpdModeSet::all_acelp(LpdModeSet::of_field(m)) <==> m == 0,
{
    lemma2_to64();
    let modes = LpdModeSet::of_field(m);
    if LpdModeSet::all_acelp(modes) {
        assert(modes[0] == LpdSubframeMode::Acelp && modes[1] == LpdSubframeMode::Acelp && modes[2]
            == LpdSubframeMode::Acelp && modes[3] == LpdSubframeMode::Acelp);
    }
}

} // verus!
