//! Core domain types, enumerations and constants for MPEG audio codecs.

use crate::text;
use vstd::prelude::*;

verus! {

/// MPEG Audio Object Types (AOT).
#[derive(Debug, Clone, Copy, PartialEq, Eq, Hash, Structural)]
pub enum AudioObjectType {
    Null,
    AacMain,
    AacLc,
    AacSsr,
    AacLtp,
    Sbr,
    AacScalable,
    TwinVq,
    Celp,
    Hvxc,
    Ttsi,
    MainSynthetic,
    Wavetable,
    GeneralMidi,
    Algorithmic,
    ErAacLc,
    ErAacLtp,
    ErAacScalable,
    ErTwinVq,
    ErBsac,
    ErAacLd,
    ErCelp,
    ErHvxc,
    ErHiln,
    ErParametric,
    Ssc,
    Ps,
    MpegSurround,
    Layer1,
    Layer2,
    Layer3,
    Dst,
    Als,
    Sls,
    SlsNonCore,
    ErAacEld,
    SmrSimple,
    SmrMain,
    Usac,
    Saoc,
    LdMpegSurround,
    UsacDrc,
}

impl AudioObjectType {
    /// The number that stands for the object type in a bitstream.
    pub open spec fn code(self) -> u8 {
        match self {
            Self::Null => 0,
            Self::AacMain => 1,
            Self::AacLc => 2,
            Self::AacSsr => 3,
            Self::AacLtp => 4,
            Self::Sbr => 5,
            Self::AacScalable => 6,
            Self::TwinVq => 7,
            Self::Celp => 8,
            Self::Hvxc => 9,
            Self::Ttsi => 12,
            Self::MainSynthetic => 13,
            Self::Wavetable => 14,
            Self::GeneralMidi => 15,
            Self::Algorithmic => 16,
            Self::ErAacLc => 17,
            Self::ErAacLtp => 19,
            Self::ErAacScalable => 20,
            Self::ErTwinVq => 21,
            Self::ErBsac => 22,
            Self::ErAacLd => 23,
            Self::ErCelp => 24,
            Self::ErHvxc => 25,
            Self::ErHiln => 26,
            Self::ErParametric => 27,
            Self::Ssc => 28,
            Self::Ps => 29,
            Self::MpegSurround => 30,
            Self::Layer1 => 32,
            Self::Layer2 => 33,
            Self::Layer3 => 34,
            Self::Dst => 35,
            Self::Als => 36,
            Self::Sls => 37,
            Self::SlsNonCore => 38,
            Self::ErAacEld => 39,
            Self::SmrSimple => 40,
            Self::SmrMain => 41,
            Self::Usac => 42,
            Self::Saoc => 43,
            Self::LdMpegSurround => 44,
            Self::UsacDrc => 45,
        }
    }

    /// The object type that a number stands for, if there is one.
    pub open spec fn of_code(value: u8) -> Option<Self> {
        match value {
            0 => Some(Self::Null),
            1 => Some(Self::AacMain),
            2 => Some(Self::AacLc),
            3 => Some(Self::AacSsr),
            4 => Some(Self::AacLtp),
            5 => Some(Self::Sbr),
            6 => Some(Self::AacScalable),
            7 => Some(Self::TwinVq),
            8 => Some(Self::Celp),
            9 => Some(Self::Hvxc),
            12 => Some(Self::Ttsi),
            13 => Some(Self::MainSynthetic),
            14 => Some(Self::Wavetable),
            15 => Some(Self::GeneralMidi),
            16 => Some(Self::Algorithmic),
            17 => Some(Self::ErAacLc),
            19 => Some(Self::ErAacLtp),
            20 => Some(Self::ErAacScalable),
            21 => Some(Self::ErTwinVq),
            22 => Some(Self::ErBsac),
            23 => Some(Self::ErAacLd),
            24 => Some(Self::ErCelp),
            25 => Some(Self::ErHvxc),
            26 => Some(Self::ErHiln),
            27 => Some(Self::ErParametric),
            28 => Some(Self::Ssc),
            29 => Some(Self::Ps),
            30 => Some(Self::MpegSurround),
            32 => Some(Self::Layer1),
            33 => Some(Self::Layer2),
            34 => Some(Self::Layer3),
            35 => Some(Self::Dst),
            36 => Some(Self::Als),
            37 => Some(Self::Sls),
            38 => Some(Self::SlsNonCore),
            39 => Some(Self::ErAacEld),
            40 => Some(Self::SmrSimple),
            41 => Some(Self::SmrMain),
            42 => Some(Self::Usac),
            43 => Some(Self::Saoc),
            44 => Some(Self::LdMpegSurround),
            45 => Some(Self::UsacDrc),
            _ => None,
        }
    }

    pub fn from_u8(value: u8) -> (r: Option<Self>)
        ensures
            r == Self::of_code(value),
    {
        match value {
            0 => Some(Self::Null),
            1 => Some(Self::AacMain),
            2 => Some(Self::AacLc),
            3 => Some(Self::AacSsr),
            4 => Some(Self::AacLtp),
            5 => Some(Self::Sbr),
            6 => Some(Self::AacScalable),
            7 => Some(Self::TwinVq),
            8 => Some(Self::Celp),
            9 => Some(Self::Hvxc),
            12 => Some(Self::Ttsi),
            13 => Some(Self::MainSynthetic),
            14 => Some(Self::Wavetable),
            15 => Some(Self::GeneralMidi),
            16 => Some(Self::Algorithmic),
            17 => Some(Self::ErAacLc),
            19 => Some(Self::ErAacLtp),
            20 => Some(Self::ErAacScalable),
            21 => Some(Self::ErTwinVq),
            22 => Some(Self::ErBsac),
            23 => Some(Self::ErAacLd),
            24 => Some(Self::ErCelp),
            25 => Some(Self::ErHvxc),
            26 => Some(Self::ErHiln),
            27 => Some(Self::ErParametric),
            28 => Some(Self::Ssc),
            29 => Some(Self::Ps),
            30 => Some(Self::MpegSurround),
            32 => Some(Self::Layer1),
            33 => Some(Self::Layer2),
            34 => Some(Self::Layer3),
            35 => Some(Self::Dst),
            36 => Some(Self::Als),
            37 => Some(Self::Sls),
            38 => Some(Self::SlsNonCore),
            39 => Some(Self::ErAacEld),
            40 => Some(Self::SmrSimple),
            41 => Some(Self::SmrMain),
            42 => Some(Self::Usac),
            43 => Some(Self::Saoc),
            44 => Some(Self::LdMpegSurround),
            45 => Some(Self::UsacDrc),
            _ => None,
        }
    }

    pub fn as_u8(self) -> (r: u8)
        ensures
            r == self.code(),
    {
        match self {
            Self::Null => 0,
            Self::AacMain => 1,
            Self::AacLc => 2,
            Self::AacSsr => 3,
            Self::AacLtp => 4,
            Self::Sbr => 5,
            Self::AacScalable => 6,
            Self::TwinVq => 7,
            Self::Celp => 8,
            Self::Hvxc => 9,
            Self::Ttsi => 12,
            Self::MainSynthetic => 13,
            Self::Wavetable => 14,
            Self::GeneralMidi => 15,
            Self::Algorithmic => 16,
            Self::ErAacLc => 17,
            Self::ErAacLtp => 19,
            Self::ErAacScalable => 20,
            Self::ErTwinVq => 21,
            Self::ErBsac => 22,
            Self::ErAacLd => 23,
            Self::ErCelp => 24,
            Self::ErHvxc => 25,
            Self::ErHiln => 26,
            Self::ErParametric => 27,
            Self::Ssc => 28,
            Self::Ps => 29,
            Self::MpegSurround => 30,
            Self::Layer1 => 32,
            Self::Layer2 => 33,
            Self::Layer3 => 34,
            Self::Dst => 35,
            Self::Als => 36,
            Self::Sls => 37,
            Self::SlsNonCore => 38,
            Self::ErAacEld => 39,
            Self::SmrSimple => 40,
            Self::SmrMain => 41,
            Self::Usac => 42,
            Self::Saoc => 43,
            Self::LdMpegSurround => 44,
            Self::UsacDrc => 45,
        }
    }

    /// Whether this Audio Object Type belongs to the Low Delay family (AAC-LD / AAC-ELD).
    pub fn is_low_delay(self) -> (r: bool)
        ensures
            r == (self == Self::ErAacLd || self == Self::ErAacEld),
    {
        matches!(self, Self::ErAacLd | Self::ErAacEld)
    }

    /// Whether this Audio Object Type is USAC (Unified Speech and Audio Coding).
    pub fn is_usac(self) -> (r: bool)
        ensures
            r == (self == Self::Usac || self == Self::UsacDrc),
    {
        matches!(self, Self::Usac | Self::UsacDrc)
    }
}

/// `AudioObjectType::from_u8` and `AudioObjectType::as_u8` are inverse to each other.
pub proof fn law_audio_object_type_codes(t: AudioObjectType, value: u8)
    ensures
        AudioObjectType::of_code(t.code()) == Some(t),
        AudioObjectType::of_code(value) == Some(t) <==> t.code() == value,
{
}

/// Standard MPEG sampling rates, in the order of their table indices.
#[derive(Debug, Clone, Copy, PartialEq, Eq, PartialOrd, Ord, Hash, Structural)]
pub enum SamplingRate {
    Hz96000,
    Hz88200,
    Hz64000,
    Hz48000,
    Hz44100,
    Hz32000,
    Hz24000,
    Hz22050,
    Hz16000,
    Hz12000,
    Hz11025,
    Hz8000,
    Hz7350,
    Custom(u32),
}

/// The rate in Hertz at a standard index.
pub open spec fn standard_hz(index: int) -> int {
    if index == 0 {
        96000
    } else if index == 1 {
        88200
    } else if index == 2 {
        64000
    } else if index == 3 {
        48000
    } else if index == 4 {
        44100
    } else if index == 5 {
        32000
    } else if index == 6 {
        24000
    } else if index == 7 {
        22050
    } else if index == 8 {
        16000
    } else if index == 9 {
        12000
    } else if index == 10 {
        11025
    } else if index == 11 {
        8000
    } else if index == 12 {
        7350
    } else {
        0
    }
}

impl SamplingRate {
    /// Standard sampling rate table in descending order.
    pub const RATES: [u32; 13] = [
        96000, 88200, 64000, 48000, 44100, 32000, 24000, 22050, 16000, 12000, 11025, 8000, 7350,
    ];

    /// The rate in Hertz.
    pub open spec fn in_hz(self) -> u32 {
        match self {
            Self::Hz96000 => 96000,
            Self::Hz88200 => 88200,
            Self::Hz64000 => 64000,
            Self::Hz48000 => 48000,
            Self::Hz44100 => 44100,
            Self::Hz32000 => 32000,
            Self::Hz24000 => 24000,
            Self::Hz22050 => 22050,
            Self::Hz16000 => 16000,
            Self::Hz12000 => 12000,
            Self::Hz11025 => 11025,
            Self::Hz8000 => 8000,
            Self::Hz7350 => 7350,
            Self::Custom(rate) => rate,
        }
    }

    /// The named rate at a standard index.
    pub open spec fn at_index(index: u8) -> Option<Self> {
        match index {
            0 => Some(Self::Hz96000),
            1 => Some(Self::Hz88200),
            2 => Some(Self::Hz64000),
            3 => Some(Self::Hz48000),
            4 => Some(Self::Hz44100),
            5 => Some(Self::Hz32000),
            6 => Some(Self::Hz24000),
            7 => Some(Self::Hz22050),
            8 => Some(Self::Hz16000),
            9 => Some(Self::Hz12000),
            10 => Some(Self::Hz11025),
            11 => Some(Self::Hz8000),
            12 => Some(Self::Hz7350),
            _ => None,
        }
    }

    /// The rate that a number of Hertz denotes: a named rate where there is
    /// one.
    pub open spec fn of_hz(hz: u32) -> Self {
        match hz {
            96000 => Self::Hz96000,
            88200 => Self::Hz88200,
            64000 => Self::Hz64000,
            48000 => Self::Hz48000,
            44100 => Self::Hz44100,
            32000 => Self::Hz32000,
            24000 => Self::Hz24000,
            22050 => Self::Hz22050,
            16000 => Self::Hz16000,
            12000 => Self::Hz12000,
            11025 => Self::Hz11025,
            8000 => Self::Hz8000,
            7350 => Self::Hz7350,
            other => Self::Custom(other),
        }
    }

    /// The index at which the standard table holds this rate.
    pub open spec fn index(self) -> Option<u8> {
        match self.in_hz() {
            96000 => Some(0u8),
            88200 => Some(1u8),
            64000 => Some(2u8),
            48000 => Some(3u8),
            44100 => Some(4u8),
            32000 => Some(5u8),
            24000 => Some(6u8),
            22050 => Some(7u8),
            16000 => Some(8u8),
            12000 => Some(9u8),
            11025 => Some(10u8),
            8000 => Some(11u8),
            7350 => Some(12u8),
            _ => None,
        }
    }

    /// Convert from the standard 4-bit sampling frequency index (0..12).
    pub fn from_index(index: u8) -> (r: Option<Self>)
        ensures
            r == Self::at_index(index),
    {
        match index {
            0 => Some(Self::Hz96000),
            1 => Some(Self::Hz88200),
            2 => Some(Self::Hz64000),
            3 => Some(Self::Hz48000),
            4 => Some(Self::Hz44100),
            5 => Some(Self::Hz32000),
            6 => Some(Self::Hz24000),
            7 => Some(Self::Hz22050),
            8 => Some(Self::Hz16000),
            9 => Some(Self::Hz12000),
            10 => Some(Self::Hz11025),
            11 => Some(Self::Hz8000),
            12 => Some(Self::Hz7350),
            _ => None,
        }
    }

    /// Return the standard 4-bit index if this rate is one of the standard 13 rates.
    pub fn to_index(self) -> (r: Option<u8>)
        ensures
            r == self.index(),
    {
        let hz: u32 = self.hz();
        let mut i: usize = 0;
        while i < 13
            invariant
                i <= 13,
                hz == self.in_hz(),
                forall|j: int| 0 <= j < i ==> standard_hz(j) != hz,
            decreases 13 - i,
        {
            let rate: u32 = Self::RATES[i];
            assert(rate == standard_hz(i as int));
            if rate == hz {
                return Some(i as u8);
            }
            i += 1;
        }
        proof {
            assert(forall|j: int| 0 <= j < 13 ==> standard_hz(j) != hz);
            assert(standard_hz(0) != hz);
            assert(standard_hz(1) != hz);
            assert(standard_hz(2) != hz);
            assert(standard_hz(3) != hz);
            assert(standard_hz(4) != hz);
            assert(standard_hz(5) != hz);
            assert(standard_hz(6) != hz);
            assert(standard_hz(7) != hz);
            assert(standard_hz(8) != hz);
            assert(standard_hz(9) != hz);
            assert(standard_hz(10) != hz);
            assert(standard_hz(11) != hz);
            assert(standard_hz(12) != hz);
        }
        None
    }

    /// Convert from an integer Hertz value.
    pub fn from_hz(hz: u32) -> (r: Self)
        ensures
            r == Self::of_hz(hz),
    {
        match hz {
            96000 => Self::Hz96000,
            88200 => Self::Hz88200,
            64000 => Self::Hz64000,
            48000 => Self::Hz48000,
            44100 => Self::Hz44100,
            32000 => Self::Hz32000,
            24000 => Self::Hz24000,
            22050 => Self::Hz22050,
            16000 => Self::Hz16000,
            12000 => Self::Hz12000,
            11025 => Self::Hz11025,
            8000 => Self::Hz8000,
            7350 => Self::Hz7350,
            other => Self::Custom(other),
        }
    }

    /// Return the sample rate in Hertz as `u32`.
    pub fn hz(self) -> (r: u32)
        ensures
            r == self.in_hz(),
    {
        match self {
            Self::Hz96000 => 96000,
            Self::Hz88200 => 88200,
            Self::Hz64000 => 64000,
            Self::Hz48000 => 48000,
            Self::Hz44100 => 44100,
            Self::Hz32000 => 32000,
            Self::Hz24000 => 24000,
            Self::Hz22050 => 22050,
            Self::Hz16000 => 16000,
            Self::Hz12000 => 12000,
            Self::Hz11025 => 11025,
            Self::Hz8000 => 8000,
            Self::Hz7350 => 7350,
            Self::Custom(rate) => rate,
        }
    }

    /// The rate as text, such as `44100 Hz`.
    pub fn to_text(self) -> (r: String)
        ensures
            r@ == text::decimal_text(self.in_hz() as nat) + " Hz"@,
    {
        let mut out: String = text::decimal(self.hz() as u64);
        out.append(" Hz");
        out
    }
}

/// The standard table holds each named rate once, in descending order, and an
/// index names the rate that the table holds there.
pub proof fn law_sampling_rate_table(index: u8, rate: SamplingRate)
    ensures
        SamplingRate::at_index(index) is Some <==> index < 13,
        index < 13 ==> {
            &&& SamplingRate::at_index(index)->0.in_hz() == SamplingRate::RATES[index as int]
            &&& SamplingRate::at_index(index)->0.index() == Some(index)
        },
        rate.index() == Some(index) <==> index < 13 && rate.in_hz()
            == SamplingRate::RATES[index as int],
        forall|i: int, j: int|
            0 <= i < j < 13 ==> SamplingRate::RATES[i] > SamplingRate::RATES[j],
{
    assert(index < 13 ==> SamplingRate::RATES[index as int] == standard_hz(index as int));
    assert forall|i: int, j: int| 0 <= i < j < 13 implies SamplingRate::RATES[i]
        > SamplingRate::RATES[j] by {
        assert(SamplingRate::RATES[i] == standard_hz(i));
        assert(SamplingRate::RATES[j] == standard_hz(j));
    }
}

/// A rate survives the trip through Hertz, unless it is a `Custom` rate that
/// has a name.
pub proof fn law_sampling_rate_hz(rate: SamplingRate, hz: u32)
    ensures
        SamplingRate::of_hz(hz).in_hz() == hz,
        !(rate is Custom && rate.index() is Some) ==> SamplingRate::of_hz(rate.in_hz()) == rate,
{
}

/// Standard MPEG channel configurations (0..7, 11..13).
#[derive(Debug, Clone, Copy, PartialEq, Eq, Hash, Structural)]
pub enum ChannelConfiguration {
    CustomPce,
    Mono,
    Stereo,
    ThreeChannel,
    FourChannel,
    FiveChannel,
    FivePointOne,
    SevenPointOne,
    SixPointOne,
    SevenPointOneTop,
    TwentyTwoPointTwo,
}

impl ChannelConfiguration {
    /// The number that stands for the channel configuration in a bitstream.
    pub open spec fn code(self) -> u8 {
        match self {
            Self::CustomPce => 0,
            Self::Mono => 1,
            Self::Stereo => 2,
            Self::ThreeChannel => 3,
            Self::FourChannel => 4,
            Self::FiveChannel => 5,
            Self::FivePointOne => 6,
            Self::SevenPointOne => 7,
            Self::SixPointOne => 11,
            Self::SevenPointOneTop => 12,
            Self::TwentyTwoPointTwo => 13,
        }
    }

    /// The channel configuration that a number stands for, if there is one.
    pub open spec fn of_code(value: u8) -> Option<Self> {
        match value {
            0 => Some(Self::CustomPce),
            1 => Some(Self::Mono),
            2 => Some(Self::Stereo),
            3 => Some(Self::ThreeChannel),
            4 => Some(Self::FourChannel),
            5 => Some(Self::FiveChannel),
            6 => Some(Self::FivePointOne),
            7 => Some(Self::SevenPointOne),
            11 => Some(Self::SixPointOne),
            12 => Some(Self::SevenPointOneTop),
            13 => Some(Self::TwentyTwoPointTwo),
            _ => None,
        }
    }

    pub fn from_u8(value: u8) -> (r: Option<Self>)
        ensures
            r == Self::of_code(value),
    {
        match value {
            0 => Some(Self::CustomPce),
            1 => Some(Self::Mono),
            2 => Some(Self::Stereo),
            3 => Some(Self::ThreeChannel),
            4 => Some(Self::FourChannel),
            5 => Some(Self::FiveChannel),
            6 => Some(Self::FivePointOne),
            7 => Some(Self::SevenPointOne),
            11 => Some(Self::SixPointOne),
            12 => Some(Self::SevenPointOneTop),
            13 => Some(Self::TwentyTwoPointTwo),
            _ => None,
        }
    }

    pub fn as_u8(self) -> (r: u8)
        ensures
            r == self.code(),
    {
        match self {
            Self::CustomPce => 0,
            Self::Mono => 1,
            Self::Stereo => 2,
            Self::ThreeChannel => 3,
            Self::FourChannel => 4,
            Self::FiveChannel => 5,
            Self::FivePointOne => 6,
            Self::SevenPointOne => 7,
            Self::SixPointOne => 11,
            Self::SevenPointOneTop => 12,
            Self::TwentyTwoPointTwo => 13,
        }
    }

    /// The number of channels that the configuration carries; zero where a
    /// program config element tells.
    pub open spec fn channel_count(self) -> usize {
        match self {
            Self::CustomPce => 0,
            Self::Mono => 1,
            Self::Stereo => 2,
            Self::ThreeChannel => 3,
            Self::FourChannel => 4,
            Self::FiveChannel => 5,
            Self::FivePointOne => 6,
            Self::SevenPointOne => 8,
            Self::SixPointOne => 7,
            Self::SevenPointOneTop => 8,
            Self::TwentyTwoPointTwo => 24,
        }
    }

    pub fn channels(self) -> (r: usize)
        ensures
            r == self.channel_count(),
    {
        match self {
            Self::CustomPce => 0,
            Self::Mono => 1,
            Self::Stereo => 2,
            Self::ThreeChannel => 3,
            Self::FourChannel => 4,
            Self::FiveChannel => 5,
            Self::FivePointOne => 6,
            Self::SevenPointOne => 8,
            Self::SixPointOne => 7,
            Self::SevenPointOneTop => 8,
            Self::TwentyTwoPointTwo => 24,
        }
    }
}

/// `ChannelConfiguration::from_u8` and `ChannelConfiguration::as_u8` are inverse to each other.
pub proof fn law_channel_configuration_codes(t: ChannelConfiguration, value: u8)
    ensures
        ChannelConfiguration::of_code(t.code()) == Some(t),
        ChannelConfiguration::of_code(value) == Some(t) <==> t.code() == value,
{
}

/// Which windows a frame is transformed with.
#[derive(Debug, Clone, Copy, PartialEq, Eq, Hash, Structural)]
pub enum WindowSequence {
    OnlyLongSequence,
    LongStartSequence,
    EightShortSequence,
    LongStopSequence,
}

impl Default for WindowSequence {
    fn default() -> (r: Self)
        ensures
            r == Self::OnlyLongSequence,
    {
        Self::OnlyLongSequence
    }
}

impl WindowSequence {
    /// The number that stands for the window sequence in a bitstream.
    pub open spec fn code(self) -> u8 {
        match self {
            Self::OnlyLongSequence => 0,
            Self::LongStartSequence => 1,
            Self::EightShortSequence => 2,
            Self::LongStopSequence => 3,
        }
    }

    /// The window sequence that a number stands for, if there is one.
    pub open spec fn of_code(value: u8) -> Option<Self> {
        match value {
            0 => Some(Self::OnlyLongSequence),
            1 => Some(Self::LongStartSequence),
            2 => Some(Self::EightShortSequence),
            3 => Some(Self::LongStopSequence),
            _ => None,
        }
    }

    pub fn from_u8(value: u8) -> (r: Option<Self>)
        ensures
            r == Self::of_code(value),
    {
        match value {
            0 => Some(Self::OnlyLongSequence),
            1 => Some(Self::LongStartSequence),
            2 => Some(Self::EightShortSequence),
            3 => Some(Self::LongStopSequence),
            _ => None,
        }
    }

    pub fn as_u8(self) -> (r: u8)
        ensures
            r == self.code(),
    {
        match self {
            Self::OnlyLongSequence => 0,
            Self::LongStartSequence => 1,
            Self::EightShortSequence => 2,
            Self::LongStopSequence => 3,
        }
    }

    /// Number of window transforms in this frame (1 for long/start/stop, 8 for short).
    pub fn num_windows(self) -> (r: usize)
        ensures
            r == (if self == Self::EightShortSequence { 8usize } else { 1usize }),
    {
        match self {
            Self::EightShortSequence => 8,
            _ => 1,
        }
    }

    /// Whether this sequence is eight short windows.
    pub fn is_eight_short(self) -> (r: bool)
        ensures
            r == (self == Self::EightShortSequence),
    {
        matches!(self, Self::EightShortSequence)
    }
}

/// `WindowSequence::from_u8` and `WindowSequence::as_u8` are inverse to each other.
pub proof fn law_window_sequence_codes(t: WindowSequence, value: u8)
    ensures
        WindowSequence::of_code(t.code()) == Some(t),
        WindowSequence::of_code(value) == Some(t) <==> t.code() == value,
{
}

/// Window shape selection: sine, Kaiser-Bessel derived (KBD) or low delay.
#[derive(Debug, Clone, Copy, PartialEq, Eq, Hash, Structural)]
pub enum WindowShape {
    Sine,
    Kbd,
    LowDelay,
}

impl Default for WindowShape {
    fn default() -> (r: Self)
        ensures
            r == Self::Sine,
    {
        Self::Sine
    }
}

impl WindowShape {
    /// The number that stands for the window shape in a bitstream.
    pub open spec fn code(self) -> u8 {
        match self {
            Self::Sine => 0,
            Self::Kbd => 1,
            Self::LowDelay => 2,
        }
    }

    /// The window shape that a number stands for, if there is one.
    pub open spec fn of_code(value: u8) -> Option<Self> {
        match value {
            0 => Some(Self::Sine),
            1 => Some(Self::Kbd),
            2 => Some(Self::LowDelay),
            _ => None,
        }
    }

    pub fn from_u8(value: u8) -> (r: Option<Self>)
        ensures
            r == Self::of_code(value),
    {
        match value {
            0 => Some(Self::Sine),
            1 => Some(Self::Kbd),
            2 => Some(Self::LowDelay),
            _ => None,
        }
    }

    pub fn as_u8(self) -> (r: u8)
        ensures
            r == self.code(),
    {
        match self {
            Self::Sine => 0,
            Self::Kbd => 1,
            Self::LowDelay => 2,
        }
    }
}

/// `WindowShape::from_u8` and `WindowShape::as_u8` are inverse to each other.
pub proof fn law_window_shape_codes(t: WindowShape, value: u8)
    ensures
        WindowShape::of_code(t.code()) == Some(t),
        WindowShape::of_code(value) == Some(t) <==> t.code() == value,
{
}

/// Frame length in samples per channel (1024, 960, 512, 480, 768).
#[derive(Debug, Clone, Copy, PartialEq, Eq, Hash, Structural)]
pub enum FrameLength {
    Samples1024,
    Samples960,
    Samples512,
    Samples480,
    Samples768,
}

impl FrameLength {
    /// Samples per channel in one frame.
    pub open spec fn long(self) -> usize {
        match self {
            Self::Samples1024 => 1024,
            Self::Samples960 => 960,
            Self::Samples512 => 512,
            Self::Samples480 => 480,
            Self::Samples768 => 768,
        }
    }

    pub fn samples(self) -> (r: usize)
        ensures
            r == self.long(),
    {
        match self {
            Self::Samples1024 => 1024,
            Self::Samples960 => 960,
            Self::Samples512 => 512,
            Self::Samples480 => 480,
            Self::Samples768 => 768,
        }
    }

    /// Samples per channel in one of the eight short windows.
    pub fn short_samples(self) -> (r: usize)
        ensures
            8 * r == self.long(),
    {
        match self {
            Self::Samples1024 => 128,
            Self::Samples960 => 120,
            Self::Samples512 => 64,
            Self::Samples480 => 60,
            Self::Samples768 => 96,
        }
    }
}

/// Audio container / transport stream format.
#[derive(Debug, Clone, Copy, PartialEq, Eq, Hash, Structural)]
pub enum BitstreamFormat {
    Raw,
    Adts,
    Adif,
    Latm,
}

/// The numbers of the object types.
pub proof fn law_object_type_numbers()
    ensures
        AudioObjectType::Null.code() == 0,
        AudioObjectType::AacMain.code() == 1,
        AudioObjectType::AacLc.code() == 2,
        AudioObjectType::AacSsr.code() == 3,
        AudioObjectType::AacLtp.code() == 4,
        AudioObjectType::Sbr.code() == 5,
        AudioObjectType::AacScalable.code() == 6,
        AudioObjectType::TwinVq.code() == 7,
        AudioObjectType::Celp.code() == 8,
        AudioObjectType::Hvxc.code() == 9,
        AudioObjectType::Ttsi.code() == 12,
        AudioObjectType::MainSynthetic.code() == 13,
        AudioObjectType::Wavetable.code() == 14,
        AudioObjectType::GeneralMidi.code() == 15,
        AudioObjectType::Algorithmic.code() == 16,
        AudioObjectType::ErAacLc.code() == 17,
        AudioObjectType::ErAacLtp.code() == 19,
        AudioObjectType::ErAacScalable.code() == 20,
        AudioObjectType::ErTwinVq.code() == 21,
        AudioObjectType::ErBsac.code() == 22,
        AudioObjectType::ErAacLd.code() == 23,
        AudioObjectType::ErCelp.code() == 24,
        AudioObjectType::ErHvxc.code() == 25,
        AudioObjectType::ErHiln.code() == 26,
        AudioObjectType::ErParametric.code() == 27,
        AudioObjectType::Ssc.code() == 28,
        AudioObjectType::Ps.code() == 29,
        AudioObjectType::MpegSurround.code() == 30,
        AudioObjectType::Layer1.code() == 32,
        AudioObjectType::Layer2.code() == 33,
        AudioObjectType::Layer3.code() == 34,
        AudioObjectType::Dst.code() == 35,
        AudioObjectType::Als.code() == 36,
        AudioObjectType::Sls.code() == 37,
        AudioObjectType::SlsNonCore.code() == 38,
        AudioObjectType::ErAacEld.code() == 39,
        AudioObjectType::SmrSimple.code() == 40,
        AudioObjectType::SmrMain.code() == 41,
        AudioObjectType::Usac.code() == 42,
        AudioObjectType::Saoc.code() == 43,
        AudioObjectType::LdMpegSurround.code() == 44,
        AudioObjectType::UsacDrc.code() == 45,
{
}

/// Every third rate of the table is half of the one three before it, down to
/// 8000 Hz; the last one is a third of 22050 Hz.
pub proof fn law_rates_halve(index: int)
    requires
        0 <= index < 9,
    ensures
        standard_hz(index) == 2 * standard_hz(index + 3),
        standard_hz(3) == 48_000,
        standard_hz(4) == 44_100,
        standard_hz(5) == 32_000,
        3 * standard_hz(12) == standard_hz(7),
{
}

/// Up to 5.1 a channel configuration is numbered by its channels; 7.1 has eight
/// in either form, 6.1 seven and 22.2 twenty-four.
pub proof fn law_channels_of_configurations(t: ChannelConfiguration)
    ensures
        t.code() <= 6 ==> t.channel_count() == t.code(),
        t is SevenPointOne ==> t.code() == 7 && t.channel_count() == 7 + 1,
        t is SixPointOne ==> t.code() == 11 && t.channel_count() == 6 + 1,
        t is SevenPointOneTop ==> t.code() == 12 && t.channel_count() == 7 + 1,
        t is TwentyTwoPointTwo ==> t.code() == 13 && t.channel_count() == 22 + 2,
        t is CustomPce ==> t.code() == 0,
        t is Mono ==> t.channel_count() == 1,
        t is Stereo ==> t.channel_count() == 2,
        t is ThreeChannel ==> t.channel_count() == 3,
        t is FourChannel ==> t.channel_count() == 4,
        t is FiveChannel ==> t.channel_count() == 5,
        t is FivePointOne ==> t.channel_count() == 5 + 1,
{
}

/// The numbers of the window sequences and shapes.
pub proof fn law_window_numbers(t: WindowSequence, shape: WindowShape)
    ensures
        t is OnlyLongSequence ==> t.code() == 0,
        t is LongStartSequence ==> t.code() == 1,
        t is EightShortSequence ==> t.code() == 2,
        t is LongStopSequence ==> t.code() == 3,
        shape is Sine ==> shape.code() == 0,
        shape is Kbd ==> shape.code() == 1,
        shape is LowDelay ==> shape.code() == 2,
{
}

} // verus!
