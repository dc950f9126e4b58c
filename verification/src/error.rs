//! Structured error hierarchy.
//!
//! Strongly typed errors for bitstream demuxing, decoding, encoding, DSP
//! transforms and container parsing. Each type has a mathematical view in
//! which every text is a sequence of characters; contracts speak of errors
//! through that view.

use vstd::prelude::*;

verus! {

/// Root error type for all operations within this crate.
#[derive(Debug)]
pub enum Error {
    /// Bitstream parsing and extraction errors.
    Bitstream(BitstreamError),
    /// Audio decoding pipeline errors.
    Decode(DecodeError),
    /// Audio encoding pipeline errors.
    Encode(EncodeError),
    /// Container / format parsing errors.
    Format(FormatError),
    /// DSP mathematical or transform errors.
    Dsp(DspError),
    /// A codec tool that is not implemented.
    ///
    /// This is deliberately a hard error rather than a silent approximation:
    /// a wrong answer that looks right is the worst failure mode a codec has,
    /// so a tool that does not exist refuses the work instead of fabricating
    /// output.
    Unimplemented {
        /// The tool the caller asked for, e.g. "MPEG Surround decode".
        tool: &'static str,
        /// What is missing.
        detail: &'static str,
    },
}

/// Errors occurring during bitstream bit-level extraction and writing.
#[derive(Debug, Clone, Copy, PartialEq, Eq, Structural)]
pub enum BitstreamError {
    /// The stream ended inside a field.
    UnexpectedEof { needed_bits: usize, available_bits: usize },
    /// A syncword did not match.
    InvalidSyncword { expected: u16, found: u16 },
    /// A CRC-16 did not match.
    CrcMismatch { expected: u16, calculated: u16 },
    /// More bits were asked for than one read can return.
    InvalidBitCount(usize),
    /// The stream is not byte aligned where it has to be.
    UnalignedAccess,
}

/// Errors occurring during AAC, SBR, PS, USAC, or DRC decoding.
#[derive(Debug, Clone, PartialEq, Eq)]
pub enum DecodeError {
    InvalidAudioObjectType(u8),
    UnsupportedAudioObjectType(String),
    InvalidSamplingFrequencyIndex(u8),
    InvalidChannelConfiguration(u8),
    HuffmanDecodeError { codebook: u8, bits: u32 },
    ScalefactorOutOfRange(i32),
    InvalidMaxSfb { max_sfb: u8, num_swb: u8 },
    InvalidSectionLength,
    InvalidTnsOrder(u8),
    InvalidWindowTransition { previous: String, current: String },
    TnsOrderExceeded { order: usize, max_order: usize },
    SbrError(String),
    PsError(String),
    MpsError(String),
    UsacError(String),
    DrcError(String),
    CorruptedFrame(String),
}

/// Errors occurring during audio encoding.
#[derive(Debug, Clone, PartialEq, Eq)]
pub enum EncodeError {
    UnsupportedSampleRate(u32),
    UnsupportedChannels(usize),
    BitrateOutOfRange { bitrate: u32, min_bitrate: u32, max_bitrate: u32 },
    InvalidInputSize { provided: usize, required: usize },
    QuantizerConvergenceFailure,
    InvalidConfig(String),
}

/// Errors occurring during container and framing parsing (ADTS, ADIF, LATM).
#[derive(Debug, Clone, PartialEq, Eq)]
pub enum FormatError {
    InvalidAdts(String),
    InvalidAdif(String),
    InvalidLatm(String),
    InvalidAsc(String),
    InvalidPce(String),
    UnrecognizedContainer,
    InvalidUsacContainer(String),
}

/// Errors occurring in DSP transforms or filterbanks.
#[derive(Debug, Clone, PartialEq, Eq)]
pub enum DspError {
    InvalidTransformLength(usize),
    BufferLengthMismatch { expected: usize, actual: usize },
    FilterbankError(String),
}

/// Result alias for the operations of this crate.
pub type Result<T> = std::result::Result<T, Error>;

/// What an [`Error`] says.
pub enum ErrorView {
    Bitstream(BitstreamError),
    Decode(DecodeErrorView),
    Encode(EncodeErrorView),
    Format(FormatErrorView),
    Dsp(DspErrorView),
    Unimplemented { tool: Seq<char>, detail: Seq<char> },
}

/// What a [`DecodeError`] says.
pub enum DecodeErrorView {
    InvalidAudioObjectType(u8),
    UnsupportedAudioObjectType(Seq<char>),
    InvalidSamplingFrequencyIndex(u8),
    InvalidChannelConfiguration(u8),
    HuffmanDecodeError { codebook: u8, bits: u32 },
    ScalefactorOutOfRange(i32),
    InvalidMaxSfb { max_sfb: u8, num_swb: u8 },
    InvalidSectionLength,
    InvalidTnsOrder(u8),
    InvalidWindowTransition { previous: Seq<char>, current: Seq<char> },
    TnsOrderExceeded { order: usize, max_order: usize },
    SbrError(Seq<char>),
    PsError(Seq<char>),
    MpsError(Seq<char>),
    UsacError(Seq<char>),
    DrcError(Seq<char>),
    CorruptedFrame(Seq<char>),
}

/// What an [`EncodeError`] says.
pub enum EncodeErrorView {
    UnsupportedSampleRate(u32),
    UnsupportedChannels(usize),
    BitrateOutOfRange { bitrate: u32, min_bitrate: u32, max_bitrate: u32 },
    InvalidInputSize { provided: usize, required: usize },
    QuantizerConvergenceFailure,
    InvalidConfig(Seq<char>),
}

/// What a [`FormatError`] says.
pub enum FormatErrorView {
    InvalidAdts(Seq<char>),
    InvalidAdif(Seq<char>),
    InvalidLatm(Seq<char>),
    InvalidAsc(Seq<char>),
    InvalidPce(Seq<char>),
    UnrecognizedContainer,
    InvalidUsacContainer(Seq<char>),
}

/// What a [`DspError`] says.
pub enum DspErrorView {
    InvalidTransformLength(usize),
    BufferLengthMismatch { expected: usize, actual: usize },
    FilterbankError(Seq<char>),
}

impl View for DecodeError {
    type V = DecodeErrorView;

    open spec fn view(&self) -> DecodeErrorView {
        match self {
            Self::InvalidAudioObjectType(x) => DecodeErrorView::InvalidAudioObjectType(*x),
            Self::UnsupportedAudioObjectType(s) => DecodeErrorView::UnsupportedAudioObjectType(s@),
            Self::InvalidSamplingFrequencyIndex(x) => {
                DecodeErrorView::InvalidSamplingFrequencyIndex(*x)
            },
            Self::InvalidChannelConfiguration(x) => DecodeErrorView::InvalidChannelConfiguration(
                *x,
            ),
            Self::HuffmanDecodeError { codebook, bits } => DecodeErrorView::HuffmanDecodeError {
                codebook: *codebook,
                bits: *bits,
            },
            Self::ScalefactorOutOfRange(x) => DecodeErrorView::ScalefactorOutOfRange(*x),
            Self::InvalidMaxSfb { max_sfb, num_swb } => DecodeErrorView::InvalidMaxSfb {
                max_sfb: *max_sfb,
                num_swb: *num_swb,
            },
            Self::InvalidSectionLength => DecodeErrorView::InvalidSectionLength,
            Self::InvalidTnsOrder(x) => DecodeErrorView::InvalidTnsOrder(*x),
            Self::InvalidWindowTransition { previous, current } => {
                DecodeErrorView::InvalidWindowTransition { previous: previous@, current: current@ }
            },
            Self::TnsOrderExceeded { order, max_order } => DecodeErrorView::TnsOrderExceeded {
                order: *order,
                max_order: *max_order,
            },
            Self::SbrError(s) => DecodeErrorView::SbrError(s@),
            Self::PsError(s) => DecodeErrorView::PsError(s@),
            Self::MpsError(s) => DecodeErrorView::MpsError(s@),
            Self::UsacError(s) => DecodeErrorView::UsacError(s@),
            Self::DrcError(s) => DecodeErrorView::DrcError(s@),
            Self::CorruptedFrame(s) => DecodeErrorView::CorruptedFrame(s@),
        }
    }
}

impl View for EncodeError {
    type V = EncodeErrorView;

    open spec fn view(&self) -> EncodeErrorView {
        match self {
            Self::UnsupportedSampleRate(x) => EncodeErrorView::UnsupportedSampleRate(*x),
            Self::UnsupportedChannels(x) => EncodeErrorView::UnsupportedChannels(*x),
            Self::BitrateOutOfRange { bitrate, min_bitrate, max_bitrate } => {
                EncodeErrorView::BitrateOutOfRange {
                    bitrate: *bitrate,
                    min_bitrate: *min_bitrate,
                    max_bitrate: *max_bitrate,
                }
            },
            Self::InvalidInputSize { provided, required } => EncodeErrorView::InvalidInputSize {
                provided: *provided,
                required: *required,
            },
            Self::QuantizerConvergenceFailure => EncodeErrorView::QuantizerConvergenceFailure,
            Self::InvalidConfig(s) => EncodeErrorView::InvalidConfig(s@),
        }
    }
}

impl View for FormatError {
    type V = FormatErrorView;

    open spec fn view(&self) -> FormatErrorView {
        match self {
            Self::InvalidAdts(s) => FormatErrorView::InvalidAdts(s@),
            Self::InvalidAdif(s) => FormatErrorView::InvalidAdif(s@),
            Self::InvalidLatm(s) => FormatErrorView::InvalidLatm(s@),
            Self::InvalidAsc(s) => FormatErrorView::InvalidAsc(s@),
            Self::InvalidPce(s) => FormatErrorView::InvalidPce(s@),
            Self::UnrecognizedContainer => FormatErrorView::UnrecognizedContainer,
            Self::InvalidUsacContainer(s) => FormatErrorView::InvalidUsacContainer(s@),
        }
    }
}

impl View for DspError {
    type V = DspErrorView;

    open spec fn view(&self) -> DspErrorView {
        match self {
            Self::InvalidTransformLength(x) => DspErrorView::InvalidTransformLength(*x),
            Self::BufferLengthMismatch { expected, actual } => DspErrorView::BufferLengthMismatch {
                expected: *expected,
                actual: *actual,
            },
            Self::FilterbankError(s) => DspErrorView::FilterbankError(s@),
        }
    }
}

impl View for Error {
    type V = ErrorView;

    open spec fn view(&self) -> ErrorView {
        match self {
            Self::Bitstream(e) => ErrorView::Bitstream(*e),
            Self::Decode(e) => ErrorView::Decode(e@),
            Self::Encode(e) => ErrorView::Encode(e@),
            Self::Format(e) => ErrorView::Format(e@),
            Self::Dsp(e) => ErrorView::Dsp(e@),
            Self::Unimplemented { tool, detail } => ErrorView::Unimplemented {
                tool: tool@,
                detail: detail@,
            },
        }
    }
}

/// What a fallible operation came to, with its error as a view.
pub open spec fn outcome<T>(r: Result<T>) -> std::result::Result<T, ErrorView> {
    match r {
        Ok(v) => Ok(v),
        Err(e) => Err(e@),
    }
}

/// What a fallible operation came to, with its value and its error as views.
pub open spec fn outcome_view<T: View>(r: Result<T>) -> std::result::Result<T::V, ErrorView> {
    match r {
        Ok(v) => Ok(v@),
        Err(e) => Err(e@),
    }
}

impl From<BitstreamError> for Error {
    fn from(e: BitstreamError) -> Self {
        Error::Bitstream(e)
    }
}

impl vstd::std_specs::convert::FromSpecImpl<BitstreamError> for Error {
    open spec fn obeys_from_spec() -> bool {
        true
    }

    open spec fn from_spec(e: BitstreamError) -> Self {
        Error::Bitstream(e)
    }
}

impl From<DecodeError> for Error {
    fn from(e: DecodeError) -> Self {
        Error::Decode(e)
    }
}

impl vstd::std_specs::convert::FromSpecImpl<DecodeError> for Error {
    open spec fn obeys_from_spec() -> bool {
        true
    }

    open spec fn from_spec(e: DecodeError) -> Self {
        Error::Decode(e)
    }
}

impl From<EncodeError> for Error {
    fn from(e: EncodeError) -> Self {
        Error::Encode(e)
    }
}

impl vstd::std_specs::convert::FromSpecImpl<EncodeError> for Error {
    open spec fn obeys_from_spec() -> bool {
        true
    }

    open spec fn from_spec(e: EncodeError) -> Self {
        Error::Encode(e)
    }
}

impl From<FormatError> for Error {
    fn from(e: FormatError) -> Self {
        Error::Format(e)
    }
}

impl vstd::std_specs::convert::FromSpecImpl<FormatError> for Error {
    open spec fn obeys_from_spec() -> bool {
        true
    }

    open spec fn from_spec(e: FormatError) -> Self {
        Error::Format(e)
    }
}

impl From<DspError> for Error {
    fn from(e: DspError) -> Self {
        Error::Dsp(e)
    }
}

impl vstd::std_specs::convert::FromSpecImpl<DspError> for Error {
    open spec fn obeys_from_spec() -> bool {
        true
    }

    open spec fn from_spec(e: DspError) -> Self {
        Error::Dsp(e)
    }
}

} // verus!
