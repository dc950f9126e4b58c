//! Parametric stereo encoding, which is not implemented.
//!
//! Real parameters are per hybrid band and per parameter set; a single
//! broadband pair cannot represent the stereo image the decoder expects. The
//! encoder refuses the work instead of returning stand-ins.

use crate::error::{Error, ErrorView, Result};
use vstd::prelude::*;

verus! {

/// Parameters one frame of parametric stereo carries.
///
/// `iid_indices` and `icc_indices` are per hybrid band, not scalars.
#[derive(Debug, Clone, PartialEq, Eq)]
pub struct PsFrameData {
    pub enable_iid: bool,
    pub enable_icc: bool,
    pub enable_ipd: bool,
    pub iid_indices: Vec<i8>,
    pub icc_indices: Vec<u8>,
}

impl Default for PsFrameData {
    fn default() -> (r: Self)
        ensures
            !r.enable_iid,
            !r.enable_icc,
            !r.enable_ipd,
            r.iid_indices@.len() == 0,
            r.icc_indices@.len() == 0,
    {
        PsFrameData {
            enable_iid: false,
            enable_icc: false,
            enable_ipd: false,
            iid_indices: Vec::new(),
            icc_indices: Vec::new(),
        }
    }
}

/// PS encoder instance.
#[derive(Debug, Clone, Copy, PartialEq, Eq, Structural)]
pub struct PsEncoder;

impl Default for PsEncoder {
    fn default() -> (r: Self)
        ensures
            r == PsEncoder,
    {
        PsEncoder
    }
}

impl PsEncoder {
    pub fn new() -> (r: Self)
        ensures
            r == PsEncoder,
    {
        PsEncoder
    }

    /// Extracts the parameters of a stereo pair: always refused, and the
    /// downmix is left as it was.
    pub fn encode_stereo<T>(
        &self,
        _left: &[T],
        _right: &[T],
        _mono_downmix: &mut [T],
    ) -> (r: Result<PsFrameData>)
        ensures
            final(_mono_downmix)@ == old(_mono_downmix)@,
            r matches Err(e) && e@ == (ErrorView::Unimplemented {
                tool: "Parametric Stereo encode"@,
                detail: "no hybrid-domain parameters are extracted"@,
            }),
    {
        Err(
            Error::Unimplemented {
                tool: "Parametric Stereo encode",
                detail: "no hybrid-domain parameters are extracted",
            },
        )
    }
}

} // verus!
