//! The scan error taxonomy.  Every kind aborts the scan and surfaces to the
//! caller; no partial result is returned on failure.

use vstd::prelude::*;

verus! {

/// Why a scan failed: the target is not a usable volume root, the raw
/// volume open was denied for privilege reasons, some other I/O failure,
/// or a structural failure reported by the MFT parser.
#[derive(Debug)]
pub enum DiskAnalyzerError {
    InvalidPath(String),
    ElevationRequired(String),
    Io(String),
    Parse(String),
}

/// The human-readable detail carried by an error.
pub open spec fn error_detail(e: DiskAnalyzerError) -> Seq<char> {
    match e {
        DiskAnalyzerError::InvalidPath(s) => s@,
        DiskAnalyzerError::ElevationRequired(s) => s@,
        DiskAnalyzerError::Io(s) => s@,
        DiskAnalyzerError::Parse(s) => s@,
    }
}

impl DiskAnalyzerError {
    /// The detail string for display by the caller.
    pub fn message(&self) -> (r: &String)
        ensures
            r@ == error_detail(*self),
    {
        match self {
            DiskAnalyzerError::InvalidPath(s) => s,
            DiskAnalyzerError::ElevationRequired(s) => s,
            DiskAnalyzerError::Io(s) => s,
            DiskAnalyzerError::Parse(s) => s,
        }
    }
}

} // verus!
