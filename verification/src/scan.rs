//! Scan-level pieces around the core: validation of the target path, the
//! derived volume strings, and the result record handed back to the caller.

use vstd::prelude::*;
use vstd::string::StrSliceExecFns;

use crate::errors::DiskAnalyzerError;
use crate::paths::is_volume_root_spec;
use crate::paths::volume_root_letter;
use crate::paths::drive_root;
use crate::paths::is_windows_volume_root;
use crate::paths::drive_letter_from_volume_root;
use crate::strutil::is_upper_of;
use crate::strutil::trim_end_bs;
use crate::strutil::trim_end_backslashes;
use crate::tree::FileNode;

verus! {

/// The complete result of a volume scan: the bounded tree, elapsed time,
/// the count of materialized nodes, the accumulated total size, an optional
/// warning, and the volume's capacity figures when the OS probe succeeded.
pub struct ScanResult {
    pub root: FileNode,
    pub scan_time_ms: u64,
    pub file_count: u64,
    pub total_size: u64,
    pub scan_warning: Option<String>,
    pub volume_total_bytes: Option<u64>,
    pub volume_free_bytes: Option<u64>,
}

/// The display form of a canonicalized volume root: trailing backslashes
/// trimmed, with `\` restored after a bare `X:`.
pub open spec fn volume_root_display_spec(p: Seq<char>) -> Seq<char> {
    let t = trim_end_bs(p);
    if t.len() > 0 && t[t.len() - 1] == ':' {
        t + seq!['\\']
    } else {
        t
    }
}

/// Check that a (canonicalized) target path names a volume root and
/// extract its uppercase drive letter; `InvalidPath` otherwise.
pub fn validate_volume_root(path: &str) -> (r: Result<char, DiskAnalyzerError>)
    ensures
        match r {
            Ok(d) => {
                &&& is_volume_root_spec(path@)
                &&& volume_root_letter(path@) matches Some(c) && is_upper_of(d, c)
            },
            Err(e) => !is_volume_root_spec(path@) && e is InvalidPath,
        },
{
    if !is_windows_volume_root(path) {
        return Err(DiskAnalyzerError::InvalidPath("not a volume root".to_owned()));
    }
    match drive_letter_from_volume_root(path) {
        Some(d) => Ok(d),
        None => {
            proof {
                assert(volume_root_letter(path@) is Some);
            }
            Err(
                DiskAnalyzerError::InvalidPath(
                    "cannot get drive letter from volume root".to_owned(),
                ),
            )
        },
    }
}

/// The display form of the volume root; see `volume_root_display_spec`.
pub fn volume_root_display(path: &str) -> (r: String)
    ensures
        r@ == volume_root_display_spec(path@),
{
    let t = trim_end_backslashes(path);
    let n = t.unicode_len();
    if n > 0 && t.get_char(n - 1) == ':' {
        let mut out = t.to_owned();
        out.push('\\');
        proof {
            assert(out@ =~= trim_end_bs(path@) + seq!['\\']);
        }
        out
    } else {
        t.to_owned()
    }
}

/// The raw device path `\\.\X:` opened for a drive letter.
pub fn volume_device_path(drive: char) -> (r: String)
    ensures
        r@ == seq!['\\', '\\', '.', '\\', drive, ':'],
{
    let mut out = String::new();
    out.push('\\');
    out.push('\\');
    out.push('.');
    out.push('\\');
    out.push(drive);
    out.push(':');
    proof {
        assert(out@ =~= seq!['\\', '\\', '.', '\\', drive, ':']);
    }
    out
}

/// The canonical root `X:\` of a drive letter, as an owned string.
pub fn drive_root_string(drive: char) -> (r: String)
    ensures
        r@ == drive_root(drive),
{
    let mut out = String::new();
    out.push(drive);
    out.push(':');
    out.push('\\');
    proof {
        assert(out@ =~= drive_root(drive));
    }
    out
}

} // verus!
