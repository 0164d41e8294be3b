//! The flat record model produced by MFT enumeration, and the small
//! per-record decisions of that phase: acceptance under the target volume,
//! timestamp conversion, and progress cadence.

use vstd::prelude::*;

use crate::paths::normalize_spec;
use crate::paths::path_under_spec;
use crate::paths::normalize_ntfs_path;
use crate::paths::path_under_volume_ascii;

verus! {

/// Recursion stops at this depth; deeper records become leaves.
pub const MAX_DEPTH: usize = 10;

/// At most this many children are emitted under any directory node.
pub const MAX_CHILDREN_PER_DIR: usize = 500;

/// A progress event is emitted every this many accepted records.
pub const PROGRESS_EVERY: u64 = 5000;

/// Default N for the top-N largest-files mode.
pub const TOP_FILES_DEFAULT_N: usize = 100;

/// The soft cap protecting the top-N buffer against pathological N.
pub const TOP_FILES_CAP_LIMIT: usize = 1000000;

/// One accepted MFT record: canonical absolute path, the record's own byte
/// size (not a subtree total), whether it is a directory, and the modified
/// time as positive seconds since the Unix epoch.
pub struct MftRecord {
    pub full_path: String,
    pub size: u64,
    pub is_dir: bool,
    pub modified: Option<u64>,
}

/// A raw modified timestamp is kept only when positive.
pub open spec fn modified_of(secs: Option<i64>) -> Option<u64> {
    match secs {
        Some(s) => if s > 0 {
            Some(s as u64)
        } else {
            None
        },
        None => None,
    }
}

/// A raw record path is accepted for drive `d` when its normal form lies
/// under the volume root `D:`.
pub open spec fn record_accepted(raw: Seq<char>, d: char) -> bool {
    path_under_spec(normalize_spec(raw, d), seq![d, ':'])
}

/// Convert a raw modified timestamp, keeping only positive seconds.
pub fn modified_from_timestamp(secs: Option<i64>) -> (r: Option<u64>)
    ensures
        r == modified_of(secs),
{
    match secs {
        Some(s) => if s > 0 {
            Some(s as u64)
        } else {
            None
        },
        None => None,
    }
}

/// The volume filter prefix `D:` for a drive letter.
pub fn drive_trim_string(drive: char) -> (r: String)
    ensures
        r@ == seq![drive, ':'],
{
    let mut out = String::new();
    out.push(drive);
    out.push(':');
    proof {
        assert(out@ =~= seq![drive, ':']);
    }
    out
}

/// Normalize one raw record path and apply the volume filter; `Some` exactly
/// when the record is accepted, carrying the canonical path and the
/// converted fields.
pub fn process_mft_record(
    raw_path: &str,
    drive: char,
    size: u64,
    is_dir: bool,
    modified_secs: Option<i64>,
) -> (r: Option<MftRecord>)
    ensures
        match r {
            Some(rec) => record_accepted(raw_path@, drive) && rec.full_path@ == normalize_spec(
                raw_path@,
                drive,
            ) && rec.size == size && rec.is_dir == is_dir && rec.modified == modified_of(
                modified_secs,
            ),
            None => !record_accepted(raw_path@, drive),
        },
{
    let full_path = normalize_ntfs_path(raw_path, drive);
    let vol_trim = drive_trim_string(drive);
    if !path_under_volume_ascii(full_path.as_str(), vol_trim.as_str()) {
        return None;
    }
    let modified = modified_from_timestamp(modified_secs);
    Some(MftRecord { full_path, size, is_dir, modified })
}

/// A progress event is due after `count` accepted records: at every positive
/// multiple of `PROGRESS_EVERY`.
pub fn should_emit_progress(count: u64) -> (r: bool)
    ensures
        r == (count > 0 && count % (PROGRESS_EVERY as u64) == 0),
{
    count > 0 && count % PROGRESS_EVERY == 0
}

/// The load percentage reported while the MFT is read: `100 * bytes / total`
/// capped at 100, and 0 when the total is unknown.
pub fn mft_load_percent(bytes: u64, total: u64) -> (r: u64)
    ensures
        total > 0 ==> r == vstd::math::min(100 * bytes as int / total as int, 100),
        total == 0 ==> r == 0,
{
    if total == 0 {
        return 0;
    }
    let p = (100u128 * bytes as u128) / total as u128;
    if p >= 100 {
        100
    } else {
        proof {
            assert(100 * bytes as int / total as int == p as int);
        }
        p as u64
    }
}

} // verus!
