//! Scan filters, reserved for the walking scanner: path patterns to
//! exclude and an optional depth limit.

use vstd::prelude::*;

verus! {

/// Filters applied to a scan; empty by default.
pub struct ScanFilters {
    pub exclude_patterns: Vec<String>,
    pub max_depth: Option<usize>,
}

impl Default for ScanFilters {
    /// No exclusions and no depth limit.
    fn default() -> (r: Self)
        ensures
            r.exclude_patterns@.len() == 0,
            r.max_depth is None,
    {
        ScanFilters { exclude_patterns: Vec::new(), max_depth: None }
    }
}

} // verus!
