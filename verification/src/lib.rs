use vstd::prelude::*;

pub mod code_line_data;
pub mod comment_filter;
pub mod coupling;
pub mod file_stats;
pub mod flare;
pub mod git;
pub mod idlist;
pub mod indentation;
pub mod loc;
pub mod polyglot_data;
pub mod postprocessing;
pub mod git_logger;
pub mod git_file_future;
pub mod git_file_history;
pub mod git_user_dictionary;

verus! {

/// Which indicator families are enabled for a run; echoed into the output
/// document so a consumer knows which slots may be present.
#[derive(Debug, Clone, Copy, PartialEq, Eq, Structural)]
pub struct FeatureFlags {
    pub git: bool,
    pub coupling: bool,
    pub git_details: bool,
    pub file_stats: bool,
}

impl Default for FeatureFlags {
    fn default() -> (r: Self)
        ensures
            !r.git && !r.coupling && !r.git_details && !r.file_stats,
    {
        FeatureFlags { git: false, coupling: false, git_details: false, file_stats: false }
    }
}

/// General configuration for the scanner and its calculators.
pub struct ScannerConfig {
    pub git_years: Option<u64>,
    pub follow_symlinks: bool,
    pub name: String,
    pub data_id: Option<String>,
    pub features: FeatureFlags,
}

impl ScannerConfig {
    pub fn default(name: &str) -> (r: Self)
        ensures
            r.name@ == name@,
            r.git_years is None,
            !r.follow_symlinks,
            r.data_id is None,
            !r.features.git && !r.features.coupling && !r.features.git_details
                && !r.features.file_stats,
    {
        ScannerConfig {
            git_years: None,
            follow_symlinks: false,
            name: String::from_str(name),
            data_id: None,
            features: FeatureFlags::default(),
        }
    }
}

/// The calculators a run may enable, and whether the chosen set is allowed
/// under the feature flags: git-dependent passes need git enabled.
pub fn validate_calculators(use_git: bool, use_file_stats: bool, features: &FeatureFlags) -> (r:
    bool)
    ensures
        r == ((use_git ==> features.git) && (use_file_stats ==> features.file_stats)),
{
    if use_git && !features.git {
        return false;
    }
    if use_file_stats && !features.file_stats {
        return false;
    }
    true
}

} // verus!
