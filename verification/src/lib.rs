//! Verified core of a disk-cleanup planner: cleanup catalog models, scan
//! result summarisation, automation plans, command-line report rendering,
//! macOS process matching, launchd inspection and directory aggregation.
use vstd::prelude::*;

pub mod text;
pub mod paths;
pub mod names;
pub mod platform;
pub mod models;
pub mod plan;
pub mod scan;
pub mod scan_measure;
pub mod scan_result;
pub mod application_icons;
pub mod report;
pub mod process_control;
pub mod cleaners;
pub mod artifact_protection;
pub mod launchd;
pub mod directory_aggregate;

verus! {
} // verus!
