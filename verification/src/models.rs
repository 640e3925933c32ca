//! The cleanup domain vocabulary shared by scanning, planning and execution.
use vstd::prelude::*;

use crate::text::str_equal;

verus! {

/// Public risk presented to users: a rule is either safe to clean without
/// review or recoverable data that needs confirmation.
#[derive(Debug, Clone, Copy, PartialEq, Eq, Structural)]
pub enum RiskLevel {
    Safe,
    Recoverable,
}

/// Contributor-facing ownership category of a cleanup rule.
#[derive(Debug, Clone, Copy, PartialEq, Eq, Structural)]
pub enum CleanupCategory {
    Custom,
    System,
    Browser,
    Application,
    Development,
    Project,
    Xcode,
    ApplicationOptimization,
    Ai,
    Container,
}

/// Product-facing result groups remain separate from rule ownership.
///
/// A browser or development rule can still own its domain behavior while its
/// rebuildable macOS cache is presented together with other user caches.
#[derive(Debug, Clone, Copy, PartialEq, Eq, Structural)]
pub enum CleanupGroup {
    Custom,
    System,
    UserCache,
    Browser,
    Application,
    Development,
    Project,
    Xcode,
    ApplicationOptimization,
    Ai,
    Container,
}

/// The group a category maps to when no root-based override applies.
pub open spec fn category_group(category: CleanupCategory) -> CleanupGroup {
    match category {
        CleanupCategory::Custom => CleanupGroup::Custom,
        CleanupCategory::System => CleanupGroup::System,
        CleanupCategory::Browser => CleanupGroup::Browser,
        CleanupCategory::Application => CleanupGroup::Application,
        CleanupCategory::Development => CleanupGroup::Development,
        CleanupCategory::Project => CleanupGroup::Project,
        CleanupCategory::Xcode => CleanupGroup::Xcode,
        CleanupCategory::ApplicationOptimization => CleanupGroup::ApplicationOptimization,
        CleanupCategory::Ai => CleanupGroup::Ai,
        CleanupCategory::Container => CleanupGroup::Container,
    }
}

impl From<CleanupCategory> for CleanupGroup {
    fn from(category: CleanupCategory) -> (group: Self) {
        match category {
            CleanupCategory::Custom => CleanupGroup::Custom,
            CleanupCategory::System => CleanupGroup::System,
            CleanupCategory::Browser => CleanupGroup::Browser,
            CleanupCategory::Application => CleanupGroup::Application,
            CleanupCategory::Development => CleanupGroup::Development,
            CleanupCategory::Project => CleanupGroup::Project,
            CleanupCategory::Xcode => CleanupGroup::Xcode,
            CleanupCategory::ApplicationOptimization => CleanupGroup::ApplicationOptimization,
            CleanupCategory::Ai => CleanupGroup::Ai,
            CleanupCategory::Container => CleanupGroup::Container,
        }
    }
}

impl vstd::std_specs::convert::FromSpecImpl<CleanupCategory> for CleanupGroup {
    open spec fn obeys_from_spec() -> bool {
        true
    }

    open spec fn from_spec(category: CleanupCategory) -> CleanupGroup {
        category_group(category)
    }
}

impl CleanupGroup {
    /// The camel-case wire name of a result group.
    pub open spec fn wire_name(self) -> Seq<char> {
        match self {
            CleanupGroup::Custom => "custom"@,
            CleanupGroup::System => "system"@,
            CleanupGroup::UserCache => "userCache"@,
            CleanupGroup::Browser => "browser"@,
            CleanupGroup::Application => "application"@,
            CleanupGroup::Development => "development"@,
            CleanupGroup::Project => "project"@,
            CleanupGroup::Xcode => "xcode"@,
            CleanupGroup::ApplicationOptimization => "applicationOptimization"@,
            CleanupGroup::Ai => "ai"@,
            CleanupGroup::Container => "container"@,
        }
    }

    pub fn as_str(self) -> (name: &'static str)
        ensures
            name@ == self.wire_name(),
    {
        match self {
            CleanupGroup::Custom => "custom",
            CleanupGroup::System => "system",
            CleanupGroup::UserCache => "userCache",
            CleanupGroup::Browser => "browser",
            CleanupGroup::Application => "application",
            CleanupGroup::Development => "development",
            CleanupGroup::Project => "project",
            CleanupGroup::Xcode => "xcode",
            CleanupGroup::ApplicationOptimization => "applicationOptimization",
            CleanupGroup::Ai => "ai",
            CleanupGroup::Container => "container",
        }
    }
}

impl CleanupCategory {
    /// The camel-case wire name of a rule category.
    pub open spec fn wire_name(self) -> Seq<char> {
        match self {
            CleanupCategory::Custom => "custom"@,
            CleanupCategory::System => "system"@,
            CleanupCategory::Browser => "browser"@,
            CleanupCategory::Application => "application"@,
            CleanupCategory::Development => "development"@,
            CleanupCategory::Project => "project"@,
            CleanupCategory::Xcode => "xcode"@,
            CleanupCategory::ApplicationOptimization => "applicationOptimization"@,
            CleanupCategory::Ai => "ai"@,
            CleanupCategory::Container => "container"@,
        }
    }

    pub fn as_str(self) -> (name: &'static str)
        ensures
            name@ == self.wire_name(),
    {
        match self {
            CleanupCategory::Custom => "custom",
            CleanupCategory::System => "system",
            CleanupCategory::Browser => "browser",
            CleanupCategory::Application => "application",
            CleanupCategory::Development => "development",
            CleanupCategory::Project => "project",
            CleanupCategory::Xcode => "xcode",
            CleanupCategory::ApplicationOptimization => "applicationOptimization",
            CleanupCategory::Ai => "ai",
            CleanupCategory::Container => "container",
        }
    }

    /// Every category, in declaration order.
    pub open spec fn all() -> Seq<CleanupCategory> {
        seq![
            CleanupCategory::Custom,
            CleanupCategory::System,
            CleanupCategory::Browser,
            CleanupCategory::Application,
            CleanupCategory::Development,
            CleanupCategory::Project,
            CleanupCategory::Xcode,
            CleanupCategory::ApplicationOptimization,
            CleanupCategory::Ai,
            CleanupCategory::Container,
        ]
    }

    /// Parses a wire name; any other text is rejected with a message naming it.
    pub fn try_from(value: &str) -> (parsed: Result<CleanupCategory, String>)
        ensures
            match parsed {
                Ok(category) => category.wire_name() == value@,
                Err(message) => (forall|c: CleanupCategory| c.wire_name() != value@)
                    && message@ == "unsupported cleanup category: "@ + value@,
            },
    {
        if str_equal(value, "custom") {
            return Ok(CleanupCategory::Custom);
        }
        if str_equal(value, "system") {
            return Ok(CleanupCategory::System);
        }
        if str_equal(value, "browser") {
            return Ok(CleanupCategory::Browser);
        }
        if str_equal(value, "application") {
            return Ok(CleanupCategory::Application);
        }
        if str_equal(value, "development") {
            return Ok(CleanupCategory::Development);
        }
        if str_equal(value, "project") {
            return Ok(CleanupCategory::Project);
        }
        if str_equal(value, "xcode") {
            return Ok(CleanupCategory::Xcode);
        }
        if str_equal(value, "applicationOptimization") {
            return Ok(CleanupCategory::ApplicationOptimization);
        }
        if str_equal(value, "ai") {
            return Ok(CleanupCategory::Ai);
        }
        if str_equal(value, "container") {
            return Ok(CleanupCategory::Container);
        }
        let mut message = String::new();
        crate::text::push_str(&mut message, "unsupported cleanup category: ");
        crate::text::push_str(&mut message, value);
        assert forall|c: CleanupCategory| c.wire_name() != value@ by {
            match c {
                _ => {},
            }
        }
        Err(message)
    }
}

/// Distinct categories have distinct wire names, so a category's wire name
/// parses back to that category.
pub proof fn law_category_wire_names_round_trip(a: CleanupCategory, b: CleanupCategory)
    ensures
        a.wire_name() == b.wire_name() ==> a == b,
{
    reveal_strlit("custom");
    reveal_strlit("system");
    reveal_strlit("browser");
    reveal_strlit("application");
    reveal_strlit("development");
    reveal_strlit("project");
    reveal_strlit("xcode");
    reveal_strlit("applicationOptimization");
    reveal_strlit("ai");
    reveal_strlit("container");
    if a.wire_name() == b.wire_name() {
        let (x, y) = (a.wire_name(), b.wire_name());
        assert(x.len() == y.len());
        assert(x[0] == y[0]);
        if x.len() > 2 {
            assert(x[1] == y[1] && x[2] == y[2]);
        }
        if x.len() > 11 {
            assert(x[11] == y[11]);
        }
    }
}

pub const CUSTOM_CLEANUP_RULE_SCHEMA_VERSION: u32 = 1;

/// User-authored filename rules supplied by an adapter for one scan and cleanup
/// session. Every field is validated and every root resolved again before it
/// can enter the trusted cleanup plan.
#[derive(Debug, Clone)]
pub struct CustomCleanupRule {
    pub schema_version: u32,
    pub id: String,
    pub name: String,
    pub roots: Vec<String>,
    pub name_patterns: Vec<String>,
    pub minimum_bytes: Option<u64>,
    pub maximum_bytes: Option<u64>,
    pub modified_time: CustomCleanupModifiedTime,
    pub recursive: bool,
    pub remove_empty_directories: bool,
}

#[derive(Debug, Clone, Copy, PartialEq, Eq, Structural)]
pub enum CustomCleanupModifiedTime {
    Any,
    OlderThan { days: u64 },
    NewerThan { days: u64 },
}

/// Distinguishes an inspected clean rule from a rule that could not be inspected.
#[derive(Debug, Clone, Copy, PartialEq, Eq, Structural)]
pub enum ScanItemStatus {
    Found,
    Clean,
    NotApplicable,
    RequiresClose,
    /// Visible for inspection but never part of a cleanup request.
    ReviewOnly,
    Limited,
    /// The target exists, but measuring or changing it needs elevation.
    RequiresElevation,
}

/// One measured source location of a rule. `bytes` is a logical estimate.
#[derive(Debug, Clone)]
pub struct CleanupSourceDetail {
    pub path: String,
    pub bytes: u64,
    pub file_count: u64,
    /// Latest modification time among content matched under this source.
    pub modified_at_ms: Option<u64>,
    /// Why a discovered source cannot be processed immediately.
    pub block_reason: Option<CleanupSourceBlockReason>,
}

/// Native application-icon source associated with a running process identity.
#[derive(Debug, Clone, PartialEq, Eq)]
pub struct CleanupApplicationIcon {
    pub process_name: String,
    pub icon_path: String,
}

#[derive(Debug, Clone, Copy, PartialEq, Eq, Structural)]
pub enum CleanupSourceBlockReason {
    RequiresClose,
    /// Some entries could not be measured without crossing an access or
    /// filesystem safety boundary.
    IncompleteMeasurement,
}

/// The measured state of one cleanup rule in a scan snapshot.
#[derive(Debug, Clone)]
pub struct ScanRuleResult {
    pub rule_id: String,
    pub category: CleanupCategory,
    /// Stable product grouping used by result presenters.
    pub group: CleanupGroup,
    pub risk: RiskLevel,
    pub default_selected: bool,
    /// Shared recommendation kept separate from automatic selection.
    pub recommended_selected: bool,
    pub bytes: u64,
    pub file_count: u64,
    pub available: bool,
    pub selectable: bool,
    pub status: ScanItemStatus,
    pub running_processes: Vec<String>,
    pub requires_app_close: bool,
    /// Largest matched source locations, bounded.
    pub sources: Vec<CleanupSourceDetail>,
    pub source_count: u64,
    pub sources_truncated: bool,
    /// Wall-clock time spent measuring this rule (diagnostic only).
    pub scan_elapsed_ms: u64,
}

/// Capacity description of the volume a scan ran on.
#[derive(Debug, Clone)]
pub struct DiskInfo {
    pub name: String,
    pub mount_point: String,
    pub total_bytes: u64,
    pub available_bytes: u64,
    pub used_bytes: u64,
}

/// A complete scan snapshot.
#[derive(Debug, Clone)]
pub struct CleanupScanResult {
    pub schema_version: String,
    /// Authorization for the exact custom rule set that produced this result.
    pub custom_scan_id: Option<u64>,
    /// Missing saved roots skipped during preparation.
    pub missing_custom_root_count: u64,
    pub scanned_at_ms: u64,
    pub disk: DiskInfo,
    pub rules: Vec<ScanRuleResult>,
    pub application_icons: Vec<CleanupApplicationIcon>,
    /// Skipped or capability-limited item counts per rule, ordered by rule ID.
    pub warning_counts_by_rule: Vec<(String, u64)>,
    pub warning_count: u64,
    pub safe_bytes: u64,
    /// Logical bytes of selectable results, not a physical-volume measurement.
    pub reclaimable_bytes: u64,
    pub applicability_elapsed_ms: u64,
    pub applicable_rule_count: u64,
    pub filtered_rule_count: u64,
    pub inventory_application_count: u64,
    pub inventory_process_count: u64,
    pub elapsed_ms: u64,
}

/// Stable engine diagnostics recorded by baseline reports.
#[derive(Debug, Clone)]
pub struct CleanupScanEngineInfo {
    pub strategy: &'static str,
    pub rule_catalog_mode: &'static str,
    pub configured_worker_limit: usize,
    /// Whether derived scan results are persisted between process lifetimes.
    pub scan_result_persistence_enabled: bool,
    pub single_pass_rule_matching: bool,
    pub incremental_scan_enabled: bool,
}

/// A request to clean the named rules, optionally as a dry run.
#[derive(Debug, Clone)]
pub struct CleanupRequest {
    pub rule_ids: Vec<String>,
    pub dry_run: bool,
    pub project_roots: Vec<String>,
    /// Optional source-level overrides for selected rules.
    pub source_selections: Vec<CleanupSourceSelection>,
}

/// How running applications are asked to quit before cleanup.
#[derive(Debug, Clone, Copy, PartialEq, Eq, Structural)]
pub enum ApplicationCloseMode {
    Graceful,
    Force,
}

#[derive(Debug, Clone)]
pub struct CleanupApplicationCloseRequest {
    pub rule_ids: Vec<String>,
    pub mode: ApplicationCloseMode,
}

/// Stable product-level stages for cleanup execution.
#[derive(Debug, Clone, Copy, PartialEq, Eq, Structural)]
pub enum CleanupExecutionStage {
    Validating,
    Cleaning,
    Finalizing,
}

/// A completed rule summary retained in later execution snapshots.
#[derive(Debug, Clone)]
pub struct CleanupExecutionRuleResult {
    pub rule_id: String,
    pub status: CleanupActionStatus,
    pub affected_item_count: u64,
    pub released_bytes: u64,
}

/// A throttled progress snapshot emitted during cleanup execution.
#[derive(Debug, Clone)]
pub struct CleanupExecutionProgress {
    pub stage: CleanupExecutionStage,
    /// Rule queue in the exact order used by the execution pipeline.
    pub planned_rule_ids: Vec<String>,
    pub current_rule_id: Option<String>,
    pub current_item_path: Option<String>,
    pub current_rule_affected_item_count: u64,
    pub current_rule_released_bytes: u64,
    pub completed_rule_results: Vec<CleanupExecutionRuleResult>,
    pub validated_rule_count: u64,
    pub completed_rule_count: u64,
    pub total_rule_count: u64,
    pub checked_item_count: u64,
    pub checked_bytes: u64,
    pub affected_item_count: u64,
    pub released_bytes: u64,
    pub elapsed_ms: u64,
}

#[derive(Debug, Clone, Copy, PartialEq, Eq, Structural)]
pub enum CleanupSourceSelectionMode {
    Include,
    Exclude,
}

#[derive(Debug, Clone)]
pub struct CleanupSourceSelection {
    pub rule_id: String,
    pub mode: CleanupSourceSelectionMode,
    pub paths: Vec<String>,
}

pub const CLEANUP_PLAN_SCHEMA_VERSION: u32 = 1;

pub const CLEANUP_AUTOMATION_PROFILE_SCHEMA_VERSION: u32 = 1;

/// Versioned limits for unattended cleanup planning.
///
/// Profiles never promote recoverable or non-default rules. They only reduce
/// the low-risk default set selected by the same scan used interactively.
#[derive(Debug, Clone)]
pub struct CleanupAutomationProfile {
    pub schema_version: u32,
    pub max_rule_count: usize,
    pub max_reclaimable_bytes: Option<u64>,
    pub excluded_rule_ids: Vec<String>,
}

impl Default for CleanupAutomationProfile {
    fn default() -> (profile: Self)
        ensures
            profile.schema_version == CLEANUP_AUTOMATION_PROFILE_SCHEMA_VERSION,
            profile.max_rule_count == 100,
            profile.max_reclaimable_bytes.is_none(),
            profile.excluded_rule_ids@.len() == 0,
    {
        CleanupAutomationProfile {
            schema_version: CLEANUP_AUTOMATION_PROFILE_SCHEMA_VERSION,
            max_rule_count: 100,
            max_reclaimable_bytes: None,
            excluded_rule_ids: Vec::new(),
        }
    }
}

/// An integrity-protected list of rules chosen for unattended cleanup.
#[derive(Debug, Clone)]
pub struct CleanupPlan {
    pub schema_version: u32,
    pub plan_id: String,
    pub plan_hash: String,
    pub created_at_ms: u64,
    pub source_scan_at_ms: u64,
    pub source_scan_schema_version: String,
    pub rule_ids: Vec<String>,
    pub expected_bytes: u64,
    pub profile: CleanupAutomationProfile,
}

#[derive(Debug, Clone, Copy, PartialEq, Eq, Structural)]
pub enum CleanupActionReason {
    Cancelled,
    RunningProcesses,
    ItemsSkipped,
    RequiredToolUnavailable,
    PreflightFailed,
    ExecutionFailed,
    VerificationFailed,
    CleanerUnavailable,
}

#[derive(Debug, Clone, Copy, PartialEq, Eq, Structural)]
pub enum CleanupActionKind {
    Delete,
    Command,
    Optimize,
}

#[derive(Debug, Clone, Copy, PartialEq, Eq, Structural)]
pub enum CleanupActionStatus {
    Blocked,
    Previewed,
    Completed,
    Partial,
    Failed,
}

impl CleanupActionStatus {
    pub open spec fn wire_name(self) -> Seq<char> {
        match self {
            CleanupActionStatus::Blocked => "blocked"@,
            CleanupActionStatus::Previewed => "previewed"@,
            CleanupActionStatus::Completed => "completed"@,
            CleanupActionStatus::Partial => "partial"@,
            CleanupActionStatus::Failed => "failed"@,
        }
    }

    pub fn as_str(self) -> (name: &'static str)
        ensures
            name@ == self.wire_name(),
    {
        match self {
            CleanupActionStatus::Blocked => "blocked",
            CleanupActionStatus::Previewed => "previewed",
            CleanupActionStatus::Completed => "completed",
            CleanupActionStatus::Partial => "partial",
            CleanupActionStatus::Failed => "failed",
        }
    }
}

/// The outcome of one rule's cleanup action.
#[derive(Debug, Clone)]
pub struct CleanupActionResult {
    pub rule_id: String,
    pub action_kind: CleanupActionKind,
    pub status: CleanupActionStatus,
    /// Stable diagnostic reason rendered by the user interface.
    pub reason_code: Option<CleanupActionReason>,
    pub bytes_expected: u64,
    pub released_bytes: u64,
    pub affected_item_count: u64,
    pub failed_item_count: u64,
    pub running_processes: Vec<String>,
}

/// Totals of a cleanup execution.
#[derive(Debug, Clone)]
pub struct CleanupResult {
    pub plan_id: String,
    pub plan_hash: String,
    pub expected_bytes: u64,
    pub released_bytes: u64,
    pub affected_item_count: u64,
    pub failed_item_count: u64,
    pub dry_run: bool,
    pub actions: Vec<CleanupActionResult>,
    pub history_saved: bool,
}

} // verus!
