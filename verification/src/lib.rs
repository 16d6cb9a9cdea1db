//! Targone's core: discovery of Cargo target directories, layout probing,
//! identity-recency classification of what they hold, the global budget, the
//! decisions of the sweep under Cargo's lock protocol, and the project
//! registry.
//!
//! Classification is fail-open: anything not positively identified as
//! superseded is kept. Nothing here touches the filesystem; callers observe
//! directories and hand over what they saw.

pub mod text;
pub mod order;
pub mod unit;
pub mod identity;
pub mod layout;
pub mod discover;
pub mod legacy;
pub mod v2;
pub mod scan;
pub mod budget;
pub mod fsinfo;
pub mod sweep;
pub mod registry;
pub mod config;
pub mod beacon;
pub mod schedule;

pub use budget::{parse_size_parts, select_for_budget, BudgetPlan};
pub use discover::{try_target_dir, TargetDir};
pub use layout::{probe_profile, ProfileLayout};
pub use scan::{
    scan_all, scan_profile, scan_target_dir, PoolStats, ProfileReport, ReclaimItem, TargetReport, Tier,
    TierEstimate,
};
pub use sweep::{record_item, sweep_precheck, SweepOutcome};
