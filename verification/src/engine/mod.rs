//! The engine: data model, cache format, metrics and walk decisions.

pub mod cache;
pub mod error;
pub mod git;
pub mod head;
pub mod metrics;
pub mod model;

pub use error::EngineError;
pub use model::{AuthorId, AuthorInfo, CommitRecord, FileId, FileStat, History, Oid};
pub use metrics::Window;
pub use metrics::churn::{churn, ChurnRow};
pub use metrics::coupling::{coupling_counts, CouplingCount};
pub use metrics::hotspots::{ignore_mask, is_ignored, rank_hotspots, HotspotRank};
pub use metrics::ownership::{ownership_shares, OwnershipShares};
pub use metrics::risk::repo_risk;
