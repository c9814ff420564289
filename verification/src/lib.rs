//! A locally cached, deduplicated mirror of hashtag-tagged statuses fetched
//! from a remote paginated timeline, served as one merged, time-ordered feed.
//!
//! The crate verifies the engine at the heart of that mirror: the status-ID
//! ordering that pagination relies on, the pagination cursor ("watermark")
//! advancement, the merge-and-deduplicate step, the in-memory content store,
//! status index and watermark store with their query semantics, the tiered
//! refresh scheduler, the worker-loop state machine, and the conditional
//! HTTP-cache response decision.

pub mod cache;
pub mod casing;
pub mod content;
pub mod clock;
pub mod ids;
pub mod index;
pub mod kvstore;
pub mod duration;
pub mod freshness;
pub mod hashtags;
pub mod merge;
pub mod pagination;
pub mod rank;
pub mod refresh;
pub mod settings;
pub mod record;
pub mod repos;
pub mod text;
pub mod traits;
pub mod worker;
pub mod watermark;
