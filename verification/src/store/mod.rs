//! The timeline store.
pub mod entries;
pub mod expiry;
pub mod held;
pub mod in_turn;
pub mod laws;
pub mod legacy_states;
pub mod listing;
pub mod lookup;
pub mod migrate;
pub mod newest;
pub mod prune;
pub mod record;
pub mod retention;
pub mod rows;
pub mod separation;
pub mod shape;
pub mod shown;
pub mod sound;
pub mod tables;
pub mod unique;
pub mod upgrade;

pub use listing::{HistoryEntry, RecentChange, StatusSummary, WatcherStatus};
pub use prune::PruneSummary;
pub use rows::{EventType, StorageKind};
pub use tables::{StoreError, StoredRows, TimelineStore};
