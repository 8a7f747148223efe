//! The model behind a directory tree that is scanned in the background and kept up to date
//! from file system events: paths, entries, snapshots, scans, event batches and the worktree
//! that the rest of an editor talks to.
pub mod path;
pub mod path_laws;
pub mod spelling_laws;
pub mod entry;
pub mod entry_tree;
pub mod entry_laws;
pub mod snapshot;
pub mod lineage;
pub mod tree_laws;
pub mod error;
pub mod scan;
pub mod scan_laws;
pub mod events;
pub mod orphans;
pub mod forest_laws;
pub mod event_laws;
pub mod effect_laws;
pub mod lookup_laws;
pub mod listing_laws;
pub mod batch;
pub mod change;
pub mod batch_steps;
pub mod batch_laws;
pub mod update_laws;
pub mod render;
pub mod worktree;
pub mod worktree_laws;
pub mod text_laws;
pub mod operation_laws;
pub mod outcome_laws;
pub mod scanner;
