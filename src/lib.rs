//! Work tracking for an incremental file re-processing pipeline.
//!
//! A [`store::StateStore`] maps each canonical file path to whether the file
//! still needs processing and the modification time at which it was last
//! evaluated. The scanner reconciles what a directory walk found with the
//! store, the scheduler drives a bounded pool of workers over the pending
//! files, and the cleaner folds rows that name the same file and drops rows
//! whose file is gone.
//!
//! Everything that touches the file system, the database file or threads is
//! done by the caller, which hands the library plain values.

pub mod store;
pub mod error;
pub mod scanner;
pub mod scheduler;
pub mod cleaner;
