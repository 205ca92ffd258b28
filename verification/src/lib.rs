//! A recursive directory watcher core, built over a per-directory,
//! handle-based change-notification facility that recycles handles.
//!
//! The library holds the logic of the watcher: the watch tree that keeps the
//! path↔handle mapping safe under handle reuse, the translator that turns raw
//! notification records into high-level events, and the coalescer that delays,
//! cancels and recombines those events. The channel itself — opening it,
//! installing and removing kernel watches, listing directories, timers — is
//! driven by a thin loop outside the library, which feeds records and timer
//! firings in and performs the actions the library decides on.

pub mod coalesce;
pub mod events;
pub mod paths;
pub mod translate;
pub mod tree;
pub mod watcher;

pub use coalesce::FileEventDelay;
pub use tree::WatchTree;
pub use watcher::FileSystemWatcher;
pub use events::{Error, FileSystemEvent, RawAction, RawRecord, StopReason};
