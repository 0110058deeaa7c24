//! A local, on-disk, segmented append-only event log, verified at its core.
//!
//! Records are grouped into named rooms; each room is partitioned across
//! time-ordered segment files; a live-tailing watcher turns filesystem change
//! notifications into an ordered stream of newly appended lines.
//!
//! This crate holds the verified logic: line framing, segment routing, the
//! per-segment follower and the watcher state machine, all working over an
//! in-memory model of the store. A thin unverified shell performs the actual
//! filesystem reads and writes and feeds their results into this model.

pub mod codec;
pub mod errors;
pub mod lockfile;
pub mod matrixdir;
pub mod matrixfile;
pub mod matrixroomdir;
pub mod names;
pub mod read_write;
pub mod watcher;

pub use codec::FollowStep;
pub use errors::StoreError;
pub use lockfile::LockFile;
pub use lockfile::LockMarker;
pub use matrixdir::MatrixDir;
pub use matrixdir::RoomScan;
pub use matrixfile::FileMessageIterator;
pub use matrixfile::MatrixFile;
pub use matrixroomdir::MatrixRoomDir;
pub use matrixroomdir::RoomMessageIterator;
pub use watcher::MatrixDirWatcher;
pub use watcher::MatrixEventHandler;
