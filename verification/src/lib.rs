//! Safekp's tracking logic: the list of tracked files kept in the tracking
//! file, how entries are built, merged, normalized and removed, how the
//! backups of tracked files are brought up to date, how tracked folders are
//! scanned for new files, and how the command line is read.

pub mod command;
pub mod entry;
pub mod hashing;
pub mod location;
pub mod naming;
pub mod paths;
pub mod refresh;
pub mod scan;
pub mod store;
pub mod tracking;
pub mod tracking_laws;
