//! Utilities for finding broken symbolic links in a directory tree,
//! together with small helpers for validating command-line inputs and
//! building crates.io download URLs.
//!
//! The tree walker is modelled as a pure state machine: the caller performs
//! the filesystem probes and feeds their outcomes to the machine, which
//! decides what is reported, what is recorded as an error, and where the
//! walk goes next.

mod download;
mod laws;
mod parsers;
mod snapshot;
mod walk;

pub use download::archive_file_name;
pub use download::crate_download_url;
pub use download::crate_file_name;
pub use parsers::parse_dir;
pub use parsers::parse_existing_file;
pub use parsers::parse_name_version;
pub use parsers::ParseError;
pub use snapshot::DirListing;
pub use snapshot::FsSnapshot;
pub use snapshot::walk;

pub use walk::Args;
pub use walk::EntryInfo;
pub use walk::ErrorKind;
pub use walk::ErrorRecord;
pub use walk::ListingOutcome;
pub use walk::Opts;
pub use walk::TargetStatus;
pub use walk::Walker;
