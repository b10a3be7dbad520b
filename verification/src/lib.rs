//! The tab, bookmark and session logic of Pake's tabbed browsing mode.
//!
//! - [`tabs`]: the tab model (open, switch, close, report) and its invariant.
//! - [`bookmarks`]: the flat bookmark store with duplicate detection.
//! - [`session`]: last-session snapshots, restore, and save debouncing.
//! - [`urls`]: the URL components read from the `url` crate and the
//!   canonical form used to compare URLs.
//! - [`paths`]: file paths inside the data directory.
//! - [`text`] and [`seqs`]: specified helpers on characters and sequences.

pub mod bookmarks;
pub mod paths;
pub mod seqs;
pub mod session;
pub mod tabs;
pub mod text;
pub mod urls;
