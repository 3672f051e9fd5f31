//! Markdown documents as a directory tree: headings become directories, and the body of each section
//! becomes a `content.md`.

pub mod addresses;
pub mod answers;
pub mod block;
pub mod bytes;
pub mod bytewise;
pub mod cli;
pub mod clock;
pub mod continuity;
pub mod daemon;
pub mod document;
pub mod editing;
pub mod filenames;
pub mod fs;
pub mod grafting;
pub mod guarantees;
pub mod histories;
pub mod inode;
pub mod labels;
pub mod lines;
pub mod listing;
pub mod making;
pub mod model;
pub mod mount;
pub mod mounting;
pub mod moving;
pub mod names;
pub mod naming;
pub mod nfs;
pub mod numbering;
pub mod outline;
pub mod parents;
pub mod paths;
pub mod places;
pub mod query_filter;
pub mod reading;
pub mod reflow;
pub mod renaming;
pub mod requests;
pub mod rules;
pub mod section;
pub mod shifting;
pub mod spelling;
pub mod state;
pub mod supers;
pub mod tables;
pub mod text;
pub mod titles;
pub mod uniqueness;
pub mod vfs;
pub mod visibility;
pub mod watch;
pub mod wayfinding;
pub mod winfsp;
pub mod writing;
