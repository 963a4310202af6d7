//! The commands of the program, as plain data.
use vstd::prelude::*;

verus! {

/// The parsed command line.
#[derive(Debug, Clone)]
pub struct Cli {
    pub command: Commands,
}

/// What the program is asked to do.
#[derive(Debug, Clone)]
pub enum Commands {
    /// Scan a folder and print the media files we would consider organizing.
    Scan {
        /// Source directory.
        src: String,
        /// Recurse into subfolders.
        recursive: bool,
        /// Allowed extensions (comma-separated).
        exts: String,
    },
    /// Find (and optionally delete) duplicate media files in a directory.
    Dedup {
        /// Directory to scan for duplicates.
        src: String,
        /// Recurse into subfolders.
        recursive: bool,
        /// Allowed extensions (comma-separated).
        exts: String,
        /// Delete duplicates, keeping the first in each group.
        delete: bool,
        /// Preview what would be deleted without removing any files.
        dry_run: bool,
    },
    /// Launch the interactive interface.
    Ui,
    /// Organize media files into `dest/YYYY/MM/` based on their date.
    Organize {
        /// Source directory.
        src: String,
        /// Destination directory (created if it does not exist).
        dest: String,
        /// Recurse into subfolders.
        recursive: bool,
        /// Allowed extensions (comma-separated).
        exts: String,
        /// Preview what would happen without moving any files.
        dry_run: bool,
        /// Copy files instead of moving them.
        copy: bool,
    },
}

} // verus!
