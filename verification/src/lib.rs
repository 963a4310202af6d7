//! Photo library organisation: reading capture dates from EXIF text and file
//! names, planning where each file goes, finding duplicate files by content
//! hash, and the state of the interactive interface.
//!
//! Paths are handled as `/`-separated UTF-8 text; file system access is left
//! to the caller, which hands in what it read and performs what it is asked.
pub mod cli;
pub mod date;
pub mod dedup;
pub mod metadata;
pub mod number;
pub mod order;
pub mod organize;
pub mod path;
pub mod scan;
pub mod text;
pub mod tui;
pub mod view;

pub use cli::{Cli, Commands};
pub use date::{from_exif_str, from_filename, MediaDate};
pub use metadata::{read_exif_text, resolve_date_from_bytes, ExifRead, ExifText};
pub use dedup::{content_hash, hex_digest, deletion_targets, find_duplicates, HashedPath};
pub use organize::{
    plan_destination, plan_preview, resolve_date, resolve_date_pub, unique_dest, FsOp,
    OrganizeOptions, OrganizeResult, Organizer, Plan, SourceFile, Step,
};
pub use scan::{is_media_file, parse_exts, select_media_files, ScanEntry, DEFAULT_EXTS};
pub use tui::{Action, App, Command, Key, PlannedMove, Screen, Work};
pub use view::{toggle_label, HomeView, ListRow, ListView, Tone};
