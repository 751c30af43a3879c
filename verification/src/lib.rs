//! findbar: declarative management of macOS Finder sidebar favorites.
//!
//! The library decides; the caller talks to Finder and to the file system.
//! `paths` resolves and compares paths, `sidebar` decides what an addition,
//! a removal or a declarative sync does to the sidebar, `export` writes the
//! sidebar out as a Nix configuration, and `laws` proves what these decisions
//! guarantee together.

pub mod commands;
pub mod export;
pub mod laws;
pub mod model;
pub mod paths;
pub mod sidebar;
pub mod text;

pub use commands::{
    action_kind, confirms_removal, export_config, insert_position, item_location, ActionKind,
};
pub use export::export_nix;
pub use model::{
    ExportFormat, FindbarConfig, InsertPosition, OutputFormat, SidebarEntry, SidebarItemInfo,
    SyncAction, SyncReport,
};
pub use paths::{
    expand_and_normalize_path, expand_path, infer_name_from_path, normalize_for_comparison,
    urlencoding_decode, PathError, PathFacts,
};
pub use sidebar::{
    add_favorite, order_favorites, prepare_entry, remove_favorite, sync_favorites, AddError,
    AddFacts, AddPlan, Anchor, DesiredEntry, EntryFacts, ListedItem, Move, SidebarChange,
    SyncPlan,
};
