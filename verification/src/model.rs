//! The data the library reads and reports: declared entries, the items that
//! Finder's sidebar holds, the configuration, and the report of a sync.

use vstd::prelude::*;

verus! {

/// A desired sidebar entry, as a Nix or JSON configuration declares it.
#[derive(Debug, Clone, PartialEq, Eq)]
pub struct SidebarEntry {
    /// Optional custom display name in the Finder sidebar.
    pub name: Option<String>,
    /// Path (e.g., `~/Downloads`, `/Applications`, `file:///...`).
    pub path: String,
}

/// An item currently in the Finder sidebar.
#[derive(Debug, Clone, PartialEq, Eq)]
pub struct SidebarItemInfo {
    pub id: u32,
    pub name: String,
    pub path: Option<String>,
    pub url: Option<String>,
}

/// The declarative configuration.
#[derive(Debug, Clone)]
pub struct FindbarConfig {
    pub items: Vec<SidebarEntry>,
    pub keep_unmanaged: bool,
}

/// Where a new item goes.
#[derive(Debug, Clone, PartialEq, Eq)]
pub enum InsertPosition {
    Beginning,
    End,
    /// Before the item with this name or path.
    Before(String),
    /// After the item with this name or path.
    After(String),
}

/// One line of a sync report: what was (or would be) done to one item.
#[derive(Debug, Clone, PartialEq, Eq)]
pub struct SyncAction {
    pub action: String,
    pub name: String,
    pub path: Option<String>,
    pub reason: Option<String>,
}

/// A `SyncAction` as text.
pub struct ActionView {
    pub action: Seq<char>,
    pub name: Seq<char>,
    pub path: Option<Seq<char>>,
    pub reason: Option<Seq<char>>,
}

impl View for SyncAction {
    type V = ActionView;

    open spec fn view(&self) -> ActionView {
        ActionView {
            action: self.action@,
            name: self.name@,
            path: self.path.deep_view(),
            reason: self.reason.deep_view(),
        }
    }
}

/// The summary of a sync.
#[derive(Debug, Clone)]
pub struct SyncReport {
    pub added: usize,
    pub removed: usize,
    pub reordered: usize,
    pub unchanged: usize,
    pub actions: Vec<SyncAction>,
}

impl SyncReport {
    /// The lines of the report, as text.
    pub open spec fn action_views(&self) -> Seq<ActionView> {
        self.actions@.map_values(|a: SyncAction| a@)
    }
}

impl Default for SyncReport {
    fn default() -> (r: SyncReport)
        ensures
            r.added == 0 && r.removed == 0 && r.reordered == 0 && r.unchanged == 0,
            r.actions@.len() == 0,
    {
        SyncReport { added: 0, removed: 0, reordered: 0, unchanged: 0, actions: Vec::new() }
    }
}

/// How `list` prints the sidebar.
#[derive(Debug, Clone, Copy, PartialEq, Eq, PartialOrd, Ord)]
pub enum OutputFormat {
    Table,
    Json,
    Nix,
}

/// The format of an exported configuration.
#[derive(Debug, Clone, Copy, PartialEq, Eq, PartialOrd, Ord)]
pub enum ExportFormat {
    Nix,
    Json,
    Toml,
}

} // verus!
