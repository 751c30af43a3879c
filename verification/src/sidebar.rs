//! Decisions about Finder's sidebar favorites: which item a removal targets,
//! where an addition goes, and what a declarative sync changes. The sidebar
//! itself is read and written by the caller; these functions take what it
//! holds and say what to do with it.

use vstd::prelude::*;
use crate::model::{
    ActionView, FindbarConfig, InsertPosition, SidebarEntry, SidebarItemInfo, SyncAction,
    SyncReport,
};
use crate::paths::{
    comparison_key, expand_and_normalize_path, final_component, infer_name_from_path,
    normalize_for_comparison, normalized, PathFacts,
};
use crate::text::{copy_opt_string, copy_string, lowercase, str_equal, to_lowercase};

verus! {

// ---------------------------------------------------------------------------
// Items as the sidebar lists them
// ---------------------------------------------------------------------------

/// An item of the sidebar together with what the machine says about its path.
#[derive(Debug)]
pub struct ListedItem {
    pub info: SidebarItemInfo,
    pub facts: PathFacts,
}

/// A listed item as text, with the key by which its path is compared.
pub struct ItemView {
    pub id: u32,
    pub name: Seq<char>,
    pub path: Option<Seq<char>>,
    pub key: Option<Seq<char>>,
}

impl View for ListedItem {
    type V = ItemView;

    open spec fn view(&self) -> ItemView {
        ItemView {
            id: self.info.id,
            name: self.info.name@,
            path: self.info.path.deep_view(),
            key: match self.info.path {
                Some(p) => Some(comparison_key(p@, self.facts)),
                None => None,
            },
        }
    }
}

/// The views of a list of items.
pub open spec fn item_views(items: Seq<ListedItem>) -> Seq<ItemView> {
    items.map_values(|it: ListedItem| it@)
}

/// The comparison key of an item's path, if it has a path.
fn item_key(it: &ListedItem) -> (out: Option<String>)
    ensures
        out.deep_view() == it@.key,
{
    match &it.info.path {
        Some(p) => Some(normalize_for_comparison(p.as_str(), &it.facts)),
        None => None,
    }
}

/// The comparison keys of all items.
fn item_keys(items: &Vec<ListedItem>) -> (out: Vec<Option<String>>)
    ensures
        out@.len() == items@.len(),
        forall|i: int| 0 <= i < items@.len() ==> #[trigger] out@[i].deep_view() == items@[i]@.key,
{
    let mut out: Vec<Option<String>> = Vec::new();
    let mut i: usize = 0;
    while i < items.len()
        invariant
            i <= items@.len(),
            out@.len() == i,
            forall|j: int| 0 <= j < i ==> #[trigger] out@[j].deep_view() == items@[j]@.key,
        decreases items.len() - i,
    {
        out.push(item_key(&items[i]));
        i = i + 1;
    }
    out
}

/// Whether an optional key equals `k`.
fn key_is(key: &Option<String>, k: &String) -> (r: bool)
    ensures
        r == (key.deep_view() == Some(k@)),
{
    match key {
        Some(x) => str_equal(x.as_str(), k.as_str()),
        None => false,
    }
}

// ---------------------------------------------------------------------------
// Removing one favorite
// ---------------------------------------------------------------------------

/// `it` is what `target` names: its display name equals `target` ignoring
/// case, or its path compares equal to `target`'s (whose key is `target_key`).
pub open spec fn names_item(it: ItemView, target: Seq<char>, target_key: Seq<char>) -> bool {
    lowercase(it.name) == lowercase(target) || it.key == Some(target_key)
}

/// Which item a removal by display name, path or URL takes out: the first
/// item that `target` names, or none when no item matches.
pub fn remove_favorite(target: &str, target_facts: &PathFacts, items: &Vec<ListedItem>) -> (out:
    Option<usize>)
    ensures
        out matches Some(i) ==> i < items@.len() && names_item(
            items@[i as int]@,
            target@,
            comparison_key(target@, *target_facts),
        ),
        out matches Some(i) ==> lowercase(items@[i as int].info.name@) == lowercase(target@)
            || items@[i as int]@.key == Some(comparison_key(target@, *target_facts)),
        out matches Some(i) ==> forall|j: int|
            0 <= j < i ==> !names_item(
                #[trigger] items@[j]@,
                target@,
                comparison_key(target@, *target_facts),
            ),
        out is None ==> forall|j: int|
            0 <= j < items@.len() ==> !names_item(
                #[trigger] items@[j]@,
                target@,
                comparison_key(target@, *target_facts),
            ),
{
    let target_key = normalize_for_comparison(target, target_facts);
    let target_lower = to_lowercase(target);
    let mut i: usize = 0;
    while i < items.len()
        invariant
            i <= items@.len(),
            target_key@ == comparison_key(target@, *target_facts),
            target_lower@ == lowercase(target@),
            forall|j: int|
                0 <= j < i ==> !names_item(#[trigger] items@[j]@, target@, target_key@),
        decreases items.len() - i,
    {
        let it = &items[i];
        let name_lower = to_lowercase(it.info.name.as_str());
        let key = item_key(it);
        if str_equal(name_lower.as_str(), target_lower.as_str()) || key_is(&key, &target_key) {
            return Some(i);
        }
        i = i + 1;
    }
    None
}


// ---------------------------------------------------------------------------
// Adding one favorite
// ---------------------------------------------------------------------------

/// Where a new item is inserted, relative to the items listed before it.
#[derive(Debug, Clone, Copy, PartialEq, Eq)]
pub enum Anchor {
    /// Before the first item.
    Beginning,
    /// After the last item.
    End,
    /// Right after the listed item at `index`.
    After { index: usize },
}

/// An insertion to make: the normalized path, the custom name (none lets
/// Finder choose a localized one) and the place.
#[derive(Debug)]
pub struct AddPlan {
    pub path: String,
    pub name: Option<String>,
    pub anchor: Anchor,
}

/// Why an addition is refused.
#[derive(Debug, PartialEq, Eq)]
pub enum AddError {
    /// Expanding `~` or an environment variable in the path failed.
    Expansion { input: String },
    /// The path is already in the sidebar, as the item with this name and id.
    Duplicate { name: String, id: u32 },
    /// No item has the name or path that the position refers to.
    TargetNotFound { target: String },
}

/// What the machine says about the paths an addition compares: the path as
/// given, the path it normalizes to, and the item named by the position.
#[derive(Debug)]
pub struct AddFacts {
    pub path: PathFacts,
    pub resolved: PathFacts,
    pub target: PathFacts,
}

/// `i` is the first item that `target` names.
pub open spec fn is_first_named(its: Seq<ItemView>, target: Seq<char>, tkey: Seq<char>, i: int) -> bool {
    &&& 0 <= i < its.len()
    &&& names_item(its[i], target, tkey)
    &&& forall|j: int| 0 <= j < i ==> !names_item(#[trigger] its[j], target, tkey)
}

/// `p` is the first item with the id `id`.
pub open spec fn is_first_with_id(its: Seq<ItemView>, id: u32, p: int) -> bool {
    &&& 0 <= p < its.len()
    &&& its[p].id == id
    &&& forall|j: int| 0 <= j < p ==> #[trigger] its[j].id != id
}

/// The outcome of an addition, with items named by their positions.
pub enum AddOutcome {
    Planned { path: Seq<char>, anchor: Anchor },
    NotExpanded,
    Duplicate { item: int },
    TargetNotFound,
}

/// Where a new item goes, given the first item named by the position's target
/// (`named`): after it, or before it, that is, after the item preceding the
/// first item with the same id (at the beginning when there is none).
pub open spec fn anchor_for(before: bool, its: Seq<ItemView>, named: int) -> Anchor {
    if !before {
        Anchor::After { index: named as usize }
    } else {
        let p = choose|p: int| is_first_with_id(its, its[named].id, p);
        if p == 0 {
            Anchor::Beginning
        } else {
            Anchor::After { index: (p - 1) as usize }
        }
    }
}

/// What adding `path_input` at `position` does: the path must expand; unless
/// duplicates are allowed, no item may already be at it (the first such item
/// is reported); a position relative to an item needs an item that its target
/// names by display name (ignoring case) or by path.
pub open spec fn add_outcome(
    path_input: Seq<char>,
    position: InsertPosition,
    allow_duplicates: bool,
    facts: AddFacts,
    its: Seq<ItemView>,
) -> AddOutcome {
    match normalized(path_input, facts.path) {
        None => AddOutcome::NotExpanded,
        Some(np) => {
            let nkey = comparison_key(np, facts.resolved);
            if !allow_duplicates && present(its, nkey) {
                AddOutcome::Duplicate { item: choose|i: int| is_first_with_key(its, nkey, i) }
            } else {
                match position {
                    InsertPosition::Beginning => AddOutcome::Planned { path: np, anchor: Anchor::Beginning },
                    InsertPosition::End => AddOutcome::Planned { path: np, anchor: Anchor::End },
                    InsertPosition::Before(t) => {
                        let tkey = comparison_key(t@, facts.target);
                        if exists|i: int| is_first_named(its, t@, tkey, i) {
                            let i = choose|i: int| is_first_named(its, t@, tkey, i);
                            AddOutcome::Planned { path: np, anchor: anchor_for(true, its, i) }
                        } else {
                            AddOutcome::TargetNotFound
                        }
                    },
                    InsertPosition::After(t) => {
                        let tkey = comparison_key(t@, facts.target);
                        if exists|i: int| is_first_named(its, t@, tkey, i) {
                            let i = choose|i: int| is_first_named(its, t@, tkey, i);
                            AddOutcome::Planned { path: np, anchor: anchor_for(false, its, i) }
                        } else {
                            AddOutcome::TargetNotFound
                        }
                    },
                }
            }
        },
    }
}

/// The text a position refers to, if it refers to an item.
pub open spec fn position_target(position: InsertPosition) -> Option<Seq<char>> {
    match position {
        InsertPosition::Before(t) => Some(t@),
        InsertPosition::After(t) => Some(t@),
        _ => None,
    }
}

proof fn lemma_first_unique_named(its: Seq<ItemView>, target: Seq<char>, tkey: Seq<char>, i: int, c: int)
    requires
        is_first_named(its, target, tkey, i),
        is_first_named(its, target, tkey, c),
    ensures
        i == c,
{
    if c < i {
        assert(!names_item(its[c], target, tkey));
    } else if i < c {
        assert(!names_item(its[i], target, tkey));
    }
}

proof fn lemma_first_unique_id(its: Seq<ItemView>, id: u32, i: int, c: int)
    requires
        is_first_with_id(its, id, i),
        is_first_with_id(its, id, c),
    ensures
        i == c,
{
    if c < i {
        assert(its[c].id != id);
    } else if i < c {
        assert(its[i].id != id);
    }
}

pub proof fn lemma_first_unique_key(its: Seq<ItemView>, k: Seq<char>, i: int, c: int)
    requires
        is_first_with_key(its, k, i),
        is_first_with_key(its, k, c),
    ensures
        i == c,
{
    if c < i {
        assert(its[c].key != Some(k));
    } else if i < c {
        assert(its[i].key != Some(k));
    }
}

/// The first item that `target` names, if any.
fn find_named(target: &str, target_key: &String, items: &Vec<ListedItem>) -> (out: Option<usize>)
    ensures
        out matches Some(i) ==> is_first_named(item_views(items@), target@, target_key@, i as int),
        out is None ==> forall|j: int|
            0 <= j < items@.len() ==> !names_item(#[trigger] item_views(items@)[j], target@, target_key@),
{
    let ghost its = item_views(items@);
    let target_lower = to_lowercase(target);
    let mut i: usize = 0;
    while i < items.len()
        invariant
            its == item_views(items@),
            i <= items@.len(),
            target_lower@ == lowercase(target@),
            forall|j: int| 0 <= j < i ==> !names_item(#[trigger] its[j], target@, target_key@),
        decreases items.len() - i,
    {
        let it = &items[i];
        let name_lower = to_lowercase(it.info.name.as_str());
        let key = item_key(it);
        assert(its[i as int] == items@[i as int]@);
        if str_equal(name_lower.as_str(), target_lower.as_str()) || key_is(&key, target_key) {
            return Some(i);
        }
        i = i + 1;
    }
    None
}

/// The first item with the id `id`, which some item has.
fn find_id(id: u32, items: &Vec<ListedItem>, Ghost(witness): Ghost<int>) -> (out: usize)
    requires
        0 <= witness < items@.len(),
        items@[witness].info.id == id,
    ensures
        is_first_with_id(item_views(items@), id, out as int),
{
    let ghost its = item_views(items@);
    let mut i: usize = 0;
    while i < items.len()
        invariant
            its == item_views(items@),
            0 <= witness < items@.len(),
            items@[witness].info.id == id,
            i <= witness,
            forall|j: int| 0 <= j < i ==> #[trigger] its[j].id != id,
        decreases items.len() - i,
    {
        assert(its[i as int] == items@[i as int]@);
        if items[i].info.id == id {
            return i;
        }
        i = i + 1;
    }
    assert(its[witness] == items@[witness]@);
    i
}

/// The first item whose path has key `k`, if any.
fn find_key(keys: &Vec<Option<String>>, items: &Vec<ListedItem>, k: &String) -> (out: Option<usize>)
    requires
        keys@.len() == items@.len(),
        forall|i: int| 0 <= i < items@.len() ==> #[trigger] keys@[i].deep_view() == items@[i]@.key,
    ensures
        out matches Some(i) ==> is_first_with_key(item_views(items@), k@, i as int),
        out is None ==> !present(item_views(items@), k@),
{
    let ghost its = item_views(items@);
    let mut i: usize = 0;
    while i < keys.len()
        invariant
            its == item_views(items@),
            keys@.len() == items@.len(),
            forall|x: int| 0 <= x < items@.len() ==> #[trigger] keys@[x].deep_view() == items@[x]@.key,
            i <= keys@.len(),
            forall|x: int| 0 <= x < i ==> #[trigger] its[x].key != Some(k@),
        decreases keys.len() - i,
    {
        assert(its[i as int] == items@[i as int]@);
        if key_is(&keys[i], k) {
            return Some(i);
        }
        i = i + 1;
    }
    None
}

/// Plans adding `path_input` to the sidebar at `position`, with `custom_name`
/// or, when it is `None`, the localized name Finder gives the path. Refuses a
/// path that does not expand, a path already in the sidebar unless
/// `allow_duplicates`, and a position relative to an item that no item's
/// display name (ignoring case) or path matches.
pub fn add_favorite(
    path_input: &str,
    custom_name: Option<&str>,
    position: &InsertPosition,
    allow_duplicates: bool,
    facts: &AddFacts,
    existing: &Vec<ListedItem>,
) -> (out: Result<AddPlan, AddError>)
    ensures
        out matches Ok(plan) ==> add_outcome(
            path_input@,
            *position,
            allow_duplicates,
            *facts,
            item_views(existing@),
        ) == (AddOutcome::Planned { path: plan.path@, anchor: plan.anchor }) && plan.name.deep_view()
            == (match custom_name {
            Some(n) => Some(n@),
            None => None,
        }),
        out matches Err(AddError::Expansion { input }) ==> add_outcome(
            path_input@,
            *position,
            allow_duplicates,
            *facts,
            item_views(existing@),
        ) is NotExpanded && input@ == path_input@,
        out matches Err(AddError::Duplicate { name, id }) ==> add_outcome(
            path_input@,
            *position,
            allow_duplicates,
            *facts,
            item_views(existing@),
        ) matches AddOutcome::Duplicate { item } && 0 <= item < existing@.len() && name@
            == existing@[item].info.name@ && id == existing@[item].info.id,
        out matches Err(AddError::TargetNotFound { target }) ==> add_outcome(
            path_input@,
            *position,
            allow_duplicates,
            *facts,
            item_views(existing@),
        ) is TargetNotFound && position_target(*position) == Some(target@),
{
    let ghost its = item_views(existing@);
    let normalized_path = match expand_and_normalize_path(path_input, &facts.path) {
        Ok(p) => p,
        Err(_) => {
            return Err(AddError::Expansion { input: path_input.to_owned() });
        },
    };
    let keys = item_keys(existing);
    if !allow_duplicates {
        let nkey = normalize_for_comparison(normalized_path.as_str(), &facts.resolved);
        match find_key(&keys, existing, &nkey) {
            Some(i) => {
                proof {
                    let c = choose|c: int| is_first_with_key(its, nkey@, c);
                    lemma_first_unique_key(its, nkey@, i as int, c);
                    assert(its[i as int] == existing@[i as int]@);
                }
                return Err(AddError::Duplicate { name: copy_string(&existing[i].info.name), id: existing[i].info.id });
            },
            None => {},
        }
    }
    let name = match custom_name {
        Some(n) => Some(n.to_owned()),
        None => None,
    };
    let (target, before) = match position {
        InsertPosition::Beginning => {
            return Ok(AddPlan { path: normalized_path, name, anchor: Anchor::Beginning });
        },
        InsertPosition::End => {
            return Ok(AddPlan { path: normalized_path, name, anchor: Anchor::End });
        },
        InsertPosition::Before(t) => (t, true),
        InsertPosition::After(t) => (t, false),
    };
    let target_key = normalize_for_comparison(target.as_str(), &facts.target);
    match find_named(target.as_str(), &target_key, existing) {
        None => {
            proof {
                if exists|i: int| is_first_named(its, target@, target_key@, i) {
                    let i = choose|i: int| is_first_named(its, target@, target_key@, i);
                    assert(names_item(its[i], target@, target_key@));
                }
            }
            Err(AddError::TargetNotFound { target: copy_string(target) })
        },
        Some(i) => {
            proof {
                let c = choose|c: int| is_first_named(its, target@, target_key@, c);
                lemma_first_unique_named(its, target@, target_key@, i as int, c);
            }
            if !before {
                Ok(AddPlan { path: normalized_path, name, anchor: Anchor::After { index: i } })
            } else {
                let p = find_id(existing[i].info.id, existing, Ghost(i as int));
                proof {
                    assert(its[i as int] == existing@[i as int]@);
                    let c = choose|c: int| is_first_with_id(its, its[i as int].id, c);
                    lemma_first_unique_id(its, its[i as int].id, p as int, c);
                }
                if p == 0 {
                    Ok(AddPlan { path: normalized_path, name, anchor: Anchor::Beginning })
                } else {
                    Ok(AddPlan { path: normalized_path, name, anchor: Anchor::After { index: p - 1 } })
                }
            }
        },
    }
}

// ---------------------------------------------------------------------------
// Declared entries
// ---------------------------------------------------------------------------

/// What the machine says about an entry's path, and about the path that it
/// normalizes to (which is normalized once more to compare it).
#[derive(Debug)]
pub struct EntryFacts {
    pub path: PathFacts,
    pub resolved: PathFacts,
}

/// A declared entry ready to be compared: its name, its normalized path and
/// the key of that path.
#[derive(Debug)]
pub struct DesiredEntry {
    pub name: Option<String>,
    pub path: String,
    pub key: String,
}

/// A `DesiredEntry` as text.
pub struct DesiredView {
    pub name: Option<Seq<char>>,
    pub path: Seq<char>,
    pub key: Seq<char>,
}

impl View for DesiredEntry {
    type V = DesiredView;

    open spec fn view(&self) -> DesiredView {
        DesiredView { name: self.name.deep_view(), path: self.path@, key: self.key@ }
    }
}

/// The views of a list of prepared entries.
pub open spec fn desired_views(v: Seq<DesiredEntry>) -> Seq<DesiredView> {
    v.map_values(|d: DesiredEntry| d@)
}

/// The prepared form of `entry`: its path normalized (kept as written when it
/// cannot be), and the comparison key of that path.
pub open spec fn desired_view(entry: SidebarEntry, facts: EntryFacts) -> DesiredView {
    let path = match normalized(entry.path@, facts.path) {
        Some(n) => n,
        None => entry.path@,
    };
    DesiredView { name: entry.name.deep_view(), path, key: comparison_key(path, facts.resolved) }
}

/// The prepared forms of the entries of a configuration.
pub open spec fn desired_of(entries: Seq<SidebarEntry>, facts: Seq<EntryFacts>) -> Seq<DesiredView> {
    Seq::new(entries.len(), |i: int| desired_view(entries[i], facts[i]))
}

/// Prepares a declared entry for comparison.
pub fn prepare_entry(entry: &SidebarEntry, facts: &EntryFacts) -> (out: DesiredEntry)
    ensures
        out@ == desired_view(*entry, *facts),
{
    let path = match expand_and_normalize_path(entry.path.as_str(), &facts.path) {
        Ok(n) => n,
        Err(_) => copy_string(&entry.path),
    };
    let key = normalize_for_comparison(path.as_str(), &facts.resolved);
    DesiredEntry { name: copy_opt_string(&entry.name), path, key }
}

/// The name a report shows for an entry: its own, or the one Finder infers from its path.
pub open spec fn display_name(d: DesiredView) -> Seq<char> {
    match d.name {
        Some(n) => n,
        None => match final_component(d.path) {
            Some(x) => x,
            None => d.path,
        },
    }
}

fn entry_display_name(d: &DesiredEntry) -> (out: String)
    ensures
        out@ == display_name(d@),
{
    match &d.name {
        Some(n) => copy_string(n),
        None => infer_name_from_path(d.path.as_str()),
    }
}

// ---------------------------------------------------------------------------
// Synchronization
// ---------------------------------------------------------------------------

/// The sidebar already is what the entries declare: as many items, in order,
/// each at the entry's path and, where the entry names it, with that name.
pub open spec fn already_matches(ds: Seq<DesiredView>, its: Seq<ItemView>) -> bool {
    &&& ds.len() == its.len()
    &&& forall|i: int|
        0 <= i < ds.len() ==> (match #[trigger] ds[i].name {
            Some(n) => its[i].name == n,
            None => true,
        }) && its[i].key == Some(ds[i].key)
}

/// A path key is managed when some entry declares it.
pub open spec fn managed_key(ds: Seq<DesiredView>, key: Option<Seq<char>>) -> bool {
    exists|j: int| 0 <= j < ds.len() && key == Some(#[trigger] ds[j].key)
}

/// Some item of the sidebar is at the path with key `k`.
pub open spec fn present(its: Seq<ItemView>, k: Seq<char>) -> bool {
    exists|i: int| 0 <= i < its.len() && #[trigger] its[i].key == Some(k)
}

/// The report line for an unmanaged item that is removed.
pub open spec fn removal_line(it: ItemView, dry_run: bool) -> ActionView {
    ActionView {
        action: if dry_run { "remove"@ } else { "removed"@ },
        name: it.name,
        path: it.path,
        reason: Some("Unmanaged item"@),
    }
}

/// The report lines for the unmanaged items, in sidebar order.
pub open spec fn removal_lines(ds: Seq<DesiredView>, its: Seq<ItemView>, dry_run: bool) -> Seq<ActionView>
    decreases its.len(),
{
    if its.len() == 0 {
        Seq::empty()
    } else {
        let prev = removal_lines(ds, its.drop_last(), dry_run);
        if managed_key(ds, its.last().key) {
            prev
        } else {
            prev.push(removal_line(its.last(), dry_run))
        }
    }
}

/// How many items are unmanaged.
pub open spec fn unmanaged_count(ds: Seq<DesiredView>, its: Seq<ItemView>) -> nat
    decreases its.len(),
{
    if its.len() == 0 {
        0
    } else {
        unmanaged_count(ds, its.drop_last()) + if managed_key(ds, its.last().key) {
            0nat
        } else {
            1nat
        }
    }
}

/// How many entries are missing from the sidebar.
pub open spec fn missing_count(ds: Seq<DesiredView>, its: Seq<ItemView>) -> nat
    decreases ds.len(),
{
    if ds.len() == 0 {
        0
    } else {
        missing_count(ds.drop_last(), its) + if present(its, ds.last().key) {
            0nat
        } else {
            1nat
        }
    }
}

/// The report line for an entry: added when missing, kept when present.
pub open spec fn entry_line(d: DesiredView, its: Seq<ItemView>, dry_run: bool) -> ActionView {
    if present(its, d.key) {
        ActionView {
            action: if dry_run { "preserve"@ } else { "unchanged"@ },
            name: display_name(d),
            path: Some(d.path),
            reason: Some("Item already exists"@),
        }
    } else {
        ActionView {
            action: if dry_run { "add"@ } else { "added"@ },
            name: display_name(d),
            path: Some(d.path),
            reason: Some("Missing from sidebar"@),
        }
    }
}

/// The report line for an entry when the sidebar already matches.
pub open spec fn matched_line(d: DesiredView) -> ActionView {
    ActionView {
        action: "unchanged"@,
        name: display_name(d),
        path: Some(d.path),
        reason: Some("Already matches target state"@),
    }
}

/// Every line of a sync report: one per entry when the sidebar already
/// matches; otherwise the removed unmanaged items (unless they are kept),
/// then one line per entry.
pub open spec fn report_lines(
    ds: Seq<DesiredView>,
    its: Seq<ItemView>,
    keep_unmanaged: bool,
    dry_run: bool,
) -> Seq<ActionView> {
    if already_matches(ds, its) {
        Seq::new(ds.len(), |i: int| matched_line(ds[i]))
    } else {
        (if keep_unmanaged {
            Seq::empty()
        } else {
            removal_lines(ds, its, dry_run)
        }) + Seq::new(ds.len(), |i: int| entry_line(ds[i], its, dry_run))
    }
}

/// A change to make to the sidebar.
#[derive(Debug)]
pub enum SidebarChange {
    /// Remove the listed item at this position.
    Remove { index: usize },
    /// Append an item for this path, with this name or the one Finder gives it.
    Append { name: Option<String>, path: String },
}

/// A `SidebarChange` as text.
pub enum ChangeView {
    Remove { index: int },
    Append { name: Option<Seq<char>>, path: Seq<char> },
}

impl View for SidebarChange {
    type V = ChangeView;

    open spec fn view(&self) -> ChangeView {
        match self {
            SidebarChange::Remove { index } => ChangeView::Remove { index: *index as int },
            SidebarChange::Append { name, path } => ChangeView::Append {
                name: name.deep_view(),
                path: path@,
            },
        }
    }
}

/// The views of a list of changes.
pub open spec fn change_views(v: Seq<SidebarChange>) -> Seq<ChangeView> {
    v.map_values(|c: SidebarChange| c@)
}

/// Removals of the unmanaged items, in sidebar order.
pub open spec fn removal_changes(ds: Seq<DesiredView>, its: Seq<ItemView>) -> Seq<ChangeView>
    decreases its.len(),
{
    if its.len() == 0 {
        Seq::empty()
    } else {
        let prev = removal_changes(ds, its.drop_last());
        if managed_key(ds, its.last().key) {
            prev
        } else {
            prev.push(ChangeView::Remove { index: its.len() - 1 })
        }
    }
}

/// Appends of the missing entries, in declared order.
pub open spec fn append_changes(ds: Seq<DesiredView>, its: Seq<ItemView>) -> Seq<ChangeView>
    decreases ds.len(),
{
    if ds.len() == 0 {
        Seq::empty()
    } else {
        let prev = append_changes(ds.drop_last(), its);
        if present(its, ds.last().key) {
            prev
        } else {
            prev.push(ChangeView::Append { name: ds.last().name, path: ds.last().path })
        }
    }
}

/// The changes a sync makes: none when the sidebar already matches or on a
/// dry run; otherwise the removals of unmanaged items (unless they are kept),
/// then the appends of missing entries.
pub open spec fn planned_changes(
    ds: Seq<DesiredView>,
    its: Seq<ItemView>,
    keep_unmanaged: bool,
    dry_run: bool,
) -> Seq<ChangeView> {
    if already_matches(ds, its) || dry_run {
        Seq::empty()
    } else {
        (if keep_unmanaged {
            Seq::empty()
        } else {
            removal_changes(ds, its)
        }) + append_changes(ds, its)
    }
}

/// What a sync does: the report, the changes to make in order (the first
/// failure stops the sync), and whether the items are put in declared order
/// afterwards (by `order_favorites` on the sidebar as it then is).
#[derive(Debug)]
pub struct SyncPlan {
    pub report: SyncReport,
    pub changes: Vec<SidebarChange>,
    pub reorder: bool,
    pub desired: Vec<DesiredEntry>,
}

fn prepare_entries(config: &FindbarConfig, facts: &Vec<EntryFacts>) -> (out: Vec<DesiredEntry>)
    requires
        facts@.len() == config.items@.len(),
    ensures
        desired_views(out@) == desired_of(config.items@, facts@),
{
    let mut out: Vec<DesiredEntry> = Vec::new();
    let mut i: usize = 0;
    while i < config.items.len()
        invariant
            facts@.len() == config.items@.len(),
            i <= config.items@.len(),
            out@.len() == i,
            forall|j: int| 0 <= j < i ==> #[trigger] out@[j]@ == desired_view(config.items@[j], facts@[j]),
        decreases config.items.len() - i,
    {
        out.push(prepare_entry(&config.items[i], &facts[i]));
        i = i + 1;
    }
    assert(desired_views(out@) =~= desired_of(config.items@, facts@));
    out
}

fn is_exact_match(desired: &Vec<DesiredEntry>, keys: &Vec<Option<String>>, existing: &Vec<ListedItem>) -> (r: bool)
    requires
        keys@.len() == existing@.len(),
        forall|i: int| 0 <= i < existing@.len() ==> #[trigger] keys@[i].deep_view() == existing@[i]@.key,
    ensures
        r == already_matches(desired_views(desired@), item_views(existing@)),
{
    let ghost ds = desired_views(desired@);
    let ghost its = item_views(existing@);
    if desired.len() != existing.len() {
        return false;
    }
    let mut i: usize = 0;
    while i < desired.len()
        invariant
            ds == desired_views(desired@),
            its == item_views(existing@),
            desired@.len() == existing@.len(),
            keys@.len() == existing@.len(),
            forall|k: int| 0 <= k < existing@.len() ==> #[trigger] keys@[k].deep_view() == existing@[k]@.key,
            i <= desired@.len(),
            forall|k: int|
                0 <= k < i ==> (match #[trigger] ds[k].name {
                    Some(n) => its[k].name == n,
                    None => true,
                }) && its[k].key == Some(ds[k].key),
        decreases desired.len() - i,
    {
        let d = &desired[i];
        let name_ok = match &d.name {
            Some(n) => str_equal(existing[i].info.name.as_str(), n.as_str()),
            None => true,
        };
        if !name_ok || !key_is(&keys[i], &d.key) {
            assert(ds[i as int] == desired@[i as int]@);
            assert(its[i as int] == existing@[i as int]@);
            proof {
                if already_matches(ds, its) {
                    assert(match ds[i as int].name {
                        Some(n) => its[i as int].name == n,
                        None => true,
                    });
                    assert(its[i as int].key == Some(ds[i as int].key));
                }
            }
            return false;
        }
        assert(ds[i as int] == desired@[i as int]@);
        assert(its[i as int] == existing@[i as int]@);
        i = i + 1;
    }
    true
}

fn key_managed(desired: &Vec<DesiredEntry>, key: &Option<String>) -> (r: bool)
    ensures
        r == managed_key(desired_views(desired@), key.deep_view()),
{
    let ghost ds = desired_views(desired@);
    let mut j: usize = 0;
    while j < desired.len()
        invariant
            ds == desired_views(desired@),
            j <= desired@.len(),
            forall|k: int| 0 <= k < j ==> key.deep_view() != Some(#[trigger] ds[k].key),
        decreases desired.len() - j,
    {
        if key_is(key, &desired[j].key) {
            assert(ds[j as int] == desired@[j as int]@);
            assert(key.deep_view() == Some(ds[j as int].key));
            return true;
        }
        assert(ds[j as int] == desired@[j as int]@);
        j = j + 1;
    }
    false
}

fn key_present(keys: &Vec<Option<String>>, existing: &Vec<ListedItem>, k: &String) -> (r: bool)
    requires
        keys@.len() == existing@.len(),
        forall|i: int| 0 <= i < existing@.len() ==> #[trigger] keys@[i].deep_view() == existing@[i]@.key,
    ensures
        r == present(item_views(existing@), k@),
{
    let ghost its = item_views(existing@);
    let mut i: usize = 0;
    while i < keys.len()
        invariant
            its == item_views(existing@),
            keys@.len() == existing@.len(),
            forall|x: int| 0 <= x < existing@.len() ==> #[trigger] keys@[x].deep_view() == existing@[x]@.key,
            i <= keys@.len(),
            forall|x: int| 0 <= x < i ==> #[trigger] its[x].key != Some(k@),
        decreases keys.len() - i,
    {
        if key_is(&keys[i], k) {
            assert(its[i as int] == existing@[i as int]@);
            return true;
        }
        assert(its[i as int] == existing@[i as int]@);
        i = i + 1;
    }
    false
}


fn matched_action(d: &DesiredEntry) -> (out: SyncAction)
    ensures
        out@ == matched_line(d@),
{
    SyncAction {
        action: "unchanged".to_owned(),
        name: entry_display_name(d),
        path: Some(copy_string(&d.path)),
        reason: Some("Already matches target state".to_owned()),
    }
}

fn removal_action(info: &SidebarItemInfo, item: &ListedItem, dry_run: bool) -> (out: SyncAction)
    requires
        *info == item.info,
    ensures
        out@ == removal_line(item@, dry_run),
{
    SyncAction {
        action: if dry_run { "remove".to_owned() } else { "removed".to_owned() },
        name: copy_string(&info.name),
        path: copy_opt_string(&info.path),
        reason: Some("Unmanaged item".to_owned()),
    }
}

fn entry_action(d: &DesiredEntry, is_present: bool, dry_run: bool, Ghost(its): Ghost<Seq<ItemView>>) -> (out: SyncAction)
    requires
        is_present == present(its, d@.key),
    ensures
        out@ == entry_line(d@, its, dry_run),
{
    if is_present {
        SyncAction {
            action: if dry_run { "preserve".to_owned() } else { "unchanged".to_owned() },
            name: entry_display_name(d),
            path: Some(copy_string(&d.path)),
            reason: Some("Item already exists".to_owned()),
        }
    } else {
        SyncAction {
            action: if dry_run { "add".to_owned() } else { "added".to_owned() },
            name: entry_display_name(d),
            path: Some(copy_string(&d.path)),
            reason: Some("Missing from sidebar".to_owned()),
        }
    }
}

proof fn lemma_views_push<T: View>(v: Seq<T>, x: T)
    ensures
        v.push(x).map_values(|a: T| a@) == v.map_values(|a: T| a@).push(x@),
{
    assert(v.push(x).map_values(|a: T| a@) =~= v.map_values(|a: T| a@).push(x@));
}

/// Plans a declarative sync of the sidebar with the entries of `config`
/// (whose path facts are `facts`, one per entry), given the items the sidebar
/// holds now (`existing`). When the sidebar already matches, nothing changes
/// and every entry is reported unchanged. Otherwise unmanaged items are
/// removed (unless `keep_unmanaged`), entries missing from the sidebar are
/// appended, present ones are kept in place, and the items are then put in
/// declared order. A dry run reports the same plan and changes nothing.
pub fn sync_favorites(
    config: &FindbarConfig,
    facts: &Vec<EntryFacts>,
    existing: &Vec<ListedItem>,
    dry_run: bool,
) -> (plan: SyncPlan)
    requires
        facts@.len() == config.items@.len(),
    ensures
        desired_views(plan.desired@) == desired_of(config.items@, facts@),
        plan.report.action_views() == report_lines(
            desired_views(plan.desired@),
            item_views(existing@),
            config.keep_unmanaged,
            dry_run,
        ),
        change_views(plan.changes@) == planned_changes(
            desired_views(plan.desired@),
            item_views(existing@),
            config.keep_unmanaged,
            dry_run,
        ),
        already_matches(desired_views(plan.desired@), item_views(existing@)) ==> {
            &&& plan.report.added == 0
            &&& plan.report.removed == 0
            &&& plan.report.unchanged == config.items@.len()
        },
        !already_matches(desired_views(plan.desired@), item_views(existing@)) ==> {
            &&& plan.report.added == missing_count(desired_views(plan.desired@), item_views(existing@))
            &&& plan.report.unchanged == config.items@.len() - plan.report.added
            &&& plan.report.removed == if config.keep_unmanaged {
                0
            } else {
                unmanaged_count(desired_views(plan.desired@), item_views(existing@))
            }
        },
        plan.report.reordered == 0,
        plan.reorder == (!already_matches(desired_views(plan.desired@), item_views(existing@))
            && !dry_run && config.items@.len() > 0),
{
    let desired = prepare_entries(config, facts);
    let keys = item_keys(existing);
    let ghost ds = desired_views(desired@);
    let ghost its = item_views(existing@);
    let mut actions: Vec<SyncAction> = Vec::new();
    let mut changes: Vec<SidebarChange> = Vec::new();

    if is_exact_match(&desired, &keys, existing) {
        let mut i: usize = 0;
        while i < desired.len()
            invariant
                ds == desired_views(desired@),
                i <= desired@.len(),
                actions@.map_values(|a: SyncAction| a@) == Seq::new(
                    i as nat,
                    |k: int| matched_line(ds[k]),
                ),
            decreases desired.len() - i,
        {
            let a = matched_action(&desired[i]);
            proof {
                lemma_views_push(actions@, a);
                assert(ds[i as int] == desired@[i as int]@);
                assert(Seq::new((i + 1) as nat, |k: int| matched_line(ds[k])) =~= Seq::new(
                    i as nat,
                    |k: int| matched_line(ds[k]),
                ).push(matched_line(ds[i as int])));
            }
            actions.push(a);
            i = i + 1;
        }
        let report = SyncReport {
            added: 0,
            removed: 0,
            reordered: 0,
            unchanged: desired.len(),
            actions,
        };
        assert(change_views(changes@) =~= Seq::<ChangeView>::empty());
        return SyncPlan { report, changes, reorder: false, desired };
    }

    let mut removed: usize = 0;
    if !config.keep_unmanaged {
        let mut i: usize = 0;
        assert(its.take(0) =~= Seq::<ItemView>::empty());
        while i < existing.len()
            invariant
                its == item_views(existing@),
                ds == desired_views(desired@),
                keys@.len() == existing@.len(),
                forall|x: int| 0 <= x < existing@.len() ==> #[trigger] keys@[x].deep_view() == existing@[x]@.key,
                i <= existing@.len(),
                removed <= i,
                removed == unmanaged_count(ds, its.take(i as int)),
                actions@.map_values(|a: SyncAction| a@) == removal_lines(ds, its.take(i as int), dry_run),
                change_views(changes@) == if dry_run {
                    Seq::empty()
                } else {
                    removal_changes(ds, its.take(i as int))
                },
            decreases existing.len() - i,
        {
            proof {
                assert(its.take(i + 1).drop_last() =~= its.take(i as int));
                assert(its.take(i + 1).last() == existing@[i as int]@);
                assert(its.take(i + 1).len() == i + 1);
            }
            let managed = key_managed(&desired, &keys[i]);
            if !managed {
                if !dry_run {
                    let c = SidebarChange::Remove { index: i };
                    proof {
                        lemma_views_push(changes@, c);
                    }
                    changes.push(c);
                }
                let a = removal_action(&existing[i].info, &existing[i], dry_run);
                proof {
                    lemma_views_push(actions@, a);
                }
                actions.push(a);
                removed = removed + 1;
            }
            i = i + 1;
        }
        assert(its.take(existing@.len() as int) =~= its);
    } else {
        assert(actions@.map_values(|a: SyncAction| a@) =~= Seq::<ActionView>::empty());
        assert(change_views(changes@) =~= Seq::<ChangeView>::empty());
    }

    let ghost base_actions = actions@.map_values(|a: SyncAction| a@);
    let ghost base_changes = change_views(changes@);
    let mut added: usize = 0;
    let mut unchanged: usize = 0;
    let mut j: usize = 0;
    assert(ds.take(0) =~= Seq::<DesiredView>::empty());
    assert(base_actions =~= base_actions + Seq::new(0, |k: int| entry_line(ds[k], its, dry_run)));
    assert(base_changes =~= base_changes + Seq::<ChangeView>::empty());
    while j < desired.len()
        invariant
            its == item_views(existing@),
            ds == desired_views(desired@),
            keys@.len() == existing@.len(),
            forall|x: int| 0 <= x < existing@.len() ==> #[trigger] keys@[x].deep_view() == existing@[x]@.key,
            j <= desired@.len(),
            added <= j,
            added == missing_count(ds.take(j as int), its),
            unchanged == j - added,
            actions@.map_values(|a: SyncAction| a@) == base_actions + Seq::new(
                j as nat,
                |k: int| entry_line(ds[k], its, dry_run),
            ),
            change_views(changes@) == base_changes + if dry_run {
                Seq::empty()
            } else {
                append_changes(ds.take(j as int), its)
            },
        decreases desired.len() - j,
    {
        let d = &desired[j];
        proof {
            assert(ds.take(j + 1).drop_last() =~= ds.take(j as int));
            assert(ds.take(j + 1).last() == d@);
            assert(ds[j as int] == d@);
        }
        let is_present = key_present(&keys, existing, &d.key);
        if !is_present {
            if !dry_run {
                let c = SidebarChange::Append { name: copy_opt_string(&d.name), path: copy_string(&d.path) };
                proof {
                    lemma_views_push(changes@, c);
                }
                changes.push(c);
            }
            added = added + 1;
        } else {
            unchanged = unchanged + 1;
        }
        let a = entry_action(d, is_present, dry_run, Ghost(its));
        proof {
            lemma_views_push(actions@, a);
            assert(Seq::new((j + 1) as nat, |k: int| entry_line(ds[k], its, dry_run)) =~= Seq::new(
                j as nat,
                |k: int| entry_line(ds[k], its, dry_run),
            ).push(entry_line(ds[j as int], its, dry_run)));
        }
        actions.push(a);
        j = j + 1;
        proof {
            assert(change_views(changes@) =~= base_changes + if dry_run {
                Seq::empty()
            } else {
                append_changes(ds.take(j as int), its)
            });
        }
    }
    assert(ds.take(desired@.len() as int) =~= ds);
    let reorder = !dry_run && desired.len() > 0;
    let report = SyncReport { added, removed, reordered: 0, unchanged, actions };
    SyncPlan { report, changes, reorder, desired }
}


// ---------------------------------------------------------------------------
// Declared order
// ---------------------------------------------------------------------------

/// `i` is the first item whose path has key `k`.
pub open spec fn is_first_with_key(its: Seq<ItemView>, k: Seq<char>, i: int) -> bool {
    &&& 0 <= i < its.len()
    &&& its[i].key == Some(k)
    &&& forall|j: int| 0 <= j < i ==> #[trigger] its[j].key != Some(k)
}

/// The first item whose path has key `k`, if any.
pub open spec fn first_with_key(its: Seq<ItemView>, k: Seq<char>) -> Option<int> {
    if present(its, k) {
        Some(choose|i: int| is_first_with_key(its, k, i))
    } else {
        None
    }
}

proof fn lemma_first_with_key(its: Seq<ItemView>, k: Seq<char>, i: int)
    requires
        is_first_with_key(its, k, i),
    ensures
        first_with_key(its, k) == Some(i),
{
    assert(present(its, k));
    let c = choose|c: int| is_first_with_key(its, k, c);
    if c < i {
        assert(its[c].key != Some(k));
    } else if i < c {
        assert(its[i].key != Some(k));
    }
}

proof fn lemma_no_key(its: Seq<ItemView>, k: Seq<char>)
    requires
        forall|j: int| 0 <= j < its.len() ==> #[trigger] its[j].key != Some(k),
    ensures
        first_with_key(its, k) is None,
{
}

/// For each entry in declared order, the first item at its path (entries with
/// no such item are skipped).
pub open spec fn ordered_items(ds: Seq<DesiredView>, its: Seq<ItemView>) -> Seq<int>
    decreases ds.len(),
{
    if ds.len() == 0 {
        Seq::empty()
    } else {
        let prev = ordered_items(ds.drop_last(), its);
        match first_with_key(its, ds.last().key) {
            Some(i) => prev.push(i),
            None => prev,
        }
    }
}

/// A move of one item of the sidebar.
#[derive(Debug, PartialEq, Eq)]
pub enum Move {
    /// Move the listed item at `item` to the very beginning.
    ToBeginning { item: usize },
    /// Move the listed item at `item` to just after the one at `anchor`.
    After { item: usize, anchor: usize },
}

/// A `Move` with positions as integers.
pub enum MoveView {
    ToBeginning { item: int },
    After { item: int, anchor: int },
}

impl View for Move {
    type V = MoveView;

    open spec fn view(&self) -> MoveView {
        match self {
            Move::ToBeginning { item } => MoveView::ToBeginning { item: *item as int },
            Move::After { item, anchor } => MoveView::After {
                item: *item as int,
                anchor: *anchor as int,
            },
        }
    }
}

/// The views of a list of moves.
pub open spec fn move_views(v: Seq<Move>) -> Seq<MoveView> {
    v.map_values(|m: Move| m@)
}

/// The moves that put the sidebar in declared order: the first ordered item
/// goes to the beginning unless the sidebar already starts with an item of
/// its id; each next ordered item then goes right after the one before it.
pub open spec fn planned_moves(ds: Seq<DesiredView>, its: Seq<ItemView>) -> Seq<MoveView> {
    let o = ordered_items(ds, its);
    if o.len() == 0 {
        Seq::empty()
    } else {
        (if its[0].id != its[o[0]].id {
            seq![MoveView::ToBeginning { item: o[0] }]
        } else {
            Seq::empty()
        }) + Seq::new((o.len() - 1) as nat, |j: int| MoveView::After { item: o[j + 1], anchor: o[j] })
    }
}

proof fn lemma_ordered_bounds(ds: Seq<DesiredView>, its: Seq<ItemView>)
    ensures
        ordered_items(ds, its).len() <= ds.len(),
        forall|j: int|
            0 <= j < ordered_items(ds, its).len() ==> 0 <= #[trigger] ordered_items(ds, its)[j] < its.len(),
    decreases ds.len(),
{
    if ds.len() > 0 {
        lemma_ordered_bounds(ds.drop_last(), its);
        let k = ds.last().key;
        if present(its, k) {
            let i = choose|i: int| 0 <= i < its.len() && #[trigger] its[i].key == Some(k);
            lemma_first_exists(its, k, i);
        }
    }
}

pub proof fn lemma_first_exists(its: Seq<ItemView>, k: Seq<char>, i: int)
    requires
        0 <= i < its.len(),
        its[i].key == Some(k),
    ensures
        exists|c: int| is_first_with_key(its, k, c),
    decreases i,
{
    if exists|j: int| 0 <= j < i && #[trigger] its[j].key == Some(k) {
        let j = choose|j: int| 0 <= j < i && #[trigger] its[j].key == Some(k);
        lemma_first_exists(its, k, j);
    } else {
        assert(is_first_with_key(its, k, i));
    }
}

/// The moves that put the sidebar, as it now is (`current`), in the order
/// that `desired` declares.
pub fn order_favorites(desired: &Vec<DesiredEntry>, current: &Vec<ListedItem>) -> (moves: Vec<Move>)
    ensures
        move_views(moves@) == planned_moves(desired_views(desired@), item_views(current@)),
{
    let ghost ds = desired_views(desired@);
    let ghost its = item_views(current@);
    let keys = item_keys(current);
    let mut ordered: Vec<usize> = Vec::new();
    let mut j: usize = 0;
    assert(ds.take(0) =~= Seq::<DesiredView>::empty());
    while j < desired.len()
        invariant
            ds == desired_views(desired@),
            its == item_views(current@),
            keys@.len() == current@.len(),
            forall|x: int| 0 <= x < current@.len() ==> #[trigger] keys@[x].deep_view() == current@[x]@.key,
            j <= desired@.len(),
            ordered@.map_values(|i: usize| i as int) == ordered_items(ds.take(j as int), its),
        decreases desired.len() - j,
    {
        let k = &desired[j].key;
        proof {
            assert(ds.take(j + 1).drop_last() =~= ds.take(j as int));
            assert(ds.take(j + 1).last() == desired@[j as int]@);
        }
        let mut i: usize = 0;
        let mut found = false;
        while i < keys.len()
            invariant_except_break
                !found,
            invariant
                its == item_views(current@),
                keys@.len() == current@.len(),
                forall|x: int| 0 <= x < current@.len() ==> #[trigger] keys@[x].deep_view() == current@[x]@.key,
                i <= keys@.len(),
                forall|x: int| 0 <= x < i ==> #[trigger] its[x].key != Some(k@),
            ensures
                i <= keys@.len(),
                forall|x: int| 0 <= x < i ==> #[trigger] its[x].key != Some(k@),
                found ==> i < keys@.len() && its[i as int].key == Some(k@),
                !found ==> i == keys@.len(),
            decreases keys.len() - i,
        {
            if key_is(&keys[i], k) {
                assert(its[i as int] == current@[i as int]@);
                found = true;
                break;
            }
            assert(its[i as int] == current@[i as int]@);
            i = i + 1;
        }
        if found {
            proof {
                lemma_first_with_key(its, k@, i as int);
                assert(ordered@.push(i).map_values(|x: usize| x as int) =~= ordered@.map_values(
                    |x: usize| x as int,
                ).push(i as int));
            }
            ordered.push(i);
        } else {
            proof {
                lemma_no_key(its, k@);
            }
        }
        j = j + 1;
    }
    assert(ds.take(desired@.len() as int) =~= ds);
    let ghost o = ordered_items(ds, its);
    proof {
        lemma_ordered_bounds(ds, its);
    }
    let mut moves: Vec<Move> = Vec::new();
    if ordered.len() == 0 {
        assert(move_views(moves@) =~= planned_moves(ds, its));
        return moves;
    }
    assert(o[0] == ordered@[0] as int);
    let first = ordered[0];
    if current[0].info.id != current[first].info.id {
        moves.push(Move::ToBeginning { item: first });
    }
    let ghost head = move_views(moves@);
    assert(head == (if its[0].id != its[o[0]].id {
        seq![MoveView::ToBeginning { item: o[0] }]
    } else {
        Seq::empty()
    })) by {
        assert(its[0] == current@[0]@);
        assert(its[o[0]] == current@[o[0]]@);
        assert(move_views(moves@) =~= (if its[0].id != its[o[0]].id {
            seq![MoveView::ToBeginning { item: o[0] }]
        } else {
            Seq::empty()
        }));
    }
    let mut m: usize = 1;
    while m < ordered.len()
        invariant
            o == ordered@.map_values(|x: usize| x as int),
            1 <= m <= ordered@.len(),
            move_views(moves@) == head + Seq::new(
                (m - 1) as nat,
                |j: int| MoveView::After { item: o[j + 1], anchor: o[j] },
            ),
        decreases ordered.len() - m,
    {
        let mv = Move::After { item: ordered[m], anchor: ordered[m - 1] };
        proof {
            lemma_views_push(moves@, mv);
            assert(Seq::new(m as nat, |j: int| MoveView::After { item: o[j + 1], anchor: o[j] })
                =~= Seq::new((m - 1) as nat, |j: int| MoveView::After { item: o[j + 1], anchor: o[j] }).push(
                MoveView::After { item: o[m as int], anchor: o[m - 1] },
            ));
        }
        moves.push(mv);
        m = m + 1;
    }
    moves
}


// ---------------------------------------------------------------------------
// What moves do to the order of the sidebar
// ---------------------------------------------------------------------------

/// `list` without any occurrence of `x`.
pub open spec fn without(list: Seq<int>, x: int) -> Seq<int>
    decreases list.len(),
{
    if list.len() == 0 {
        list
    } else if list.last() == x {
        without(list.drop_last(), x)
    } else {
        without(list.drop_last(), x).push(list.last())
    }
}

/// `list` without any element of `xs`.
pub open spec fn without_all(list: Seq<int>, xs: Seq<int>) -> Seq<int>
    decreases list.len(),
{
    if list.len() == 0 {
        list
    } else if xs.contains(list.last()) {
        without_all(list.drop_last(), xs)
    } else {
        without_all(list.drop_last(), xs).push(list.last())
    }
}

/// `list` with `x` right after the first occurrence of `anchor` (at the end
/// when `anchor` does not occur).
pub open spec fn insert_after(list: Seq<int>, anchor: int, x: int) -> Seq<int>
    decreases list.len(),
{
    if list.len() == 0 {
        seq![x]
    } else if list[0] == anchor {
        seq![anchor, x] + list.skip(1)
    } else {
        seq![list[0]] + insert_after(list.skip(1), anchor, x)
    }
}

/// The order of the sidebar's items (as positions in the listing the moves
/// were planned on) after a move: to the beginning, or to just after another
/// item; moving an item after itself leaves the order as it is.
pub open spec fn apply_move(list: Seq<int>, m: MoveView) -> Seq<int> {
    match m {
        MoveView::ToBeginning { item } => seq![item] + without(list, item),
        MoveView::After { item, anchor } => if item == anchor {
            list
        } else {
            insert_after(without(list, item), anchor, item)
        },
    }
}

/// The order after a series of moves, made one after the other.
pub open spec fn apply_moves(list: Seq<int>, ms: Seq<MoveView>) -> Seq<int>
    decreases ms.len(),
{
    if ms.len() == 0 {
        list
    } else {
        apply_move(apply_moves(list, ms.drop_last()), ms.last())
    }
}

/// The listing's own order: position `i` holds item `i`.
pub open spec fn listing_order(n: nat) -> Seq<int> {
    Seq::new(n, |i: int| i)
}

} // verus!
