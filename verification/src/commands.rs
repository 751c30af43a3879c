//! The rules of the command line that do not touch Finder or the terminal:
//! which position the `add` flags select, how a report line is classified,
//! what an exported configuration holds, where a listed item points, and
//! which answer confirms removing every favorite.

use vstd::prelude::*;
use crate::model::{FindbarConfig, InsertPosition, SidebarEntry, SidebarItemInfo};
use crate::text::{chars_of, copy_opt_string, copy_string, str_equal, string_of_range};

verus! {

/// The position that the `add` flags select: `--beginning` wins, then
/// `--before`, then `--after`; without any, the end.
pub fn insert_position(beginning: bool, before: Option<String>, after: Option<String>) -> (out:
    InsertPosition)
    ensures
        beginning ==> out == InsertPosition::Beginning,
        !beginning && before is Some ==> out == InsertPosition::Before(before->0),
        !beginning && before is None && after is Some ==> out == InsertPosition::After(after->0),
        !beginning && before is None && after is None ==> out == InsertPosition::End,
{
    if beginning {
        InsertPosition::Beginning
    } else if let Some(b) = before {
        InsertPosition::Before(b)
    } else if let Some(a) = after {
        InsertPosition::After(a)
    } else {
        InsertPosition::End
    }
}

/// What a report line says was (or would be) done.
#[derive(Debug, Clone, Copy, PartialEq, Eq)]
pub enum ActionKind {
    Added,
    Removed,
    Reordered,
    Unchanged,
    Other,
}

/// The kind of a report line's action label, dry-run labels included.
pub open spec fn kind_of(action: Seq<char>) -> ActionKind {
    if action == "added"@ || action == "add"@ {
        ActionKind::Added
    } else if action == "removed"@ || action == "remove"@ {
        ActionKind::Removed
    } else if action == "reordered"@ {
        ActionKind::Reordered
    } else if action == "unchanged"@ || action == "preserve"@ {
        ActionKind::Unchanged
    } else {
        ActionKind::Other
    }
}

/// Classifies a report line's action label.
pub fn action_kind(action: &str) -> (out: ActionKind)
    ensures
        out == kind_of(action@),
{
    if str_equal(action, "added") || str_equal(action, "add") {
        ActionKind::Added
    } else if str_equal(action, "removed") || str_equal(action, "remove") {
        ActionKind::Removed
    } else if str_equal(action, "reordered") {
        ActionKind::Reordered
    } else if str_equal(action, "unchanged") || str_equal(action, "preserve") {
        ActionKind::Unchanged
    } else {
        ActionKind::Other
    }
}

/// The entry that exports an item: its name, and its path (`~` when it has none).
pub open spec fn exported_entry(it: SidebarItemInfo) -> (Option<Seq<char>>, Seq<char>) {
    (
        Some(it.name@),
        match it.path {
            Some(p) => p@,
            None => "~"@,
        },
    )
}

/// The configuration that reproduces the sidebar: one named entry per item.
pub fn export_config(items: &[SidebarItemInfo], keep_unmanaged: bool) -> (out: FindbarConfig)
    ensures
        out.keep_unmanaged == keep_unmanaged,
        out.items@.len() == items@.len(),
        forall|i: int|
            0 <= i < items@.len() ==> (#[trigger] out.items@[i].name.deep_view(), out.items@[i].path@)
                == exported_entry(items@[i]),
{
    let mut entries: Vec<SidebarEntry> = Vec::new();
    let mut i: usize = 0;
    while i < items.len()
        invariant
            i <= items@.len(),
            entries@.len() == i,
            forall|j: int|
                0 <= j < i ==> (#[trigger] entries@[j].name.deep_view(), entries@[j].path@)
                    == exported_entry(items@[j]),
        decreases items.len() - i,
    {
        let it = &items[i];
        let path = match &it.path {
            Some(p) => copy_string(p),
            None => "~".to_owned(),
        };
        entries.push(SidebarEntry { name: Some(copy_string(&it.name)), path });
        i = i + 1;
    }
    FindbarConfig { items: entries, keep_unmanaged }
}

/// Where a listed item points: its path, else its URL, else `(unresolved)`.
pub fn item_location(item: &SidebarItemInfo) -> (out: String)
    ensures
        out@ == match item.path {
            Some(p) => p@,
            None => match item.url {
                Some(u) => u@,
                None => "(unresolved)"@,
            },
        },
{
    match &item.path {
        Some(p) => copy_string(p),
        None => match &item.url {
            Some(u) => copy_string(u),
            None => "(unresolved)".to_owned(),
        },
    }
}

/// A character with the Unicode White_Space property, as `char::is_whitespace` tests.
pub open spec fn is_white_space(c: char) -> bool {
    ('\u{9}' <= c <= '\u{d}') || c == ' ' || c == '\u{85}' || c == '\u{a0}' || c == '\u{1680}'
        || ('\u{2000}' <= c <= '\u{200a}') || c == '\u{2028}' || c == '\u{2029}' || c == '\u{202f}'
        || c == '\u{205f}' || c == '\u{3000}'
}

fn white_space(c: char) -> (r: bool)
    ensures
        r == is_white_space(c),
{
    ('\u{9}' <= c && c <= '\u{d}') || c == ' ' || c == '\u{85}' || c == '\u{a0}' || c == '\u{1680}'
        || ('\u{2000}' <= c && c <= '\u{200a}') || c == '\u{2028}' || c == '\u{2029}' || c
        == '\u{202f}' || c == '\u{205f}' || c == '\u{3000}'
}

/// `s` without leading and trailing white space (`str::trim`).
pub open spec fn trimmed(s: Seq<char>, start: int, end: int) -> bool {
    &&& 0 <= start <= end <= s.len()
    &&& forall|i: int| 0 <= i < start ==> is_white_space(#[trigger] s[i])
    &&& forall|i: int| end <= i < s.len() ==> is_white_space(#[trigger] s[i])
    &&& start < end ==> !is_white_space(s[start]) && !is_white_space(s[end - 1])
}

/// The answer to "remove ALL favorites? [y/N]" confirms: it is `y` or `Y`,
/// surrounded by any white space.
pub fn confirms_removal(answer: &str) -> (r: bool)
    ensures
        r == exists|start: int, end: int|
            trimmed(answer@, start, end) && (answer@.subrange(start, end) == seq!['y']
                || answer@.subrange(start, end) == seq!['Y']),
{
    let v = chars_of(answer);
    let mut start: usize = 0;
    while start < v.len() && white_space(v[start])
        invariant
            start <= v@.len(),
            forall|i: int| 0 <= i < start ==> is_white_space(#[trigger] v@[i]),
        decreases v.len() - start,
    {
        start = start + 1;
    }
    let mut end: usize = v.len();
    while end > start && white_space(v[end - 1])
        invariant
            start <= end <= v@.len(),
            forall|i: int| end <= i < v@.len() ==> is_white_space(#[trigger] v@[i]),
        decreases end - start,
    {
        end = end - 1;
    }
    assert(trimmed(v@, start as int, end as int));
    let r = end - start == 1 && (v[start] == 'y' || v[start] == 'Y');
    proof {
        let sub = v@.subrange(start as int, end as int);
        if r {
            assert(sub =~= seq![v@[start as int]]);
        }
        assert forall|s2: int, e2: int|
            trimmed(v@, s2, e2) && s2 < e2 implies s2 == start && e2 == end by {
            if s2 < start {
                assert(is_white_space(v@[s2]));
            }
            if start < s2 {
                assert(is_white_space(v@[start as int]));
            }
            if end < e2 {
                assert(is_white_space(v@[e2 - 1]));
            }
            if e2 < end {
                assert(is_white_space(v@[end - 1]));
            }
        }
        if exists|s2: int, e2: int|
            trimmed(v@, s2, e2) && (v@.subrange(s2, e2) == seq!['y'] || v@.subrange(s2, e2) == seq!['Y']) {
            let (s2, e2) = choose|s2: int, e2: int|
                trimmed(v@, s2, e2) && (v@.subrange(s2, e2) == seq!['y'] || v@.subrange(s2, e2) == seq!['Y']);
            assert(v@.subrange(s2, e2).len() == 1);
            assert(s2 == start && e2 == end);
            assert(sub[0] == v@[start as int]);
        }
    }
    r
}

} // verus!
