//! Properties of the sidebar decisions that span several calls or hold of
//! every input, proved from the contracts and definitions of `sidebar`.

use vstd::prelude::*;
use crate::sidebar::{
    add_outcome, already_matches, desired_of, desired_view, item_views, matched_line, EntryFacts,
    ListedItem, append_changes, apply_move, apply_moves, entry_line,
    display_name, first_with_key, insert_after, lemma_first_exists, lemma_first_unique_key, is_first_with_key,
    listing_order, managed_key, missing_count, names_item, AddOutcome,
    ordered_items, planned_changes, planned_moves, present, removal_changes,
    removal_lines, report_lines, unmanaged_count, without, without_all, AddFacts,
    ChangeView, DesiredView, ItemView, MoveView,
};
use crate::model::{ActionView, InsertPosition, SidebarEntry};
use crate::commands::exported_entry;
use crate::paths::{comparison_key, file_scheme, final_component, normalized, PathFacts};
use crate::text::{lowercase, starts_with};
use crate::text::trim_end;

verus! {

// ---------------------------------------------------------------------------
// Lists of positions
// ---------------------------------------------------------------------------

proof fn lemma_without_concat(a: Seq<int>, b: Seq<int>, x: int)
    ensures
        without(a + b, x) == without(a, x) + without(b, x),
    decreases b.len(),
{
    if b.len() == 0 {
        assert(a + b =~= a);
        assert(without(a, x) + without(b, x) =~= without(a, x));
    } else {
        assert((a + b).drop_last() =~= a + b.drop_last());
        assert((a + b).last() == b.last());
        lemma_without_concat(a, b.drop_last(), x);
        if b.last() != x {
            assert(without(a, x) + without(b.drop_last(), x).push(b.last()) =~= (without(a, x)
                + without(b.drop_last(), x)).push(b.last()));
        }
    }
}

proof fn lemma_without_absent(a: Seq<int>, x: int)
    requires
        !a.contains(x),
    ensures
        without(a, x) == a,
    decreases a.len(),
{
    if a.len() > 0 {
        assert(!a.drop_last().contains(x)) by {
            if a.drop_last().contains(x) {
                let k = choose|k: int| 0 <= k < a.drop_last().len() && a.drop_last()[k] == x;
                assert(a[k] == x);
            }
        }
        assert(a.last() != x) by {
            assert(a[a.len() - 1] == a.last());
        }
        lemma_without_absent(a.drop_last(), x);
        assert(a.drop_last().push(a.last()) =~= a);
    }
}

proof fn lemma_without_all_push(list: Seq<int>, xs: Seq<int>, x: int)
    ensures
        without_all(list, xs.push(x)) == without(without_all(list, xs), x),
    decreases list.len(),
{
    if list.len() > 0 {
        lemma_without_all_push(list.drop_last(), xs, x);
        let y = list.last();
        assert(xs.push(x).contains(y) <==> (xs.contains(y) || y == x)) by {
            if xs.push(x).contains(y) {
                let k = choose|k: int| 0 <= k < xs.push(x).len() && xs.push(x)[k] == y;
                if k < xs.len() {
                    assert(xs[k] == y);
                }
            }
            if xs.contains(y) {
                let k = choose|k: int| 0 <= k < xs.len() && xs[k] == y;
                assert(xs.push(x)[k] == y);
            }
            if y == x {
                assert(xs.push(x)[xs.len() as int] == y);
            }
        }
        if !xs.contains(y) {
            assert(without_all(list, xs).drop_last() =~= without_all(list.drop_last(), xs));
        }
    }
}

proof fn lemma_without_all_empty(list: Seq<int>)
    ensures
        without_all(list, Seq::empty()) == list,
    decreases list.len(),
{
    if list.len() > 0 {
        lemma_without_all_empty(list.drop_last());
        assert(list.drop_last().push(list.last()) =~= list);
    }
}

proof fn lemma_without_all_excludes(list: Seq<int>, xs: Seq<int>, y: int)
    requires
        xs.contains(y),
    ensures
        !without_all(list, xs).contains(y),
    decreases list.len(),
{
    if list.len() > 0 {
        lemma_without_all_excludes(list.drop_last(), xs, y);
        let prev = without_all(list.drop_last(), xs);
        if !xs.contains(list.last()) {
            assert(!prev.push(list.last()).contains(y)) by {
                if prev.push(list.last()).contains(y) {
                    let k = choose|k: int| 0 <= k < prev.push(list.last()).len() && prev.push(list.last())[k] == y;
                    if k < prev.len() {
                        assert(prev[k] == y);
                    }
                }
            }
        }
    }
}

proof fn lemma_insert_after_prefix(a: Seq<int>, b: Seq<int>, x: int)
    requires
        a.len() > 0,
        !a.drop_last().contains(a.last()),
    ensures
        insert_after(a + b, a.last(), x) == a.push(x) + b,
    decreases a.len(),
{
    let anchor = a.last();
    if a.len() == 1 {
        assert((a + b)[0] == anchor);
        assert((a + b).skip(1) =~= b);
        assert(seq![anchor, x] + b =~= a.push(x) + b);
    } else {
        assert(a[0] != anchor) by {
            assert(a.drop_last()[0] == a[0]);
        }
        let t = a.skip(1);
        assert((a + b).skip(1) =~= t + b);
        assert(t.last() == anchor);
        assert(!t.drop_last().contains(anchor)) by {
            if t.drop_last().contains(anchor) {
                let k = choose|k: int| 0 <= k < t.drop_last().len() && t.drop_last()[k] == anchor;
                assert(a.drop_last()[k + 1] == anchor);
            }
        }
        lemma_insert_after_prefix(t, b, x);
        assert((a + b)[0] == a[0]);
        assert(seq![a[0]] + (t.push(x) + b) =~= a.push(x) + b);
    }
}

proof fn lemma_apply_moves_step(list: Seq<int>, ms: Seq<MoveView>, t: int)
    requires
        0 <= t < ms.len(),
    ensures
        apply_moves(list, ms.take(t + 1)) == apply_move(apply_moves(list, ms.take(t)), ms[t]),
{
    assert(ms.take(t + 1).drop_last() =~= ms.take(t));
    assert(ms.take(t + 1).last() == ms[t]);
}

// ---------------------------------------------------------------------------
// The items put in order
// ---------------------------------------------------------------------------

proof fn lemma_first_with_key_is(its: Seq<ItemView>, k: Seq<char>)
    requires
        first_with_key(its, k) is Some,
    ensures
        is_first_with_key(its, k, first_with_key(its, k)->0),
{
    let i = choose|i: int| 0 <= i < its.len() && #[trigger] its[i].key == Some(k);
    lemma_first_exists(its, k, i);
}

/// Every ordered item is a listed item at the path of some entry, and no
/// item is ordered twice when the entries declare distinct paths.
proof fn lemma_ordered_facts(ds: Seq<DesiredView>, its: Seq<ItemView>)
    requires
        forall|a: int, b: int| 0 <= a < b < ds.len() ==> ds[a].key != ds[b].key,
    ensures
        forall|j: int|
            0 <= j < ordered_items(ds, its).len() ==> 0 <= #[trigger] ordered_items(ds, its)[j] < its.len(),
        forall|j: int|
            0 <= j < ordered_items(ds, its).len() ==> managed_key(ds, its[#[trigger] ordered_items(ds, its)[j]].key),
        forall|a: int, b: int|
            0 <= a < b < ordered_items(ds, its).len() ==> ordered_items(ds, its)[a] != ordered_items(
                ds,
                its,
            )[b],
    decreases ds.len(),
{
    if ds.len() > 0 {
        let pre = ds.drop_last();
        assert forall|a: int, b: int| 0 <= a < b < pre.len() implies pre[a].key != pre[b].key by {
            assert(pre[a] == ds[a] && pre[b] == ds[b]);
        }
        lemma_ordered_facts(pre, its);
        let prev = ordered_items(pre, its);
        let k = ds.last().key;
        let o = ordered_items(ds, its);
        assert forall|j: int| 0 <= j < prev.len() implies managed_key(ds, its[#[trigger] prev[j]].key) by {
            assert(managed_key(pre, its[prev[j]].key));
            let m = choose|m: int| 0 <= m < pre.len() && its[prev[j]].key == Some(#[trigger] pre[m].key);
            assert(pre[m] == ds[m]);
        }
        if first_with_key(its, k) is Some {
            lemma_first_with_key_is(its, k);
            let i = first_with_key(its, k)->0;
            assert(o == prev.push(i));
            assert(its[i].key == Some(ds[ds.len() - 1].key));
            assert forall|a: int, b: int| 0 <= a < b < o.len() implies o[a] != o[b] by {
                if b == prev.len() {
                    assert(managed_key(pre, its[prev[a]].key));
                    let m = choose|m: int| 0 <= m < pre.len() && its[prev[a]].key == Some(#[trigger] pre[m].key);
                    assert(pre[m] == ds[m]);
                    if prev[a] == i {
                        assert(ds[m].key == ds[ds.len() - 1].key);
                    }
                } else {
                    assert(o[a] == prev[a] && o[b] == prev[b]);
                }
            }
            assert forall|j: int| 0 <= j < o.len() implies managed_key(ds, its[#[trigger] o[j]].key) by {
                if j == prev.len() {
                    assert(its[o[j]].key == Some(ds[ds.len() - 1].key));
                } else {
                    assert(o[j] == prev[j]);
                }
            }
        } else {
            assert(o == prev);
        }
    }
}

/// With `o` the ordered items, the order after the first `k` of them are
/// placed is `o[..k]` followed by every other item in listing order.
proof fn lemma_order_prefix(ds: Seq<DesiredView>, its: Seq<ItemView>, k: int)
    requires
        forall|a: int, b: int| 0 <= a < b < ds.len() ==> ds[a].key != ds[b].key,
        forall|a: int, b: int| 0 <= a < b < its.len() ==> its[a].id != its[b].id,
        1 <= k <= ordered_items(ds, its).len(),
    ensures
        ({
            let o = ordered_items(ds, its);
            let h: int = if its[0].id != its[o[0]].id { 1 } else { 0 };
            apply_moves(listing_order(its.len()), planned_moves(ds, its).take(h + k - 1))
                == o.take(k) + without_all(listing_order(its.len()), o.take(k))
        }),
    decreases k,
{
    lemma_ordered_facts(ds, its);
    let o = ordered_items(ds, its);
    let l0 = listing_order(its.len());
    let ms = planned_moves(ds, its);
    let h: int = if its[0].id != its[o[0]].id { 1 } else { 0 };
    let head: Seq<MoveView> = if its[0].id != its[o[0]].id {
        seq![MoveView::ToBeginning { item: o[0] }]
    } else {
        Seq::empty()
    };
    let tail = Seq::new((o.len() - 1) as nat, |j: int| MoveView::After { item: o[j + 1], anchor: o[j] });
    assert(ms == head + tail);
    assert(o.take(1) =~= Seq::<int>::empty().push(o[0]));
    if k == 1 {
        lemma_without_all_push(l0, Seq::empty(), o[0]);
        lemma_without_all_empty(l0);
        if h == 1 {
            assert(ms.take(1) =~= seq![MoveView::ToBeginning { item: o[0] }]);
            let one = ms.take(1);
            assert(one.drop_last() =~= Seq::<MoveView>::empty());
            assert(apply_moves(l0, one.drop_last()) == l0);
            assert(apply_moves(l0, one) == apply_move(l0, one.last()));
            assert(o.take(1) + without(l0, o[0]) =~= seq![o[0]] + without(l0, o[0]));
        } else {
            assert(o[0] == 0) by {
                if o[0] != 0 {
                    assert(0 < o[0] < its.len());
                    assert(its[0].id != its[o[0]].id);
                }
            }
            assert(ms.take(0) =~= Seq::<MoveView>::empty());
            let rest = l0.skip(1);
            assert(l0 =~= seq![0int] + rest);
            assert(!rest.contains(0)) by {
                if rest.contains(0) {
                    let j = choose|j: int| 0 <= j < rest.len() && rest[j] == 0;
                    assert(rest[j] == l0[j + 1]);
                }
            }
            lemma_without_concat(seq![0int], rest, 0);
            lemma_without_absent(rest, 0);
            assert(without(seq![0int], 0) =~= Seq::<int>::empty()) by {
                assert(seq![0int].drop_last() =~= Seq::<int>::empty());
                assert(without(Seq::<int>::empty(), 0) == Seq::<int>::empty());
            }
            assert(o.take(1) + without(l0, 0) =~= l0);
        }
    } else {
        lemma_order_prefix(ds, its, k - 1);
        let t = h + k - 2;
        assert(0 <= t < ms.len());
        lemma_apply_moves_step(l0, ms, t);
        assert(ms[t] == tail[k - 2]);
        let item = o[k - 1];
        let anchor = o[k - 2];
        assert(item != anchor);
        let a = o.take(k - 1);
        let r = without_all(l0, a);
        assert(!a.contains(item)) by {
            if a.contains(item) {
                let j = choose|j: int| 0 <= j < a.len() && a[j] == item;
                assert(o[j] == item);
            }
        }
        lemma_without_concat(a, r, item);
        lemma_without_absent(a, item);
        lemma_without_all_push(l0, a, item);
        assert(a.push(item) =~= o.take(k));
        let r2 = without_all(l0, o.take(k));
        assert(a.last() == anchor);
        assert(!a.drop_last().contains(anchor)) by {
            if a.drop_last().contains(anchor) {
                let j = choose|j: int| 0 <= j < a.drop_last().len() && a.drop_last()[j] == anchor;
                assert(o[j] == anchor);
            }
        }
        lemma_insert_after_prefix(a, r2, item);
    }
}

/// Law: the moves that `order_favorites` plans put the sidebar in declared
/// order. When the entries declare distinct paths and the items have distinct
/// ids, making the moves one after the other leaves, first, the item of each
/// entry that is in the sidebar, in the order of the entries, and then every
/// other item in the order it had.
pub proof fn law_order_declared_first(ds: Seq<DesiredView>, its: Seq<ItemView>)
    requires
        forall|a: int, b: int| 0 <= a < b < ds.len() ==> ds[a].key != ds[b].key,
        forall|a: int, b: int| 0 <= a < b < its.len() ==> its[a].id != its[b].id,
    ensures
        apply_moves(listing_order(its.len()), planned_moves(ds, its)) == ordered_items(ds, its)
            + without_all(listing_order(its.len()), ordered_items(ds, its)),
{
    lemma_ordered_facts(ds, its);
    let o = ordered_items(ds, its);
    let l0 = listing_order(its.len());
    let ms = planned_moves(ds, its);
    if o.len() == 0 {
        lemma_without_all_empty(l0);
        assert(ms.len() == 0);
        assert(o =~= Seq::<int>::empty());
        assert(o + without_all(l0, o) =~= l0);
    } else {
        lemma_order_prefix(ds, its, o.len() as int);
        let h: int = if its[0].id != its[o[0]].id { 1 } else { 0 };
        assert(ms.len() == h + o.len() - 1);
        assert(ms.take(h + o.len() - 1) =~= ms);
        assert(o.take(o.len() as int) =~= o);
    }
}


// ---------------------------------------------------------------------------
// Synchronization
// ---------------------------------------------------------------------------

/// Law: a dry run changes nothing in the sidebar.
pub proof fn law_dry_run_changes_nothing(ds: Seq<DesiredView>, its: Seq<ItemView>, keep_unmanaged: bool)
    ensures
        planned_changes(ds, its, keep_unmanaged, true).len() == 0,
{
}

proof fn lemma_removal_lines_preview(ds: Seq<DesiredView>, its: Seq<ItemView>)
    ensures
        removal_lines(ds, its, true).len() == removal_lines(ds, its, false).len(),
        removal_lines(ds, its, true).len() == unmanaged_count(ds, its),
        forall|k: int|
            0 <= k < removal_lines(ds, its, true).len() ==> same_line_but_label(
                #[trigger] removal_lines(ds, its, true)[k],
                removal_lines(ds, its, false)[k],
            ),
    decreases its.len(),
{
    if its.len() > 0 {
        lemma_removal_lines_preview(ds, its.drop_last());
    }
}

/// Two report lines are about the same item, for the same reason; only the
/// action's label may differ.
pub open spec fn same_line_but_label(a: ActionView, b: ActionView) -> bool {
    a.name == b.name && a.path == b.path && a.reason == b.reason
}

/// Law: a dry run previews the real run: its report has as many lines, each
/// about the same item and for the same reason as the real run's; only the
/// labels differ ("remove", "add", "preserve" for "removed", "added",
/// "unchanged").
pub proof fn law_dry_run_previews(ds: Seq<DesiredView>, its: Seq<ItemView>, keep_unmanaged: bool)
    ensures
        report_lines(ds, its, keep_unmanaged, true).len() == report_lines(ds, its, keep_unmanaged, false).len(),
        forall|k: int|
            0 <= k < report_lines(ds, its, keep_unmanaged, true).len() ==> same_line_but_label(
                #[trigger] report_lines(ds, its, keep_unmanaged, true)[k],
                report_lines(ds, its, keep_unmanaged, false)[k],
            ),
{
    lemma_removal_lines_preview(ds, its);
    let dry = report_lines(ds, its, keep_unmanaged, true);
    let live = report_lines(ds, its, keep_unmanaged, false);
    if !already_matches(ds, its) {
        let rd: Seq<ActionView> = if keep_unmanaged { Seq::empty() } else { removal_lines(ds, its, true) };
        let rl: Seq<ActionView> = if keep_unmanaged { Seq::empty() } else { removal_lines(ds, its, false) };
        assert forall|k: int| 0 <= k < dry.len() implies same_line_but_label(#[trigger] dry[k], live[k]) by {
            if k < rd.len() {
                assert(dry[k] == rd[k] && live[k] == rl[k]);
            } else {
                assert(dry[k] == entry_line(ds[k - rd.len()], its, true));
                assert(live[k] == entry_line(ds[k - rl.len()], its, false));
            }
        }
    }
}

/// Law: the report has one line per counted item: the removed unmanaged
/// items (none when they are kept or the sidebar already matches), then one
/// per entry, of which the missing ones are added and the others unchanged.
pub proof fn law_report_counts(ds: Seq<DesiredView>, its: Seq<ItemView>, keep_unmanaged: bool, dry_run: bool)
    ensures
        already_matches(ds, its) ==> report_lines(ds, its, keep_unmanaged, dry_run).len() == ds.len(),
        !already_matches(ds, its) ==> report_lines(ds, its, keep_unmanaged, dry_run).len() == (if keep_unmanaged {
            0
        } else {
            unmanaged_count(ds, its)
        }) + missing_count(ds, its) + (ds.len() - missing_count(ds, its)),
        missing_count(ds, its) <= ds.len(),
{
    lemma_removal_lines_preview(ds, its);
    lemma_removal_lines_live(ds, its, dry_run);
    lemma_missing_count_bound(ds, its);
}

proof fn lemma_removal_lines_live(ds: Seq<DesiredView>, its: Seq<ItemView>, dry_run: bool)
    ensures
        removal_lines(ds, its, dry_run).len() == unmanaged_count(ds, its),
    decreases its.len(),
{
    if its.len() > 0 {
        lemma_removal_lines_live(ds, its.drop_last(), dry_run);
    }
}

proof fn lemma_missing_count_bound(ds: Seq<DesiredView>, its: Seq<ItemView>)
    ensures
        missing_count(ds, its) <= ds.len(),
    decreases ds.len(),
{
    if ds.len() > 0 {
        lemma_missing_count_bound(ds.drop_last(), its);
    }
}

proof fn lemma_removal_changes(ds: Seq<DesiredView>, its: Seq<ItemView>)
    ensures
        forall|k: int|
            0 <= k < removal_changes(ds, its).len() ==> (#[trigger] removal_changes(ds, its)[k] matches ChangeView::Remove { index }
                && 0 <= index < its.len() && !managed_key(ds, its[index].key)),
        forall|i: int|
            0 <= i < its.len() && !managed_key(ds, #[trigger] its[i].key) ==> removal_changes(ds, its).contains(
                ChangeView::Remove { index: i },
            ),
    decreases its.len(),
{
    if its.len() > 0 {
        let pre = its.drop_last();
        lemma_removal_changes(ds, pre);
        let prev = removal_changes(ds, pre);
        let cur = removal_changes(ds, its);
        assert forall|k: int| 0 <= k < cur.len() implies (#[trigger] cur[k] matches ChangeView::Remove { index }
            && 0 <= index < its.len() && !managed_key(ds, its[index].key)) by {
            if k < prev.len() {
                assert(cur[k] == prev[k]);
                if let ChangeView::Remove { index } = prev[k] {
                    assert(pre[index] == its[index]);
                }
            }
        }
        assert forall|i: int| 0 <= i < its.len() && !managed_key(ds, #[trigger] its[i].key) implies cur.contains(
            ChangeView::Remove { index: i },
        ) by {
            if i < pre.len() {
                assert(pre[i] == its[i]);
                let k = choose|k: int| 0 <= k < prev.len() && prev[k] == ChangeView::Remove { index: i };
                assert(cur[k] == prev[k]);
            } else {
                assert(cur[cur.len() - 1] == ChangeView::Remove { index: i });
            }
        }
    }
}

proof fn lemma_append_changes(ds: Seq<DesiredView>, its: Seq<ItemView>)
    ensures
        forall|k: int|
            0 <= k < append_changes(ds, its).len() ==> (#[trigger] append_changes(ds, its)[k] matches ChangeView::Append { name, path }
                && exists|j: int| 0 <= j < ds.len() && ds[j].name == name && ds[j].path == path
                    && !present(its, #[trigger] ds[j].key)),
        forall|j: int|
            0 <= j < ds.len() && !present(its, #[trigger] ds[j].key) ==> append_changes(ds, its).contains(
                ChangeView::Append { name: ds[j].name, path: ds[j].path },
            ),
    decreases ds.len(),
{
    if ds.len() > 0 {
        let pre = ds.drop_last();
        lemma_append_changes(pre, its);
        let prev = append_changes(pre, its);
        let cur = append_changes(ds, its);
        assert forall|k: int| 0 <= k < cur.len() implies (#[trigger] cur[k] matches ChangeView::Append { name, path }
            && exists|j: int| 0 <= j < ds.len() && ds[j].name == name && ds[j].path == path
                && !present(its, #[trigger] ds[j].key)) by {
            if k < prev.len() {
                assert(cur[k] == prev[k]);
                if let ChangeView::Append { name, path } = prev[k] {
                    let j = choose|j: int| 0 <= j < pre.len() && pre[j].name == name && pre[j].path == path
                        && !present(its, #[trigger] pre[j].key);
                    assert(pre[j] == ds[j]);
                }
            } else {
                assert(ds[ds.len() - 1] == ds.last());
            }
        }
        assert forall|j: int| 0 <= j < ds.len() && !present(its, #[trigger] ds[j].key) implies cur.contains(
            ChangeView::Append { name: ds[j].name, path: ds[j].path },
        ) by {
            if j < pre.len() {
                assert(pre[j] == ds[j]);
                let k = choose|k: int| 0 <= k < prev.len() && prev[k] == ChangeView::Append { name: pre[j].name, path: pre[j].path };
                assert(cur[k] == prev[k]);
            } else {
                assert(cur[cur.len() - 1] == ChangeView::Append { name: ds[j].name, path: ds[j].path });
            }
        }
    }
}

/// Law: a sync is non-destructive and duplicate-free. It removes only items
/// whose path no entry declares, and appends only entries whose path no item
/// is at; with unmanaged items kept, it removes nothing.
pub proof fn law_sync_changes_are_safe(ds: Seq<DesiredView>, its: Seq<ItemView>, keep_unmanaged: bool, dry_run: bool)
    ensures
        forall|k: int|
            0 <= k < planned_changes(ds, its, keep_unmanaged, dry_run).len() ==> match #[trigger] planned_changes(
                ds,
                its,
                keep_unmanaged,
                dry_run,
            )[k] {
                ChangeView::Remove { index } => !keep_unmanaged && 0 <= index < its.len() && !managed_key(
                    ds,
                    its[index].key,
                ),
                ChangeView::Append { name, path } => exists|j: int|
                    0 <= j < ds.len() && ds[j].name == name && ds[j].path == path && !present(
                        its,
                        #[trigger] ds[j].key,
                    ),
            },
{
    lemma_removal_changes(ds, its);
    lemma_append_changes(ds, its);
    let cs = planned_changes(ds, its, keep_unmanaged, dry_run);
    if !(already_matches(ds, its) || dry_run) {
        let r: Seq<ChangeView> = if keep_unmanaged { Seq::empty() } else { removal_changes(ds, its) };
        let a = append_changes(ds, its);
        assert forall|k: int| 0 <= k < cs.len() implies match #[trigger] cs[k] {
            ChangeView::Remove { index } => !keep_unmanaged && 0 <= index < its.len() && !managed_key(ds, its[index].key),
            ChangeView::Append { name, path } => exists|j: int|
                0 <= j < ds.len() && ds[j].name == name && ds[j].path == path && !present(its, #[trigger] ds[j].key),
        } by {
            if k < r.len() {
                assert(cs[k] == r[k]);
            } else {
                assert(cs[k] == a[k - r.len()]);
            }
        }
    }
}

/// Law: unless the sidebar already matches or the run is dry, a sync removes
/// every item whose path no entry declares (when unmanaged items are not
/// kept) and appends every entry whose path no item is at.
pub proof fn law_sync_changes_are_complete(ds: Seq<DesiredView>, its: Seq<ItemView>, keep_unmanaged: bool)
    requires
        !already_matches(ds, its),
    ensures
        !keep_unmanaged ==> forall|i: int|
            0 <= i < its.len() && !managed_key(ds, #[trigger] its[i].key) ==> planned_changes(
                ds,
                its,
                keep_unmanaged,
                false,
            ).contains(ChangeView::Remove { index: i }),
        forall|j: int|
            0 <= j < ds.len() && !present(its, #[trigger] ds[j].key) ==> planned_changes(
                ds,
                its,
                keep_unmanaged,
                false,
            ).contains(ChangeView::Append { name: ds[j].name, path: ds[j].path }),
{
    lemma_removal_changes(ds, its);
    lemma_append_changes(ds, its);
    let cs = planned_changes(ds, its, keep_unmanaged, false);
    let r: Seq<ChangeView> = if keep_unmanaged { Seq::empty() } else { removal_changes(ds, its) };
    let a = append_changes(ds, its);
    assert(cs == r + a);
    if !keep_unmanaged {
        assert forall|i: int| 0 <= i < its.len() && !managed_key(ds, #[trigger] its[i].key) implies cs.contains(
            ChangeView::Remove { index: i },
        ) by {
            let k = choose|k: int| 0 <= k < r.len() && r[k] == ChangeView::Remove { index: i };
            assert(cs[k] == r[k]);
        }
    }
    assert forall|j: int| 0 <= j < ds.len() && !present(its, #[trigger] ds[j].key) implies cs.contains(
        ChangeView::Append { name: ds[j].name, path: ds[j].path },
    ) by {
        let k = choose|k: int| 0 <= k < a.len() && a[k] == ChangeView::Append { name: ds[j].name, path: ds[j].path };
        assert(cs[k + r.len()] == a[k]);
    }
}

// ---------------------------------------------------------------------------
// Adding one favorite
// ---------------------------------------------------------------------------

/// Law: unless duplicates are allowed, an addition that goes ahead is for a
/// path that no item of the sidebar is at.
pub proof fn law_add_prevents_duplicates(
    path_input: Seq<char>,
    position: InsertPosition,
    facts: AddFacts,
    its: Seq<ItemView>,
)
    ensures
        add_outcome(path_input, position, false, facts, its) is Planned ==> (normalized(path_input, facts.path) matches Some(np)
            && !present(its, comparison_key(np, facts.resolved))),
{
}

/// Law: an addition is refused as a duplicate only when duplicates are not
/// allowed and some item of the sidebar is at the normalized path (its key
/// equals the key of that path); the item reported is the first such item.
/// Conversely, when duplicates are not allowed, a path that expands and that
/// some item is at is always refused as a duplicate.
pub proof fn law_add_refuses_only_a_present_path(
    path_input: Seq<char>,
    position: InsertPosition,
    allow_duplicates: bool,
    facts: AddFacts,
    its: Seq<ItemView>,
)
    ensures
        add_outcome(path_input, position, allow_duplicates, facts, its) matches AddOutcome::Duplicate { item }
            ==> {
            &&& !allow_duplicates
            &&& normalized(path_input, facts.path) is Some
            &&& 0 <= item < its.len()
            &&& its[item].key == Some(comparison_key(normalized(path_input, facts.path)->0, facts.resolved))
            &&& forall|j: int|
                0 <= j < item ==> #[trigger] its[j].key != Some(
                    comparison_key(normalized(path_input, facts.path)->0, facts.resolved),
                )
        },
        (!allow_duplicates && normalized(path_input, facts.path) is Some && exists|i: int|
            0 <= i < its.len() && #[trigger] its[i].key == Some(
                comparison_key(normalized(path_input, facts.path)->0, facts.resolved),
            )) ==> add_outcome(path_input, position, allow_duplicates, facts, its) is Duplicate,
{
    if normalized(path_input, facts.path) is Some {
        let np = normalized(path_input, facts.path)->0;
        let nkey = comparison_key(np, facts.resolved);
        if !allow_duplicates && present(its, nkey) {
            let i = choose|i: int| 0 <= i < its.len() && #[trigger] its[i].key == Some(nkey);
            lemma_first_exists(its, nkey, i);
        }
    }
}

// ---------------------------------------------------------------------------
// Which item a name or path refers to
// ---------------------------------------------------------------------------

/// Law: a removal target (or the item a position refers to) names an item
/// exactly when the item's display name equals the whole target ignoring case,
/// or the item's path compares equal to the target's. No part of the target,
/// such as its last component, is compared with the name.
pub proof fn law_target_names_by_whole_name_or_path(it: ItemView, target: Seq<char>, target_key: Seq<char>)
    ensures
        names_item(it, target, target_key) <==> (lowercase(it.name) == lowercase(target) || it.key == Some(
            target_key,
        )),
{
}

// ---------------------------------------------------------------------------
// The names a sync report shows
// ---------------------------------------------------------------------------

/// Law: a report line for an entry shows the entry's own name when it
/// declares one, else the last component of its path (the whole path when it
/// has none), and always the entry's path; this holds of the lines of a sync
/// that changes something and of one that finds the sidebar matching.
pub proof fn law_report_shows_declared_name(d: DesiredView, its: Seq<ItemView>, dry_run: bool)
    ensures
        d.name matches Some(n) ==> entry_line(d, its, dry_run).name == n && matched_line(d).name == n,
        d.name is None ==> entry_line(d, its, dry_run).name == (match final_component(d.path) {
            Some(x) => x,
            None => d.path,
        }) && matched_line(d).name == entry_line(d, its, dry_run).name,
        entry_line(d, its, dry_run).path == Some(d.path),
        matched_line(d).path == Some(d.path),
{
}

// ---------------------------------------------------------------------------
// A sidebar that already matches
// ---------------------------------------------------------------------------

/// Law: the sidebar already matches the entries exactly when it has one item
/// per entry and, position by position, the item is at the entry's path and,
/// where the entry declares a name, shows that name. A sidebar that holds the
/// declared paths in another order does not match.
pub proof fn law_matching_is_position_by_position(ds: Seq<DesiredView>, its: Seq<ItemView>)
    ensures
        already_matches(ds, its) <==> {
            &&& its.len() == ds.len()
            &&& forall|i: int| 0 <= i < ds.len() ==> #[trigger] its[i].key == Some(ds[i].key)
            &&& forall|i: int|
                0 <= i < ds.len() ==> (#[trigger] ds[i].name matches Some(n) ==> its[i].name == n)
        },
{
    if already_matches(ds, its) {
        assert forall|i: int| 0 <= i < ds.len() implies #[trigger] its[i].key == Some(ds[i].key) by {
            assert(match ds[i].name {
                Some(n) => its[i].name == n,
                None => true,
            });
        }
        assert forall|i: int| 0 <= i < ds.len() implies (#[trigger] ds[i].name matches Some(n) ==> its[i].name
            == n) by {
            assert(match ds[i].name {
                Some(n) => its[i].name == n,
                None => true,
            });
        }
    }
}

/// Law: a sidebar that already matches entries with distinct paths is in
/// declared order: the item of each entry is the one at the entry's position,
/// and, when the items have distinct ids, the moves that `order_favorites`
/// plans leave every item where it is.
pub proof fn law_matching_sidebar_is_in_declared_order(ds: Seq<DesiredView>, its: Seq<ItemView>)
    requires
        forall|a: int, b: int| 0 <= a < b < ds.len() ==> ds[a].key != ds[b].key,
        already_matches(ds, its),
    ensures
        ordered_items(ds, its) == listing_order(its.len()),
        (forall|a: int, b: int| 0 <= a < b < its.len() ==> its[a].id != its[b].id) ==> apply_moves(
            listing_order(its.len()),
            planned_moves(ds, its),
        ) == listing_order(its.len()),
{
    law_matching_is_position_by_position(ds, its);
    let n = ds.len();
    assert forall|j: int| 0 <= j < n implies present(its, #[trigger] ds[j].key) by {
        assert(its[j].key == Some(ds[j].key));
    }
    lemma_ordered_all_present(ds, its);
    let o = ordered_items(ds, its);
    assert forall|k: int| 0 <= k < n implies #[trigger] o[k] == k by {
        assert(is_first_with_key(its, ds[k].key, k)) by {
            assert forall|y: int| 0 <= y < k implies #[trigger] its[y].key != Some(ds[k].key) by {
                assert(its[y].key == Some(ds[y].key));
            }
        }
        lemma_first_unique_key(its, ds[k].key, k, o[k]);
    }
    assert(o =~= listing_order(n));
    if forall|a: int, b: int| 0 <= a < b < its.len() ==> its[a].id != its[b].id {
        law_order_declared_first(ds, its);
        lemma_listing_rest(n, n);
        assert(listing_order(n) + Seq::new((n - n) as nat, |i: int| n + i) =~= listing_order(n));
    }
}


// ---------------------------------------------------------------------------
// A sync leaves the declared paths, in declared order
// ---------------------------------------------------------------------------

/// The items that a sync's changes leave in place when unmanaged items are
/// not kept: those at a declared path, in sidebar order.
pub open spec fn kept_items(ds: Seq<DesiredView>, its: Seq<ItemView>) -> Seq<ItemView>
    decreases its.len(),
{
    if its.len() == 0 {
        Seq::empty()
    } else {
        let prev = kept_items(ds, its.drop_last());
        if managed_key(ds, its.last().key) {
            prev.push(its.last())
        } else {
            prev
        }
    }
}

/// The entries that a sync appends, in declared order.
pub open spec fn missing_entries(ds: Seq<DesiredView>, its: Seq<ItemView>) -> Seq<DesiredView>
    decreases ds.len(),
{
    if ds.len() == 0 {
        Seq::empty()
    } else {
        let prev = missing_entries(ds.drop_last(), its);
        if present(its, ds.last().key) {
            prev
        } else {
            prev.push(ds.last())
        }
    }
}

proof fn lemma_kept_managed(ds: Seq<DesiredView>, its: Seq<ItemView>)
    ensures
        forall|p: int|
            0 <= p < kept_items(ds, its).len() ==> managed_key(ds, #[trigger] kept_items(ds, its)[p].key)
                && present(its, kept_items(ds, its)[p].key->0),
    decreases its.len(),
{
    if its.len() > 0 {
        let pre = its.drop_last();
        lemma_kept_managed(ds, pre);
        let prev = kept_items(ds, pre);
        let cur = kept_items(ds, its);
        assert forall|p: int| 0 <= p < cur.len() implies managed_key(ds, #[trigger] cur[p].key)
            && present(its, cur[p].key->0) by {
            if p < prev.len() {
                assert(cur[p] == prev[p]);
                let k = prev[p].key->0;
                let i = choose|i: int| 0 <= i < pre.len() && #[trigger] pre[i].key == Some(k);
                assert(its[i] == pre[i]);
            } else {
                assert(cur[p] == its[its.len() - 1]);
                assert(managed_key(ds, cur[p].key));
                let j = choose|j: int| 0 <= j < ds.len() && cur[p].key == Some(#[trigger] ds[j].key);
                assert(its[its.len() - 1].key == Some(cur[p].key->0));
            }
        }
    }
}

proof fn lemma_kept_covers(ds: Seq<DesiredView>, its: Seq<ItemView>)
    ensures
        forall|i: int|
            0 <= i < its.len() && managed_key(ds, #[trigger] its[i].key) ==> present(
                kept_items(ds, its),
                its[i].key->0,
            ),
    decreases its.len(),
{
    if its.len() > 0 {
        let pre = its.drop_last();
        lemma_kept_covers(ds, pre);
        let prev = kept_items(ds, pre);
        let cur = kept_items(ds, its);
        assert forall|i: int| 0 <= i < its.len() && managed_key(ds, #[trigger] its[i].key) implies present(
            cur,
            its[i].key->0,
        ) by {
            let j = choose|j: int| 0 <= j < ds.len() && its[i].key == Some(#[trigger] ds[j].key);
            if i < pre.len() {
                assert(pre[i] == its[i]);
                let k = its[i].key->0;
                let p = choose|p: int| 0 <= p < prev.len() && #[trigger] prev[p].key == Some(k);
                assert(cur[p] == prev[p]);
            } else {
                assert(cur[cur.len() - 1] == its[i]);
            }
        }
    }
}

proof fn lemma_kept_distinct(ds: Seq<DesiredView>, its: Seq<ItemView>)
    requires
        forall|a: int, b: int|
            0 <= a < b < its.len() && managed_key(ds, #[trigger] its[a].key) ==> its[a].key != #[trigger] its[b].key,
    ensures
        forall|a: int, b: int|
            0 <= a < b < kept_items(ds, its).len() ==> #[trigger] kept_items(ds, its)[a].key
                != #[trigger] kept_items(ds, its)[b].key,
    decreases its.len(),
{
    if its.len() > 0 {
        let pre = its.drop_last();
        assert forall|a: int, b: int|
            0 <= a < b < pre.len() && managed_key(ds, #[trigger] pre[a].key) implies pre[a].key != #[trigger] pre[b].key by {
            assert(pre[a] == its[a] && pre[b] == its[b]);
        }
        lemma_kept_distinct(ds, pre);
        lemma_kept_managed(ds, pre);
        let prev = kept_items(ds, pre);
        let cur = kept_items(ds, its);
        assert forall|a: int, b: int| 0 <= a < b < cur.len() implies #[trigger] cur[a].key != #[trigger] cur[b].key by {
            if b < prev.len() {
                assert(cur[a] == prev[a] && cur[b] == prev[b]);
            } else {
                assert(cur[a] == prev[a]);
                let k = prev[a].key->0;
                assert(managed_key(ds, prev[a].key) && present(pre, k));
                let i = choose|i: int| 0 <= i < pre.len() && #[trigger] pre[i].key == Some(k);
                assert(pre[i] == its[i]);
                assert(managed_key(ds, its[i].key));
                assert(cur[b] == its[its.len() - 1]);
                assert(its[i].key != its[its.len() - 1].key);
            }
        }
    }
}

proof fn lemma_missing_entries(ds: Seq<DesiredView>, its: Seq<ItemView>)
    requires
        forall|a: int, b: int| 0 <= a < b < ds.len() ==> ds[a].key != ds[b].key,
    ensures
        forall|m: int|
            0 <= m < missing_entries(ds, its).len() ==> !present(its, #[trigger] missing_entries(ds, its)[m].key),
        forall|m: int|
            0 <= m < missing_entries(ds, its).len() ==> managed_key(ds, Some(#[trigger] missing_entries(ds, its)[m].key)),
        forall|j: int|
            0 <= j < ds.len() && !present(its, #[trigger] ds[j].key) ==> exists|m: int|
                0 <= m < missing_entries(ds, its).len() && #[trigger] missing_entries(ds, its)[m] == ds[j],
        forall|a: int, b: int|
            0 <= a < b < missing_entries(ds, its).len() ==> #[trigger] missing_entries(ds, its)[a].key
                != #[trigger] missing_entries(ds, its)[b].key,
    decreases ds.len(),
{
    if ds.len() > 0 {
        let pre = ds.drop_last();
        assert forall|a: int, b: int| 0 <= a < b < pre.len() implies pre[a].key != pre[b].key by {
            assert(pre[a] == ds[a] && pre[b] == ds[b]);
        }
        lemma_missing_entries(pre, its);
        let prev = missing_entries(pre, its);
        let cur = missing_entries(ds, its);
        let n = ds.len() - 1;
        assert forall|m: int| 0 <= m < cur.len() implies managed_key(ds, Some(#[trigger] cur[m].key)) by {
            if m < prev.len() {
                assert(cur[m] == prev[m]);
                assert(managed_key(pre, Some(prev[m].key)));
                let j = choose|j: int| 0 <= j < pre.len() && Some(prev[m].key) == Some(#[trigger] pre[j].key);
                assert(pre[j] == ds[j]);
            } else {
                assert(cur[m] == ds[n]);
                assert(Some(cur[m].key) == Some(ds[n].key));
            }
        }
        assert forall|m: int| 0 <= m < cur.len() implies !present(its, #[trigger] cur[m].key) by {
            if m < prev.len() {
                assert(cur[m] == prev[m]);
            }
        }
        assert forall|j: int| 0 <= j < ds.len() && !present(its, #[trigger] ds[j].key) implies exists|m: int|
            0 <= m < cur.len() && #[trigger] cur[m] == ds[j] by {
            if j < pre.len() {
                assert(pre[j] == ds[j]);
                let m = choose|m: int| 0 <= m < prev.len() && #[trigger] prev[m] == pre[j];
                assert(cur[m] == prev[m]);
            } else {
                assert(cur[cur.len() - 1] == ds[j]);
            }
        }
        assert forall|a: int, b: int| 0 <= a < b < cur.len() implies #[trigger] cur[a].key != #[trigger] cur[b].key by {
            if b < prev.len() {
                assert(cur[a] == prev[a] && cur[b] == prev[b]);
            } else {
                assert(cur[a] == prev[a]);
                assert(managed_key(pre, Some(prev[a].key)));
                let j = choose|j: int| 0 <= j < pre.len() && Some(prev[a].key) == Some(#[trigger] pre[j].key);
                assert(pre[j] == ds[j]);
                assert(cur[b] == ds[n]);
                assert(ds[j].key != ds[n].key);
            }
        }
    }
}

proof fn lemma_ordered_all_present(ds: Seq<DesiredView>, its: Seq<ItemView>)
    requires
        forall|j: int| 0 <= j < ds.len() ==> present(its, #[trigger] ds[j].key),
    ensures
        ordered_items(ds, its).len() == ds.len(),
        forall|k: int| 0 <= k < ds.len() ==> is_first_with_key(its, ds[k].key, #[trigger] ordered_items(ds, its)[k]),
    decreases ds.len(),
{
    if ds.len() > 0 {
        let pre = ds.drop_last();
        assert forall|j: int| 0 <= j < pre.len() implies present(its, #[trigger] pre[j].key) by {
            assert(pre[j] == ds[j]);
        }
        lemma_ordered_all_present(pre, its);
        let n = ds.len() - 1;
        assert(present(its, ds[n].key));
        assert(first_with_key(its, ds.last().key) is Some);
        lemma_first_with_key_is(its, ds.last().key);
        let o = ordered_items(ds, its);
        let prev = ordered_items(pre, its);
        assert forall|k: int| 0 <= k < ds.len() implies is_first_with_key(its, ds[k].key, #[trigger] o[k]) by {
            if k < n {
                assert(o[k] == prev[k]);
                assert(pre[k] == ds[k]);
            }
        }
    }
}

proof fn lemma_without_all_covered(list: Seq<int>, xs: Seq<int>)
    requires
        forall|i: int| 0 <= i < list.len() ==> xs.contains(#[trigger] list[i]),
    ensures
        without_all(list, xs).len() == 0,
    decreases list.len(),
{
    if list.len() > 0 {
        let pre = list.drop_last();
        assert forall|i: int| 0 <= i < pre.len() implies xs.contains(#[trigger] pre[i]) by {
            assert(pre[i] == list[i]);
        }
        lemma_without_all_covered(pre, xs);
        assert(xs.contains(list[list.len() - 1]));
    }
}

proof fn lemma_without_all_members(list: Seq<int>, xs: Seq<int>)
    ensures
        forall|k: int|
            0 <= k < without_all(list, xs).len() ==> list.contains(#[trigger] without_all(list, xs)[k])
                && !xs.contains(without_all(list, xs)[k]),
    decreases list.len(),
{
    if list.len() > 0 {
        let pre = list.drop_last();
        lemma_without_all_members(pre, xs);
        let prev = without_all(pre, xs);
        let cur = without_all(list, xs);
        assert forall|k: int| 0 <= k < cur.len() implies list.contains(#[trigger] cur[k]) && !xs.contains(cur[k]) by {
            if k < prev.len() {
                assert(cur[k] == prev[k]);
                let q = choose|q: int| 0 <= q < pre.len() && pre[q] == prev[k];
                assert(list[q] == pre[q]);
            } else {
                assert(cur[k] == list[list.len() - 1]);
            }
        }
    }
}

proof fn lemma_without_all_distinct(list: Seq<int>, xs: Seq<int>)
    requires
        forall|a: int, b: int| 0 <= a < b < list.len() ==> list[a] != list[b],
    ensures
        forall|a: int, b: int|
            0 <= a < b < without_all(list, xs).len() ==> #[trigger] without_all(list, xs)[a]
                != #[trigger] without_all(list, xs)[b],
    decreases list.len(),
{
    if list.len() > 0 {
        let pre = list.drop_last();
        assert forall|a: int, b: int| 0 <= a < b < pre.len() implies pre[a] != pre[b] by {
            assert(pre[a] == list[a] && pre[b] == list[b]);
        }
        lemma_without_all_distinct(pre, xs);
        lemma_without_all_members(pre, xs);
        let prev = without_all(pre, xs);
        let cur = without_all(list, xs);
        assert forall|a: int, b: int| 0 <= a < b < cur.len() implies #[trigger] cur[a] != #[trigger] cur[b] by {
            if b < prev.len() {
                assert(cur[a] == prev[a] && cur[b] == prev[b]);
            } else {
                assert(cur[a] == prev[a]);
                assert(pre.contains(prev[a]));
                let q = choose|q: int| 0 <= q < pre.len() && pre[q] == prev[a];
                assert(list[q] == pre[q]);
                assert(cur[b] == list[list.len() - 1]);
            }
        }
    }
}

proof fn lemma_listing_rest(m: nat, n: nat)
    requires
        n <= m,
    ensures
        without_all(listing_order(m), listing_order(n)) == Seq::new((m - n) as nat, |i: int| n + i),
    decreases m,
{
    let lm = listing_order(m);
    let ln = listing_order(n);
    if m == n {
        assert forall|i: int| 0 <= i < lm.len() implies ln.contains(#[trigger] lm[i]) by {
            assert(ln[i] == i);
        }
        lemma_without_all_covered(lm, ln);
        assert(without_all(lm, ln) =~= Seq::new((m - n) as nat, |i: int| n + i));
    } else {
        lemma_listing_rest((m - 1) as nat, n);
        assert(lm.drop_last() =~= listing_order((m - 1) as nat));
        assert(lm.last() == m - 1);
        assert(!ln.contains(m - 1)) by {
            if ln.contains(m - 1) {
                let q = choose|q: int| 0 <= q < ln.len() && ln[q] == m - 1;
            }
        }
        assert(Seq::new((m - n) as nat, |i: int| n + i) =~= Seq::new((m - 1 - n) as nat, |i: int| n + i).push(
            m - 1,
        ));
    }
}

proof fn lemma_all_present(ds: Seq<DesiredView>, its: Seq<ItemView>)
    requires
        forall|j: int| 0 <= j < ds.len() ==> present(its, #[trigger] ds[j].key),
    ensures
        missing_count(ds, its) == 0,
        append_changes(ds, its).len() == 0,
    decreases ds.len(),
{
    if ds.len() > 0 {
        let pre = ds.drop_last();
        assert forall|j: int| 0 <= j < pre.len() implies present(its, #[trigger] pre[j].key) by {
            assert(pre[j] == ds[j]);
        }
        lemma_all_present(pre, its);
        assert(present(its, ds[ds.len() - 1].key));
    }
}

proof fn lemma_all_managed(ds: Seq<DesiredView>, its: Seq<ItemView>)
    requires
        forall|i: int| 0 <= i < its.len() ==> managed_key(ds, #[trigger] its[i].key),
    ensures
        unmanaged_count(ds, its) == 0,
        removal_changes(ds, its).len() == 0,
    decreases its.len(),
{
    if its.len() > 0 {
        let pre = its.drop_last();
        assert forall|i: int| 0 <= i < pre.len() implies managed_key(ds, #[trigger] pre[i].key) by {
            assert(pre[i] == its[i]);
        }
        lemma_all_managed(ds, pre);
        assert(managed_key(ds, its[its.len() - 1].key));
    }
}

/// The sidebar once a sync's changes are carried out: the items it keeps
/// (all of them when unmanaged items are kept, else those at a declared
/// path), in their order, then the appended items.
pub open spec fn after_changes(
    ds: Seq<DesiredView>,
    its: Seq<ItemView>,
    keep_unmanaged: bool,
    appended: Seq<ItemView>,
) -> Seq<ItemView> {
    (if keep_unmanaged {
        its
    } else {
        kept_items(ds, its)
    }) + appended
}

/// What the laws on a whole sync assume: the entries declare distinct paths;
/// the sidebar carried out the planned changes, appending, for each missing
/// entry in turn, one item at its path; and the items then have distinct ids
/// (as Finder gives them).
pub open spec fn sync_premises(
    ds: Seq<DesiredView>,
    its: Seq<ItemView>,
    keep_unmanaged: bool,
    appended: Seq<ItemView>,
) -> bool {
    &&& forall|a: int, b: int| 0 <= a < b < ds.len() ==> ds[a].key != ds[b].key
    &&& appended.len() == missing_entries(ds, its).len()
    &&& forall|m: int| 0 <= m < appended.len() ==> #[trigger] appended[m].key == Some(missing_entries(ds, its)[m].key)
    &&& forall|a: int, b: int|
        0 <= a < b < after_changes(ds, its, keep_unmanaged, appended).len() ==> after_changes(
            ds,
            its,
            keep_unmanaged,
            appended,
        )[a].id != after_changes(ds, its, keep_unmanaged, appended)[b].id
}

/// No two items of the sidebar are at one declared path.
pub open spec fn one_item_per_declared_path(ds: Seq<DesiredView>, its: Seq<ItemView>) -> bool {
    forall|a: int, b: int|
        0 <= a < b < its.len() && managed_key(ds, #[trigger] its[a].key) ==> its[a].key != #[trigger] its[b].key
}

/// The order the moves leave, as positions in the sidebar after the changes.
pub open spec fn settled_order(ds: Seq<DesiredView>, after: Seq<ItemView>) -> Seq<int> {
    apply_moves(listing_order(after.len()), planned_moves(ds, after))
}

/// The items of the sidebar in the order the moves leave.
pub open spec fn settled_items(ds: Seq<DesiredView>, after: Seq<ItemView>) -> Seq<ItemView> {
    Seq::new(settled_order(ds, after).len(), |k: int| after[settled_order(ds, after)[k]])
}

/// Everything the laws on a whole sync use about the sidebar after the
/// changes and after the moves.
proof fn lemma_sync_outcome(ds: Seq<DesiredView>, its: Seq<ItemView>, keep_unmanaged: bool, appended: Seq<ItemView>)
    requires
        sync_premises(ds, its, keep_unmanaged, appended),
    ensures
        ({
            let after = after_changes(ds, its, keep_unmanaged, appended);
            let o = ordered_items(ds, after);
            let fin = settled_order(ds, after);
            &&& fin == o + without_all(listing_order(after.len()), o)
            &&& o.len() == ds.len()
            &&& forall|k: int|
                0 <= k < ds.len() ==> 0 <= #[trigger] fin[k] < after.len() && after[fin[k]].key == Some(ds[k].key)
            &&& forall|k: int| 0 <= k < fin.len() ==> 0 <= #[trigger] fin[k] < after.len()
            &&& forall|a: int, b: int| 0 <= a < b < fin.len() ==> #[trigger] fin[a] != #[trigger] fin[b]
            &&& !keep_unmanaged ==> forall|p: int| 0 <= p < after.len() ==> managed_key(ds, #[trigger] after[p].key)
            &&& one_item_per_declared_path(ds, its) ==> {
                &&& forall|k: int| ds.len() <= k < fin.len() ==> !managed_key(ds, after[#[trigger] fin[k]].key)
                &&& !keep_unmanaged ==> fin.len() == ds.len()
            }
        }),
{
    lemma_kept_managed(ds, its);
    lemma_kept_covers(ds, its);
    lemma_missing_entries(ds, its);
    let base = if keep_unmanaged { its } else { kept_items(ds, its) };
    let miss = missing_entries(ds, its);
    let after = after_changes(ds, its, keep_unmanaged, appended);
    assert(after == base + appended);
    law_order_declared_first(ds, after);
    lemma_ordered_facts(ds, after);
    // Every declared path is in the sidebar after the changes.
    assert forall|j: int| 0 <= j < ds.len() implies present(after, #[trigger] ds[j].key) by {
        if present(its, ds[j].key) {
            let i = choose|i: int| 0 <= i < its.len() && #[trigger] its[i].key == Some(ds[j].key);
            if keep_unmanaged {
                assert(after[i] == its[i]);
            } else {
                assert(managed_key(ds, its[i].key));
                assert(present(base, ds[j].key));
                let p = choose|p: int| 0 <= p < base.len() && #[trigger] base[p].key == Some(ds[j].key);
                assert(after[p] == base[p]);
            }
        } else {
            let m = choose|m: int| 0 <= m < miss.len() && #[trigger] miss[m] == ds[j];
            assert(after[base.len() + m] == appended[m]);
            assert(appended[m].key == Some(miss[m].key));
        }
    }
    lemma_ordered_all_present(ds, after);
    let o = ordered_items(ds, after);
    let l0 = listing_order(after.len());
    let w = without_all(l0, o);
    let fin = settled_order(ds, after);
    assert(fin == o + w);
    lemma_without_all_members(l0, o);
    assert forall|a: int, b: int| 0 <= a < b < l0.len() implies l0[a] != l0[b] by {}
    lemma_without_all_distinct(l0, o);
    assert forall|k: int| 0 <= k < fin.len() implies 0 <= #[trigger] fin[k] < after.len() by {
        if k < o.len() {
            assert(fin[k] == o[k]);
        } else {
            let x = w[k - o.len()];
            assert(fin[k] == x);
            assert(l0.contains(x));
            let q = choose|q: int| 0 <= q < l0.len() && l0[q] == x;
            assert(l0[q] == q);
        }
    }
    assert forall|k: int| 0 <= k < ds.len() implies 0 <= #[trigger] fin[k] < after.len() && after[fin[k]].key
        == Some(ds[k].key) by {
        assert(fin[k] == o[k]);
        assert(is_first_with_key(after, ds[k].key, o[k]));
    }
    assert forall|a: int, b: int| 0 <= a < b < fin.len() implies #[trigger] fin[a] != #[trigger] fin[b] by {
        if b < o.len() {
            assert(fin[a] == o[a] && fin[b] == o[b]);
        } else if a >= o.len() {
            assert(fin[a] == w[a - o.len()] && fin[b] == w[b - o.len()]);
        } else {
            assert(fin[a] == o[a] && fin[b] == w[b - o.len()]);
            assert(!o.contains(w[b - o.len()]));
        }
    }
    if !keep_unmanaged {
        assert forall|p: int| 0 <= p < after.len() implies managed_key(ds, #[trigger] after[p].key) by {
            if p < base.len() {
                assert(after[p] == base[p]);
            } else {
                assert(after[p] == appended[p - base.len()]);
                assert(managed_key(ds, Some(miss[p - base.len()].key)));
            }
        }
    }
    if one_item_per_declared_path(ds, its) {
        lemma_kept_distinct(ds, its);
        // An item of the sidebar at a declared path is the only one there.
        assert forall|a: int, b: int|
            0 <= a < b < after.len() && managed_key(ds, #[trigger] after[a].key) implies after[a].key
                != #[trigger] after[b].key by {
            if b < base.len() {
                assert(after[a] == base[a] && after[b] == base[b]);
            } else if a >= base.len() {
                assert(after[a] == appended[a - base.len()] && after[b] == appended[b - base.len()]);
            } else {
                assert(after[a] == base[a]);
                let m = b - base.len();
                assert(after[b] == appended[m]);
                assert(!present(its, miss[m].key));
                if keep_unmanaged {
                    assert(base[a] == its[a]);
                    if after[a].key == after[b].key {
                        assert(its[a].key == Some(miss[m].key));
                    }
                } else {
                    assert(present(its, base[a].key->0));
                }
            }
        }
        assert forall|k: int| ds.len() <= k < fin.len() implies !managed_key(ds, after[#[trigger] fin[k]].key) by {
            let x = w[k - ds.len()];
            assert(fin[k] == x);
            assert(l0.contains(x) && !o.contains(x));
            let q = choose|q: int| 0 <= q < l0.len() && l0[q] == x;
            assert(l0[q] == q);
            if managed_key(ds, after[x].key) {
                let j = choose|j: int| 0 <= j < ds.len() && after[x].key == Some(#[trigger] ds[j].key);
                assert(is_first_with_key(after, ds[j].key, x)) by {
                    assert forall|y: int| 0 <= y < x implies #[trigger] after[y].key != Some(ds[j].key) by {
                        if after[y].key == Some(ds[j].key) {
                            assert(managed_key(ds, after[y].key));
                        }
                    }
                }
                assert(is_first_with_key(after, ds[j].key, o[j]));
                lemma_first_unique_key(after, ds[j].key, x, o[j]);
                assert(o.contains(x));
            }
        }
        if !keep_unmanaged {
            assert forall|p: int| 0 <= p < l0.len() implies o.contains(#[trigger] l0[p]) by {
                assert(l0[p] == p);
                if p < base.len() {
                    assert(after[p] == base[p]);
                } else {
                    assert(after[p] == appended[p - base.len()]);
                    assert(managed_key(ds, Some(miss[p - base.len()].key)));
                }
                let j = choose|j: int| 0 <= j < ds.len() && after[p].key == Some(#[trigger] ds[j].key);
                assert(is_first_with_key(after, ds[j].key, o[j]));
                if o[j] != p {
                    if o[j] < p {
                        assert(after[o[j]].key != after[p].key);
                    } else {
                        assert(after[p].key != Some(ds[j].key));
                    }
                }
            }
            lemma_without_all_covered(l0, o);
        }
    }
}

/// Law: a sync puts the declared paths first, in declared order, and leaves
/// the rest in the order they had. Under `sync_premises`, and with no two
/// items at one declared path, the moves that
/// `order_favorites` plans on the sidebar after the changes leave, first, one
/// item per entry, in the order of the entries, each at its entry's path,
/// and then every other item, in the order it had and at no declared path.
/// When unmanaged items are not kept, there are no other items.
pub proof fn law_sync_converges(ds: Seq<DesiredView>, its: Seq<ItemView>, keep_unmanaged: bool, appended: Seq<ItemView>)
    requires
        sync_premises(ds, its, keep_unmanaged, appended),
        one_item_per_declared_path(ds, its),
    ensures
        ({
            let after = after_changes(ds, its, keep_unmanaged, appended);
            let fin = settled_order(ds, after);
            &&& ds.len() <= fin.len()
            &&& forall|k: int|
                0 <= k < ds.len() ==> 0 <= #[trigger] fin[k] < after.len() && after[fin[k]].key == Some(ds[k].key)
            &&& fin.skip(ds.len() as int) == without_all(listing_order(after.len()), fin.take(ds.len() as int))
            &&& forall|k: int|
                ds.len() <= k < fin.len() ==> 0 <= #[trigger] fin[k] < after.len() && !managed_key(ds, after[fin[k]].key)
            &&& !keep_unmanaged ==> fin.len() == ds.len()
        }),
{
    lemma_sync_outcome(ds, its, keep_unmanaged, appended);
    let after = after_changes(ds, its, keep_unmanaged, appended);
    let o = ordered_items(ds, after);
    let fin = settled_order(ds, after);
    assert(fin.take(ds.len() as int) =~= o);
    assert(fin.skip(ds.len() as int) =~= without_all(listing_order(after.len()), o));
}

/// Law: a sync that has run to the end leaves nothing for a second sync with
/// the same entries to do, also when several items were at one declared
/// path. Under `sync_premises`, on the sidebar the moves
/// leave, a second sync (kept unmanaged items or not, dry run or not) finds
/// every entry present and, when unmanaged items are not kept, every item
/// declared, so it reports nothing added and nothing removed, plans no
/// change, and its moves leave the order as it is. This holds too when a kept
/// item shows another name than its entry declares; the report then calls it
/// already present rather than matching.
pub proof fn law_sync_is_idempotent(
    ds: Seq<DesiredView>,
    its: Seq<ItemView>,
    keep_unmanaged: bool,
    appended: Seq<ItemView>,
    dry_run: bool,
)
    requires
        sync_premises(ds, its, keep_unmanaged, appended),
    ensures
        ({
            let settled = settled_items(ds, after_changes(ds, its, keep_unmanaged, appended));
            &&& missing_count(ds, settled) == 0
            &&& !keep_unmanaged ==> unmanaged_count(ds, settled) == 0
            &&& planned_changes(ds, settled, keep_unmanaged, dry_run).len() == 0
            &&& apply_moves(listing_order(settled.len()), planned_moves(ds, settled)) == listing_order(
                settled.len(),
            )
        }),
{
    lemma_sync_outcome(ds, its, keep_unmanaged, appended);
    let after = after_changes(ds, its, keep_unmanaged, appended);
    let fin = settled_order(ds, after);
    let settled = settled_items(ds, after);
    let n = ds.len();
    assert forall|k: int| 0 <= k < n implies #[trigger] settled[k].key == Some(ds[k].key) by {
        assert(settled[k] == after[fin[k]]);
    }
    assert forall|j: int| 0 <= j < n implies present(settled, #[trigger] ds[j].key) by {
        assert(settled[j].key == Some(ds[j].key));
    }
    lemma_all_present(ds, settled);
    if !keep_unmanaged {
        assert forall|i: int| 0 <= i < settled.len() implies managed_key(ds, #[trigger] settled[i].key) by {
            assert(settled[i] == after[fin[i]]);
            assert(0 <= fin[i] < after.len());
        }
        lemma_all_managed(ds, settled);
    }
    // The items the moves leave have distinct ids.
    assert forall|a: int, b: int| 0 <= a < b < settled.len() implies settled[a].id != settled[b].id by {
        assert(settled[a] == after[fin[a]] && settled[b] == after[fin[b]]);
        assert(fin[a] != fin[b]);
        assert(0 <= fin[a] < after.len() && 0 <= fin[b] < after.len());
    }
    law_order_declared_first(ds, settled);
    lemma_ordered_all_present(ds, settled);
    let o2 = ordered_items(ds, settled);
    assert forall|k: int| 0 <= k < n implies #[trigger] o2[k] == k by {
        assert(is_first_with_key(settled, ds[k].key, k)) by {
            assert forall|y: int| 0 <= y < k implies #[trigger] settled[y].key != Some(ds[k].key) by {
                assert(settled[y].key == Some(ds[y].key));
            }
        }
        lemma_first_unique_key(settled, ds[k].key, k, o2[k]);
    }
    assert(o2 =~= listing_order(n));
    lemma_listing_rest(settled.len(), n);
    assert(listing_order(n) + Seq::new((settled.len() - n) as nat, |i: int| n + i) =~= listing_order(settled.len()));
}


/// Law: syncing the configuration that `export_config` writes changes
/// nothing. Take a sidebar whose items all have a path, entries as
/// `export_config` makes them from its items (each item's name and path), and
/// path facts under which an exported path resolves to the key its item's
/// path has (as on one machine, where the sidebar's paths are already
/// resolved). Then the sidebar already matches the entries: a sync, kept
/// unmanaged items or not, dry run or not, plans no change and no
/// reordering, and reports every entry as already matching.
pub proof fn law_export_then_sync_changes_nothing(
    entries: Seq<SidebarEntry>,
    facts: Seq<EntryFacts>,
    listed: Seq<ListedItem>,
    keep_unmanaged: bool,
    dry_run: bool,
)
    requires
        entries.len() == listed.len(),
        facts.len() == listed.len(),
        forall|i: int|
            0 <= i < listed.len() ==> (#[trigger] entries[i].name.deep_view(), entries[i].path@) == exported_entry(
                listed[i].info,
            ),
        forall|i: int| 0 <= i < listed.len() ==> (#[trigger] listed[i]).info.path is Some,
        forall|i: int|
            0 <= i < listed.len() ==> #[trigger] desired_view(entries[i], facts[i]).key == comparison_key(
                listed[i].info.path->0@,
                listed[i].facts,
            ),
    ensures
        already_matches(desired_of(entries, facts), item_views(listed)),
        planned_changes(desired_of(entries, facts), item_views(listed), keep_unmanaged, dry_run).len() == 0,
        report_lines(desired_of(entries, facts), item_views(listed), keep_unmanaged, dry_run) == Seq::new(
            entries.len(),
            |i: int| matched_line(desired_of(entries, facts)[i]),
        ),
{
    let ds = desired_of(entries, facts);
    let its = item_views(listed);
    assert forall|i: int| 0 <= i < ds.len() implies (match #[trigger] ds[i].name {
        Some(n) => its[i].name == n,
        None => true,
    }) && its[i].key == Some(ds[i].key) by {
        assert(ds[i] == desired_view(entries[i], facts[i]));
        assert(its[i] == listed[i]@);
        assert((entries[i].name.deep_view(), entries[i].path@) == exported_entry(listed[i].info));
        assert(listed[i].info.path is Some);
        assert(desired_view(entries[i], facts[i]).key == comparison_key(listed[i].info.path->0@, listed[i].facts));
    }
    assert(already_matches(ds, its));
}

// ---------------------------------------------------------------------------
// Paths
// ---------------------------------------------------------------------------

/// `n` slashes.
pub open spec fn slashes(n: nat) -> Seq<char> {
    Seq::new(n, |i: int| '/')
}

proof fn lemma_trim_end_slashes(r: Seq<char>, n: nat)
    ensures
        trim_end(r + slashes(n), '/') == trim_end(r, '/'),
    decreases n,
{
    if n > 0 {
        assert((r + slashes(n)).drop_last() =~= r + slashes((n - 1) as nat));
        assert((r + slashes(n)).last() == '/');
        lemma_trim_end_slashes(r, (n - 1) as nat);
    } else {
        assert(r + slashes(0) =~= r);
    }
}

/// Law: paths are compared without their trailing slashes: two paths that
/// resolve to the same path up to trailing slashes have the same key.
pub proof fn law_key_ignores_trailing_slashes(
    p1: Seq<char>,
    f1: PathFacts,
    p2: Seq<char>,
    f2: PathFacts,
    r: Seq<char>,
    n1: nat,
    n2: nat,
)
    requires
        normalized(p1, f1) == Some(r + slashes(n1)),
        normalized(p2, f2) == Some(r + slashes(n2)),
    ensures
        comparison_key(p1, f1) == comparison_key(p2, f2),
{
    lemma_trim_end_slashes(r, n1);
    lemma_trim_end_slashes(r, n2);
}


/// Law: `~/r` and `h/r` are compared as the same path when the home
/// directory is `h`. The expansion is what the machine says: given that
/// `~/r` expands to `h/r` (as `expand_path` gives it when the home directory
/// is `h`) and that `h/r` is not a `file://` URL and expands to itself (as
/// it does without a `$`), with the same disk and working directory, both
/// have the same key.
pub proof fn law_home_and_tilde_compare_equal(h: Seq<char>, r: Seq<char>, f1: PathFacts, f2: PathFacts)
    requires
        f1.expanded.deep_view() == Some(h + seq!['/'] + r),
        f2.expanded.deep_view() == Some(h + seq!['/'] + r),
        f1.canonical.deep_view() == f2.canonical.deep_view(),
        f1.cwd.deep_view() == f2.cwd.deep_view(),
        !starts_with(h + seq!['/'] + r, file_scheme()),
    ensures
        comparison_key(seq!['~', '/'] + r, f1) == comparison_key(h + seq!['/'] + r, f2),
{
    let tilde = seq!['~', '/'] + r;
    assert(!starts_with(tilde, file_scheme())) by {
        if starts_with(tilde, file_scheme()) {
            assert(tilde.take(7)[0] == file_scheme()[0]);
        }
    }
}

} // verus!
