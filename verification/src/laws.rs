use vstd::prelude::*;
use crate::model::{
    ancestor_path, rest, ItemModel, flatten, valid_path, item_at, set_expanded_at, ancestors_expanded, root_items,
    expand_along, walk_target, expand_plan, lemma_flatten_seq_paths,
    lemma_flatten_seq_set_keeps_row, lemma_set_expanded_shape, lemma_set_expanded_undo,
    lemma_root_items_flatten, lemma_flatten_seq_shown, lemma_row_of_path, lemma_expand_along,
    lemma_walk_valid, lemma_expand_reveals, lemma_walk_expand_along, lemma_expand_along_noop,
};
use crate::model::{
    EntryModel, last_seg, first_item_with_last, first_seg, first_with_path, path_before,
    lemma_flatten_seq_order, lemma_ancestor_path_matches, lemma_first_item_with_last, level,
    lemma_first_item_is, lemma_ancestor_path_complete, lemma_valid_path_take,
};
use crate::tree::{
    toggles, up_index, down_index, first_with_id, first_with_last, row_disabled, toggle_event,
    EventModel, lemma_first_with_id_some,
};

verus! {

/// Toggling a row twice restores the tree: after the first toggle the same
/// row (same index, same path) shows the same item with its flag flipped and
/// is still a folder, and toggling it again gives back the roots.
pub proof fn law_toggle_twice(roots: Seq<ItemModel>, ix: usize)
    requires
        toggles(flatten(roots), ix),
    ensures
        ({
            let e = flatten(roots)[ix as int];
            let roots1 = set_expanded_at(roots, e.path, !e.item.expanded);
            let e1 = flatten(roots1)[ix as int];
            &&& toggles(flatten(roots1), ix)
            &&& e1.path == e.path
            &&& e1.item.id == e.item.id
            &&& e1.item.expanded == !e.item.expanded
            &&& set_expanded_at(roots1, e1.path, !e1.item.expanded) == roots
        }),
{
    let e = flatten(roots)[ix as int];
    let p = e.path;
    let roots1 = set_expanded_at(roots, p, !e.item.expanded);
    lemma_flatten_seq_paths(roots, Seq::empty());
    assert(p.subrange(0, p.len() as int) =~= p);
    assert(Seq::<int>::empty() + p =~= p);
    lemma_flatten_seq_set_keeps_row(roots, Seq::empty(), p, !e.item.expanded, ix as int);
    lemma_flatten_seq_paths(roots1, Seq::empty());
    lemma_set_expanded_shape(roots, p, !e.item.expanded, p);
    lemma_set_expanded_undo(roots, p, !e.item.expanded);
}

/// Down then Up, and Up then Down, come back to a selected row.
pub proof fn law_up_down_inverse(s: usize, len: nat)
    requires
        s < len <= usize::MAX,
    ensures
        up_index(Some(down_index(Some(s), len)), len) == s,
        down_index(Some(up_index(Some(s), len)), len) == s,
{
}


/// The rows show exactly the items whose ancestors are all expanded: every
/// row shows the item at its path (its depth being one less than the
/// length of the path) under expanded ancestors, and every item under
/// expanded ancestors has a row.
pub proof fn law_rows_show_unfolded_items(roots: Seq<ItemModel>, p: Seq<int>)
    ensures
        forall|k: int|
            0 <= k < flatten(roots).len() ==> {
                let e = #[trigger] flatten(roots)[k];
                &&& valid_path(roots, e.path)
                &&& item_at(roots, e.path) == e.item
                &&& e.depth == e.path.len() - 1
                &&& ancestors_expanded(roots, e.path)
            },
        valid_path(roots, p) ==> ((exists|k: int|
            0 <= k < flatten(roots).len() && #[trigger] flatten(roots)[k].path == p)
            <==> ancestors_expanded(roots, p)),
{
    let rows = flatten(roots);
    lemma_flatten_seq_paths(roots, Seq::empty());
    assert forall|k: int| 0 <= k < rows.len() implies {
        let e = #[trigger] rows[k];
        &&& valid_path(roots, e.path)
        &&& item_at(roots, e.path) == e.item
        &&& e.depth == e.path.len() - 1
        &&& ancestors_expanded(roots, e.path)
    } by {
        let e = rows[k];
        assert(e.path.subrange(0, e.path.len() as int) =~= e.path);
        lemma_flatten_seq_shown(roots, Seq::empty(), k);
    }
    if valid_path(roots, p) {
        if ancestors_expanded(roots, p) {
            let k = lemma_row_of_path(roots, Seq::empty(), p);
            assert(Seq::<int>::empty() + p =~= p);
            assert(rows[k].path == p);
        }
    }
}

/// The rows at depth 0 show exactly the roots, in order: rebuilding the rows
/// from the items of the top-level rows gives the same rows.
pub proof fn law_root_rows(roots: Seq<ItemModel>)
    ensures
        root_items(flatten(roots)) == roots,
        flatten(root_items(flatten(roots))) == flatten(roots),
{
    lemma_root_items_flatten(roots);
}


/// Expanding the ancestors of a named item reveals it: when the walk of
/// `expand_ancestors` reaches an item (at the path `tp`), that item has a
/// row afterwards, with the same id as before, and every item above it is
/// expanded.
pub proof fn law_expand_reveals(roots: Seq<ItemModel>, t: Seq<Seq<char>>)
    requires
        walk_target(roots, t) is Some,
    ensures
        ({
            let tp = walk_target(roots, t).unwrap();
            let q = expand_plan(roots, t).unwrap();
            let roots2 = expand_along(roots, q, 0, q.len() as int).0;
            &&& q == tp.drop_last()
            &&& valid_path(roots, tp)
            &&& valid_path(roots2, tp)
            &&& item_at(roots2, tp).id == item_at(roots, tp).id
            &&& ancestors_expanded(roots2, tp)
            &&& exists|k: int| 0 <= k < flatten(roots2).len() && #[trigger] flatten(roots2)[k].path == tp
        }),
{
    lemma_walk_valid(roots, t);
    let k = lemma_expand_reveals(roots, t);
    let tp = walk_target(roots, t).unwrap();
    let q = tp.drop_last();
    let roots2 = expand_along(roots, q, 0, q.len() as int).0;
    assert(flatten(roots2)[k].path == tp);
}

/// Expanding the ancestors of a named item twice is expanding them once: the
/// walk reaches the same item (flags do not steer it), and the second time
/// nothing changes and no event is given.
pub proof fn law_expand_idempotent(roots: Seq<ItemModel>, t: Seq<Seq<char>>)
    ensures
        ({
            let roots2 = match expand_plan(roots, t) {
                None => roots,
                Some(q) => expand_along(roots, q, 0, q.len() as int).0,
            };
            &&& expand_plan(roots2, t) == expand_plan(roots, t)
            &&& expand_plan(roots2, t) matches Some(q) ==> expand_along(roots2, q, 0, q.len() as int)
                == (roots2, Seq::<Seq<Seq<char>>>::empty())
        }),
{
    if walk_target(roots, t) is Some {
        lemma_walk_valid(roots, t);
        let q = expand_plan(roots, t).unwrap();
        let roots2 = expand_along(roots, q, 0, q.len() as int).0;
        if q.len() > 0 {
            lemma_walk_expand_along(roots, q, 0, q.len() as int, t);
            lemma_expand_along(roots, q, 0, q.len() as int, q);
        }
        lemma_expand_along_noop(roots2, q, q.len() as int);
    }
}

/// Selecting an item whose row is hidden under collapsed ancestors finds it:
/// when no row has the id `id`, and the walk of `expand_ancestors` reaches an
/// item with that id, the rows after expanding have a row with the id, the
/// one that `set_selected_item` then selects.
pub proof fn law_select_reveals(roots: Seq<ItemModel>, id: Seq<Seq<char>>)
    requires
        first_with_id(flatten(roots), id) is None,
        walk_target(roots, id) is Some,
        item_at(roots, walk_target(roots, id).unwrap()).id == id,
    ensures
        ({
            let q = expand_plan(roots, id).unwrap();
            let roots2 = expand_along(roots, q, 0, q.len() as int).0;
            first_with_id(flatten(roots2), id) matches Some(k) && flatten(roots2)[k].item.id == id
        }),
{
    let tp = walk_target(roots, id).unwrap();
    let q = tp.drop_last();
    let roots2 = expand_along(roots, q, 0, q.len() as int).0;
    let k = lemma_expand_reveals(roots, id);
    law_rows_show_unfolded_items(roots2, tp);
    assert(flatten(roots2)[k].item == item_at(roots2, tp));
    lemma_first_with_id_some(flatten(roots2), id, k);
}

/// Up and Down keep the selection on a row: from no selection or a selected
/// row, on nonempty rows, they select a row.
pub proof fn law_navigation_stays_in_rows(selected: Option<usize>, len: nat)
    requires
        0 < len <= usize::MAX,
        selected matches Some(s) ==> s < len,
    ensures
        up_index(selected, len) < len,
        down_index(selected, len) < len,
{
}


/// Down selects the next row, and from the last row (or past it) the first;
/// Up selects the previous row, and from the first row the last. No
/// selection counts as the first row.
pub proof fn law_navigation_moves(s: usize, len: nat)
    requires
        len <= usize::MAX,
    ensures
        s + 1 < len ==> down_index(Some(s), len) == s + 1,
        s + 1 >= len ==> down_index(Some(s), len) == 0,
        s > 0 ==> up_index(Some(s), len) == s - 1,
        s == 0 && len > 0 ==> up_index(Some(s), len) == len - 1,
        s == 0 && len == 0 ==> up_index(Some(s), len) == 0,
        down_index(None, len) == down_index(Some(0), len),
        up_index(None, len) == up_index(Some(0), len),
{
}

/// The row of a disabled item, folder or leaf, is exactly what ignores
/// clicks (see `on_entry_click` and `on_entry_right_click`).
pub proof fn law_disabled_rows_ignore_clicks(rows: Seq<EntryModel>, ix: usize)
    ensures
        row_disabled(rows, ix) <==> (ix < rows.len() && rows[ix as int].item.disabled),
{
}

/// Every row whose item has children toggles, whatever its depth, and only
/// those; the event is `Expanded` for a collapsed item and `Collapsed` for
/// an expanded one, with the item's id.
pub proof fn law_folder_rows_toggle(rows: Seq<EntryModel>, ix: usize)
    ensures
        toggles(rows, ix) <==> (ix < rows.len() && rows[ix as int].item.children.len() > 0),
        ix < rows.len() && !rows[ix as int].item.expanded ==> toggle_event(rows[ix as int])
            == EventModel::Expanded(rows[ix as int].item.id),
        ix < rows.len() && rows[ix as int].item.expanded ==> toggle_event(rows[ix as int])
            == EventModel::Collapsed(rows[ix as int].item.id),
{
}

/// The walk reaches an item only when every segment of the target is
/// matched: the path has one index per segment, and at every level it takes
/// the first item whose id ends in the matching segment (the first root for
/// the first segment, then the first child of the item reached so far), so
/// the item at each of its prefixes has an id ending in the matching segment.
/// The ancestors to expand are the items above the one reached.
pub proof fn law_walk_matches_every_segment(roots: Seq<ItemModel>, t: Seq<Seq<char>>)
    ensures
        walk_target(roots, t) matches Some(tp) ==> {
            &&& tp.len() == t.len()
            &&& valid_path(roots, tp)
            &&& forall|j: int|
                1 <= j <= t.len() ==> last_seg(#[trigger] item_at(roots, tp.take(j)).id) == Some(
                    t[j - 1],
                )
            &&& forall|x: int| 0 <= x < tp[0] ==> last_seg(#[trigger] roots[x].id) != Some(t[0])
            &&& forall|j: int, x: int|
                #![trigger item_at(roots, tp.take(j)).children[x]]
                1 <= j < t.len() && 0 <= x < tp[j] ==> last_seg(
                    item_at(roots, tp.take(j)).children[x].id,
                ) != Some(t[j])
            &&& expand_plan(roots, t) == Some(tp.drop_last())
        },
{
    lemma_first_item_with_last(roots, first_seg(t));
    match walk_target(roots, t) {
        Some(tp) => {
            lemma_walk_valid(roots, t);
            let i = first_item_with_last(roots, first_seg(t)).unwrap();
            if t.len() == 1 {
                assert forall|j: int| 1 <= j <= t.len() implies last_seg(
                    #[trigger] item_at(roots, tp.take(j)).id,
                ) == Some(t[j - 1]) by {
                    assert(tp.take(j) =~= tp);
                }
            } else {
                lemma_ancestor_path_matches(roots[i], rest(t));
                let c = ancestor_path(roots[i], rest(t)).unwrap();
                assert(tp == seq![i] + c);
                assert(t.len() >= 2);
                assert forall|j: int| 1 <= j <= t.len() implies last_seg(
                    #[trigger] item_at(roots, tp.take(j)).id,
                ) == Some(t[j - 1]) by {
                    if j == 1 {
                        assert(tp.take(j) =~= seq![i]);
                    } else {
                        assert(tp.take(j).drop_first() =~= c.take(j - 1));
                        assert(item_at(roots, tp.take(j)) == item_at(roots[i].children, c.take(j - 1)));
                        assert(rest(t)[j - 2] == t[j - 1]);
                    }
                }
                assert forall|j: int, x: int|
                    #![trigger item_at(roots, tp.take(j)).children[x]]
                    1 <= j < t.len() && 0 <= x < tp[j] implies last_seg(
                        item_at(roots, tp.take(j)).children[x].id,
                    ) != Some(t[j]) by {
                    if j == 1 {
                        assert(tp.take(1) =~= seq![i]);
                        assert(level(roots[i].children, c, 0) == roots[i].children);
                        assert(c[0] == tp[1]);
                        assert(rest(t)[0] == t[1]);
                        assert(last_seg(level(roots[i].children, c, 0)[x].id) != Some(rest(t)[0]));
                    } else {
                        assert(tp.take(j).drop_first() =~= c.take(j - 1));
                        assert(item_at(roots, tp.take(j)) == item_at(roots[i].children, c.take(j - 1)));
                        assert(level(roots[i].children, c, j - 1) == item_at(roots, tp.take(j)).children);
                        assert(c[j - 1] == tp[j]);
                        assert(rest(t)[j - 1] == t[j]);
                        assert(last_seg(level(roots[i].children, c, j - 1)[x].id) != Some(rest(t)[j - 1]));
                    }
                }
            }
        },
        None => {},
    }
}

/// Conversely, the walk reaches every item that a target names: a path with
/// one index per segment that takes, at every level, the first item whose id
/// ends in the matching segment is the path the walk gives. So the walk
/// fails only when some level has no item ending in its segment.
pub proof fn law_walk_complete(roots: Seq<ItemModel>, t: Seq<Seq<char>>, tp: Seq<int>)
    requires
        tp.len() == t.len(),
        tp.len() >= 1,
        valid_path(roots, tp),
        forall|j: int|
            1 <= j <= t.len() ==> last_seg(#[trigger] item_at(roots, tp.take(j)).id) == Some(t[j - 1]),
        forall|x: int| 0 <= x < tp[0] ==> last_seg(#[trigger] roots[x].id) != Some(t[0]),
        forall|j: int, x: int|
            #![trigger item_at(roots, tp.take(j)).children[x]]
            1 <= j < t.len() && 0 <= x < tp[j] ==> last_seg(item_at(roots, tp.take(j)).children[x].id)
                != Some(t[j]),
    ensures
        walk_target(roots, t) == Some(tp),
{
    let i = tp[0];
    assert(tp.take(1) =~= seq![i]);
    assert(item_at(roots, tp.take(1)) == roots[i]);
    lemma_first_item_is(roots, Some(t[0]), i);
    assert(first_seg(t) == Some(t[0]));
    if t.len() == 1 {
        assert(tp =~= seq![i]);
    } else {
        let c = tp.drop_first();
        let t2 = rest(t);
        let ch = roots[i].children;
        assert forall|j: int| 1 <= j <= c.len() implies last_seg(#[trigger] item_at(ch, c.take(j)).id)
            == Some(t2[j - 1]) by {
            assert(tp.take(j + 1).drop_first() =~= c.take(j));
            assert(item_at(roots, tp.take(j + 1)) == item_at(ch, c.take(j)));
            assert(last_seg(item_at(roots, tp.take(j + 1)).id) == Some(t[j]));
        }
        assert forall|j: int, x: int| 0 <= j < c.len() && 0 <= x < c[j] implies last_seg(
            #[trigger] level(ch, c, j)[x].id,
        ) != Some(t2[j]) by {
            if j > 0 {
                assert(tp.take(j + 1).drop_first() =~= c.take(j));
                assert(item_at(roots, tp.take(j + 1)) == item_at(ch, c.take(j)));
            }
            assert(level(ch, c, j) == item_at(roots, tp.take(j + 1)).children);
            assert(c[j] == tp[j + 1]);
            assert(last_seg(item_at(roots, tp.take(j + 1)).children[x].id) != Some(t[j + 1]));
        }
        lemma_ancestor_path_complete(roots[i], t2, c);
        assert(seq![i] + c =~= tp);
    }
}

/// The ids of the items at the prefixes of `q` of lengths `1` to `hi` that
/// are collapsed in `items`, top down.
pub open spec fn collapsed_on_path(items: Seq<ItemModel>, q: Seq<int>, hi: int) -> Seq<Seq<Seq<char>>>
    decreases hi,
{
    if hi <= 0 {
        Seq::empty()
    } else {
        let prev = collapsed_on_path(items, q, hi - 1);
        let node = item_at(items, q.take(hi));
        if node.expanded {
            prev
        } else {
            prev.push(node.id)
        }
    }
}

/// Expanding along `q` leaves the flag of every item off the path as it was.
proof fn lemma_expand_along_untouched(items: Seq<ItemModel>, q: Seq<int>, m: int, r: Seq<int>)
    requires
        valid_path(items, q),
        valid_path(items, r),
        0 <= m <= q.len(),
        forall|j: int| 1 <= j <= m ==> r != #[trigger] q.take(j),
    ensures
        item_at(expand_along(items, q, 0, m).0, r).expanded == item_at(items, r).expanded,
    decreases m,
{
    if m > 0 {
        let cur = expand_along(items, q, 0, m - 1).0;
        assert forall|j: int| 1 <= j <= m - 1 implies r != #[trigger] q.take(j) by {
            assert(r != q.take(j));
        }
        lemma_expand_along_untouched(items, q, m - 1, r);
        lemma_expand_along(items, q, 0, m - 1, r);
        lemma_expand_along(items, q, 0, m - 1, q);
        lemma_valid_path_take(cur, q, m);
        assert(r != q.take(m));
        lemma_set_expanded_shape(cur, q.take(m), true, r);
    }
}

/// Expanding the ancestors gives one `Expanded` id for each item on the path
/// that was collapsed, top down, and afterwards every item on the path is
/// expanded while every other item keeps its flag.
pub proof fn law_expand_events_are_collapsed_ancestors(items: Seq<ItemModel>, q: Seq<int>, hi: int, r: Seq<int>)
    requires
        valid_path(items, q),
        0 <= hi <= q.len(),
    ensures
        expand_along(items, q, 0, hi).1 == collapsed_on_path(items, q, hi),
        forall|j: int| 1 <= j <= hi ==> #[trigger] item_at(expand_along(items, q, 0, hi).0, q.take(j)).expanded,
        valid_path(items, r) && (forall|j: int| 1 <= j <= hi ==> r != #[trigger] q.take(j)) ==> item_at(
            expand_along(items, q, 0, hi).0,
            r,
        ).expanded == item_at(items, r).expanded,
    decreases hi,
{
    lemma_expand_along(items, q, 0, hi, q);
    if valid_path(items, r) && (forall|j: int| 1 <= j <= hi ==> r != #[trigger] q.take(j)) {
        lemma_expand_along_untouched(items, q, hi, r);
    }
    if hi > 0 {
        law_expand_events_are_collapsed_ancestors(items, q, hi - 1, r);
        let cur = expand_along(items, q, 0, hi - 1).0;
        lemma_valid_path_take(items, q, hi);
        assert forall|j: int| 1 <= j <= hi - 1 implies q.take(hi) != #[trigger] q.take(j) by {
            assert(q.take(hi).len() != q.take(j).len());
        }
        lemma_expand_along_untouched(items, q, hi - 1, q.take(hi));
        lemma_expand_along(items, q, 0, hi - 1, q.take(hi));
    }
}

/// The rows come in pre-order, siblings in their given order at every depth:
/// of two rows, the earlier one's path is a proper prefix of the later one's
/// (an ancestor before its descendants), or at the first index where the
/// paths differ the earlier one's child index is the smaller (an earlier
/// sibling's subtree before a later sibling's).
pub proof fn law_rows_in_preorder(roots: Seq<ItemModel>)
    ensures
        forall|k1: int, k2: int|
            0 <= k1 < k2 < flatten(roots).len() ==> {
                let a = #[trigger] flatten(roots)[k1].path;
                let b = #[trigger] flatten(roots)[k2].path;
                ||| (a.len() < b.len() && b.subrange(0, a.len() as int) == a)
                ||| exists|i: int|
                    0 <= i < a.len() && i < b.len() && #[trigger] a.subrange(0, i) == b.subrange(0, i)
                        && a[i] < b[i]
            },
{
    lemma_flatten_seq_order(roots, Seq::empty());
    assert forall|k1: int, k2: int| 0 <= k1 < k2 < flatten(roots).len() implies {
        let a = #[trigger] flatten(roots)[k1].path;
        let b = #[trigger] flatten(roots)[k2].path;
        ||| (a.len() < b.len() && b.subrange(0, a.len() as int) == a)
        ||| exists|i: int|
            0 <= i < a.len() && i < b.len() && #[trigger] a.subrange(0, i) == b.subrange(0, i) && a[i]
                < b[i]
    } by {
        assert(path_before(flatten(roots)[k1].path, flatten(roots)[k2].path));
    }
}

/// `index_of` finds the first row whose id ends in the key: that row matches
/// and no earlier one does; when it finds none, no row matches.
pub proof fn law_index_of_is_first(rows: Seq<EntryModel>, key: Option<Seq<char>>)
    ensures
        first_with_last(rows, key) matches Some(k) ==> {
            &&& 0 <= k < rows.len()
            &&& last_seg(rows[k].item.id) == key
            &&& forall|j: int| #![trigger rows[j]] 0 <= j < k ==> last_seg(rows[j].item.id) != key
        },
        first_with_last(rows, key) is None ==> forall|j: int|
            #![trigger rows[j]]
            0 <= j < rows.len() ==> last_seg(rows[j].item.id) != key,
    decreases rows.len(),
{
    if rows.len() > 0 {
        law_index_of_is_first(rows.drop_last(), key);
        assert forall|j: int| 0 <= j < rows.len() - 1 implies #[trigger] rows[j] == rows.drop_last()[j] by {}
    }
}

/// `set_selected_item` selects the first row with the item's id: that row has
/// it and no earlier one does; when it finds none, no row has it.
pub proof fn law_select_is_first(rows: Seq<EntryModel>, id: Seq<Seq<char>>)
    ensures
        first_with_id(rows, id) matches Some(k) ==> {
            &&& 0 <= k < rows.len()
            &&& rows[k].item.id == id
            &&& forall|j: int| #![trigger rows[j]] 0 <= j < k ==> rows[j].item.id != id
        },
        first_with_id(rows, id) is None ==> forall|j: int|
            #![trigger rows[j]]
            0 <= j < rows.len() ==> rows[j].item.id != id,
    decreases rows.len(),
{
    if rows.len() > 0 {
        law_select_is_first(rows.drop_last(), id);
        assert forall|j: int| 0 <= j < rows.len() - 1 implies #[trigger] rows[j] == rows.drop_last()[j] by {}
    }
}

/// `reveal_item` scrolls to the first row with the path of the item reached:
/// that row has the path and no earlier one does.
pub proof fn law_reveal_row_is_first(rows: Seq<EntryModel>, path: Seq<int>)
    ensures
        first_with_path(rows, path) matches Some(k) ==> {
            &&& 0 <= k < rows.len()
            &&& rows[k].path == path
            &&& forall|j: int| #![trigger rows[j]] 0 <= j < k ==> rows[j].path != path
        },
        first_with_path(rows, path) is None ==> forall|j: int|
            #![trigger rows[j]]
            0 <= j < rows.len() ==> rows[j].path != path,
    decreases rows.len(),
{
    if rows.len() > 0 {
        law_reveal_row_is_first(rows.drop_last(), path);
        assert forall|j: int| 0 <= j < rows.len() - 1 implies #[trigger] rows[j] == rows.drop_last()[j] by {}
    }
}

} // verus!
