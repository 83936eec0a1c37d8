use vstd::prelude::*;

verus! {

/// The mathematical value of a tree item: its id path, its label, its two
/// flags and its children in order.
pub struct ItemModel {
    pub id: Seq<Seq<char>>,
    pub label: Seq<char>,
    pub expanded: bool,
    pub disabled: bool,
    pub children: Seq<ItemModel>,
}

/// One visible row: the item shown there, its depth, and the position of the
/// item in the forest of roots (an index into the roots, then child indices).
pub struct EntryModel {
    pub item: ItemModel,
    pub depth: nat,
    pub path: Seq<int>,
}

/// The last segment of an id, if it has one.
pub open spec fn last_seg(id: Seq<Seq<char>>) -> Option<Seq<char>> {
    if id.len() == 0 {
        None
    } else {
        Some(id.last())
    }
}

/// The first segment of an id, if it has one.
pub open spec fn first_seg(id: Seq<Seq<char>>) -> Option<Seq<char>> {
    if id.len() == 0 {
        None
    } else {
        Some(id[0])
    }
}

/// The rows of one item at `path`: the item itself, then, when it is
/// expanded, the rows of its children one level deeper.
pub open spec fn flatten_node(item: ItemModel, path: Seq<int>) -> Seq<EntryModel>
    decreases item, 1int,
{
    let own = seq![EntryModel { item, depth: (path.len() - 1) as nat, path }];
    if item.expanded {
        own + flatten_seq(item.children, path)
    } else {
        own
    }
}

/// The rows of a sequence of sibling items whose parent sits at `prefix`.
pub open spec fn flatten_seq(items: Seq<ItemModel>, prefix: Seq<int>) -> Seq<EntryModel>
    decreases items, 0int,
{
    if items.len() == 0 {
        Seq::empty()
    } else {
        flatten_seq(items.drop_last(), prefix) + flatten_node(
            items.last(),
            prefix.push(items.len() - 1),
        )
    }
}

/// The visible rows of a forest of roots.
pub open spec fn flatten(roots: Seq<ItemModel>) -> Seq<EntryModel> {
    flatten_seq(roots, Seq::empty())
}


/// `path` leads to an item of the forest `items`: every index is in range.
pub open spec fn valid_path(items: Seq<ItemModel>, path: Seq<int>) -> bool
    decreases path.len(),
{
    &&& path.len() >= 1
    &&& 0 <= path[0] < items.len()
    &&& (path.len() > 1 ==> valid_path(items[path[0]].children, path.drop_first()))
}

/// The item at `path` in the forest `items`.
pub open spec fn item_at(items: Seq<ItemModel>, path: Seq<int>) -> ItemModel
    decreases path.len(),
{
    if path.len() <= 1 {
        items[path[0]]
    } else {
        item_at(items[path[0]].children, path.drop_first())
    }
}

/// The forest `items` with the `expanded` flag of the item at `path` set to `v`.
pub open spec fn set_expanded_at(items: Seq<ItemModel>, path: Seq<int>, v: bool) -> Seq<ItemModel>
    decreases path.len(),
{
    if path.len() == 0 || !(0 <= path[0] < items.len()) {
        items
    } else if path.len() == 1 {
        items.update(path[0], ItemModel { expanded: v, ..items[path[0]] })
    } else {
        items.update(
            path[0],
            ItemModel {
                children: set_expanded_at(items[path[0]].children, path.drop_first(), v),
                ..items[path[0]]
            },
        )
    }
}


/// Every row of `flatten_node(item, path)` sits at `path` or below it: its
/// path is `path` followed by a path `r` that is empty (the row of `item`
/// itself) or leads to the row's item among the children of `item`.
pub proof fn lemma_flatten_node_paths(item: ItemModel, path: Seq<int>)
    requires
        path.len() >= 1,
    ensures
        flatten_node(item, path).len() >= 1,
        flatten_node(item, path)[0] == (EntryModel { item, depth: (path.len() - 1) as nat, path }),
        forall|k: int|
            0 <= k < flatten_node(item, path).len() ==> {
                let e = #[trigger] flatten_node(item, path)[k];
                let r = e.path.subrange(path.len() as int, e.path.len() as int);
                &&& e.path.len() >= path.len()
                &&& e.path.subrange(0, path.len() as int) == path
                &&& e.depth == e.path.len() - 1
                &&& (r.len() == 0 <==> k == 0)
                &&& (r.len() > 0 ==> valid_path(item.children, r) && item_at(item.children, r)
                    == e.item)
            },
    decreases item, 1int,
{
    let own = seq![EntryModel { item, depth: (path.len() - 1) as nat, path }];
    if item.expanded {
        lemma_flatten_seq_paths(item.children, path);
        let rest = flatten_seq(item.children, path);
        assert forall|k: int| 0 <= k < flatten_node(item, path).len() implies {
            let e = #[trigger] flatten_node(item, path)[k];
            let r = e.path.subrange(path.len() as int, e.path.len() as int);
            &&& e.path.len() >= path.len()
            &&& e.path.subrange(0, path.len() as int) == path
            &&& e.depth == e.path.len() - 1
            &&& (r.len() == 0 <==> k == 0)
            &&& (r.len() > 0 ==> valid_path(item.children, r) && item_at(item.children, r)
                == e.item)
        } by {
            let e = flatten_node(item, path)[k];
            if k == 0 {
                assert(e.path.subrange(0, path.len() as int) =~= path);
            } else {
                assert(e == rest[k - 1]);
            }
        }
    } else {
        assert forall|k: int| 0 <= k < flatten_node(item, path).len() implies {
            let e = #[trigger] flatten_node(item, path)[k];
            let r = e.path.subrange(path.len() as int, e.path.len() as int);
            &&& e.path.len() >= path.len()
            &&& e.path.subrange(0, path.len() as int) == path
            &&& e.depth == e.path.len() - 1
            &&& (r.len() == 0 <==> k == 0)
            &&& (r.len() > 0 ==> valid_path(item.children, r) && item_at(item.children, r)
                == e.item)
        } by {
            assert(k == 0);
            assert(flatten_node(item, path)[k].path.subrange(0, path.len() as int) =~= path);
        }
    }
}

/// Every row of `flatten_seq(items, prefix)` has a path `prefix` followed by a
/// valid path `r` into `items` that leads to the row's item; its depth is one
/// less than the length of its path.
pub proof fn lemma_flatten_seq_paths(items: Seq<ItemModel>, prefix: Seq<int>)
    ensures
        forall|k: int|
            0 <= k < flatten_seq(items, prefix).len() ==> {
                let e = #[trigger] flatten_seq(items, prefix)[k];
                let r = e.path.subrange(prefix.len() as int, e.path.len() as int);
                &&& e.path.len() > prefix.len()
                &&& e.path.subrange(0, prefix.len() as int) == prefix
                &&& e.depth == e.path.len() - 1
                &&& valid_path(items, r)
                &&& item_at(items, r) == e.item
            },
    decreases items, 0int,
{
    if items.len() > 0 {
        let n = items.len() - 1;
        let init = items.drop_last();
        lemma_flatten_seq_paths(init, prefix);
        let np = prefix.push(n);
        lemma_flatten_node_paths(items.last(), np);
        let a = flatten_seq(init, prefix);
        let b = flatten_node(items.last(), np);
        assert forall|k: int| 0 <= k < flatten_seq(items, prefix).len() implies {
            let e = #[trigger] flatten_seq(items, prefix)[k];
            let r = e.path.subrange(prefix.len() as int, e.path.len() as int);
            &&& e.path.len() > prefix.len()
            &&& e.path.subrange(0, prefix.len() as int) == prefix
            &&& e.depth == e.path.len() - 1
            &&& valid_path(items, r)
            &&& item_at(items, r) == e.item
        } by {
            let e = flatten_seq(items, prefix)[k];
            let r = e.path.subrange(prefix.len() as int, e.path.len() as int);
            if k < a.len() {
                assert(e == a[k]);
                lemma_valid_path_prefix_items(init, items, r);
            } else {
                let j = k - a.len();
                assert(e == b[j]);
                let r2 = e.path.subrange(np.len() as int, e.path.len() as int);
                assert(e.path.subrange(0, np.len() as int) == np);
                assert(e.path.subrange(0, prefix.len() as int) =~= np.subrange(0, prefix.len() as int));
                assert(np.subrange(0, prefix.len() as int) =~= prefix);
                assert(r[0] == np[prefix.len() as int]);
                assert(r[0] == n);
                assert(r.drop_first() =~= r2);
            }
        }
    }
}

/// A valid path into a prefix of a forest is valid in the whole forest and
/// leads to the same item.
pub proof fn lemma_valid_path_prefix_items(init: Seq<ItemModel>, items: Seq<ItemModel>, r: Seq<int>)
    requires
        init.len() <= items.len(),
        forall|i: int| 0 <= i < init.len() ==> #[trigger] init[i] == items[i],
        valid_path(init, r),
    ensures
        valid_path(items, r),
        item_at(items, r) == item_at(init, r),
{
    assert(init[r[0]] == items[r[0]]);
}


/// The first index of `items` whose id ends in `key`, if there is one.
pub open spec fn first_item_with_last(items: Seq<ItemModel>, key: Option<Seq<char>>) -> Option<int>
    decreases items.len(),
{
    if items.len() == 0 {
        None
    } else {
        match first_item_with_last(items.drop_last(), key) {
            Some(k) => Some(k),
            None => if last_seg(items.last().id) == key {
                Some(items.len() - 1)
            } else {
                None
            },
        }
    }
}

/// A target id without its first segment (an empty one stays empty).
pub open spec fn rest(target: Seq<Seq<char>>) -> Seq<Seq<char>> {
    if target.len() == 0 {
        target
    } else {
        target.drop_first()
    }
}

/// The child indices that lead from `item` down to the item that `target`
/// names, one segment per level: at each level the first child whose id ends
/// in the next segment. `None` where a level has no such child.
pub open spec fn ancestor_path(item: ItemModel, target: Seq<Seq<char>>) -> Option<Seq<int>>
    decreases item,
{
    match first_item_with_last(item.children, first_seg(target)) {
        None => None,
        Some(c) => if !(0 <= c < item.children.len()) {
            None
        } else if target.len() == 1 {
            Some(seq![c])
        } else {
            match ancestor_path(item.children[c], rest(target)) {
                Some(p) => Some(seq![c] + p),
                None => None,
            }
        },
    }
}

/// `first_item_with_last` finds an index in range whose id ends in `key`,
/// and no earlier one does.
pub proof fn lemma_first_item_with_last(items: Seq<ItemModel>, key: Option<Seq<char>>)
    ensures
        first_item_with_last(items, key) matches Some(k) ==> {
            &&& 0 <= k < items.len()
            &&& last_seg(items[k].id) == key
            &&& forall|j: int| 0 <= j < k ==> last_seg(#[trigger] items[j].id) != key
        },
        first_item_with_last(items, key) is None ==> forall|j: int|
            0 <= j < items.len() ==> last_seg(#[trigger] items[j].id) != key,
    decreases items.len(),
{
    if items.len() > 0 {
        lemma_first_item_with_last(items.drop_last(), key);
        assert forall|j: int| 0 <= j < items.len() - 1 implies #[trigger] items[j] == items.drop_last()[j] by {}
    }
}

/// A path that `ancestor_path` finds is a valid path among the children.
pub proof fn lemma_ancestor_path_valid(item: ItemModel, target: Seq<Seq<char>>)
    ensures
        ancestor_path(item, target) matches Some(p) ==> valid_path(item.children, p),
    decreases item,
{
    lemma_first_item_with_last(item.children, first_seg(target));
    match first_item_with_last(item.children, first_seg(target)) {
        None => {},
        Some(c) => {
            if 0 <= c < item.children.len() && target.len() != 1 {
                lemma_ancestor_path_valid(item.children[c], rest(target));
                match ancestor_path(item.children[c], rest(target)) {
                    Some(p) => {
                        assert((seq![c] + p).drop_first() =~= p);
                    },
                    None => {},
                }
            }
        },
    }
}


/// When the item before `i` is the first match, `first_item_with_last`
/// finds it.
pub proof fn lemma_first_item_with_last_prefix(items: Seq<ItemModel>, i: int, key: Option<Seq<char>>)
    requires
        1 <= i <= items.len(),
        first_item_with_last(items.take(i - 1), key) is None,
        last_seg(items[i - 1].id) == key,
    ensures
        first_item_with_last(items, key) == Some(i - 1),
    decreases items.len() - i,
{
    if i == items.len() {
        assert(items.drop_last() =~= items.take(i - 1));
    } else {
        assert(items.drop_last().take(i - 1) =~= items.take(i - 1));
        assert(items.drop_last()[i - 1] == items[i - 1]);
        lemma_first_item_with_last_prefix(items.drop_last(), i, key);
    }
}


/// Setting a flag keeps the shape of the forest: the same paths are valid,
/// and they lead to items with the same ids and numbers of children; only the
/// item at `p` has its flag changed.
pub proof fn lemma_set_expanded_shape(items: Seq<ItemModel>, p: Seq<int>, v: bool, r: Seq<int>)
    requires
        valid_path(items, p),
    ensures
        set_expanded_at(items, p, v).len() == items.len(),
        valid_path(set_expanded_at(items, p, v), r) == valid_path(items, r),
        valid_path(items, r) ==> {
            let a = item_at(set_expanded_at(items, p, v), r);
            let b = item_at(items, r);
            &&& a.id == b.id
            &&& a.label == b.label
            &&& a.disabled == b.disabled
            &&& a.children.len() == b.children.len()
            &&& a.expanded == (if r == p { v } else { b.expanded })
        },
    decreases p.len() + r.len(),
{
    let s = set_expanded_at(items, p, v);
    if p.len() > 1 {
        lemma_set_expanded_shape(items[p[0]].children, p.drop_first(), v, Seq::empty());
    }
    if r.len() >= 1 && 0 <= r[0] < items.len() {
        if r[0] != p[0] {
            assert(s[r[0]] == items[r[0]]);
        } else if p.len() == 1 {
            if r.len() > 1 {
                assert(s[r[0]].children == items[r[0]].children);
                assert(r != p);
            } else {
                assert(r =~= p);
            }
        } else {
            let c = items[p[0]].children;
            if r.len() > 1 {
                lemma_set_expanded_shape(c, p.drop_first(), v, r.drop_first());
                if r == p {
                    assert(r.drop_first() == p.drop_first());
                } else {
                    assert(r.drop_first() != p.drop_first()) by {
                        if r.drop_first() == p.drop_first() {
                            assert forall|i: int| 0 <= i < r.len() implies r[i] == p[i] by {
                                if i > 0 {
                                    assert(r[i] == r.drop_first()[i - 1]);
                                    assert(p[i] == p.drop_first()[i - 1]);
                                }
                            }
                            assert(r =~= p);
                        }
                    }
                }
            } else {
                assert(r != p);
            }
        }
    }
}

/// Following `path` and then `c` among the children of the item reached is
/// following `path + c`.
pub proof fn lemma_valid_path_concat(items: Seq<ItemModel>, path: Seq<int>, c: Seq<int>)
    requires
        valid_path(items, path),
        valid_path(item_at(items, path).children, c),
    ensures
        valid_path(items, path + c),
        item_at(items, path + c) == item_at(item_at(items, path).children, c),
    decreases path.len(),
{
    let pc = path + c;
    if path.len() == 1 {
        assert(pc.drop_first() =~= c);
    } else {
        lemma_valid_path_concat(items[path[0]].children, path.drop_first(), c);
        assert(pc.drop_first() =~= path.drop_first() + c);
    }
}

/// Every nonempty prefix of a valid path is valid.
pub proof fn lemma_valid_path_take(items: Seq<ItemModel>, q: Seq<int>, n: int)
    requires
        valid_path(items, q),
        1 <= n <= q.len(),
    ensures
        valid_path(items, q.take(n)),
    decreases q.len(),
{
    if n > 1 {
        lemma_valid_path_take(items[q[0]].children, q.drop_first(), n - 1);
        assert(q.take(n).drop_first() =~= q.drop_first().take(n - 1));
    }
}

/// Expands, top down, the items at the prefixes of `q` of lengths `lo + 1`
/// to `hi`; gives the new forest and the ids of the items that were
/// collapsed before, in that order.
pub open spec fn expand_along(items: Seq<ItemModel>, q: Seq<int>, lo: int, hi: int) -> (Seq<ItemModel>, Seq<Seq<Seq<char>>>)
    decreases hi - lo,
{
    if hi <= lo {
        (items, Seq::empty())
    } else {
        let (cur, ids) = expand_along(items, q, lo, hi - 1);
        let node = item_at(cur, q.take(hi));
        if node.expanded {
            (cur, ids)
        } else {
            (set_expanded_at(cur, q.take(hi), true), ids.push(node.id))
        }
    }
}


/// The item `item` with the flag at the relative path `p` set to `v`: its own
/// flag when `p` is empty, else the flag of an item below it.
pub open spec fn set_expanded_node(item: ItemModel, p: Seq<int>, v: bool) -> ItemModel {
    if p.len() == 0 {
        ItemModel { expanded: v, ..item }
    } else {
        ItemModel { children: set_expanded_at(item.children, p, v), ..item }
    }
}

/// Setting the flag at `p` leaves the row of the item at `p` where it was:
/// the row with path `pre + p` keeps its index.
pub proof fn lemma_flatten_seq_set_keeps_row(
    items: Seq<ItemModel>,
    pre: Seq<int>,
    p: Seq<int>,
    v: bool,
    k: int,
)
    requires
        valid_path(items, p),
        0 <= k < flatten_seq(items, pre).len(),
        flatten_seq(items, pre)[k].path == pre + p,
    ensures
        k < flatten_seq(set_expanded_at(items, p, v), pre).len(),
        flatten_seq(set_expanded_at(items, p, v), pre)[k].path == pre + p,
    decreases items, 0int,
{
    let n = items.len() - 1;
    let init = items.drop_last();
    let np = pre.push(n);
    let a = flatten_seq(init, pre);
    let b = flatten_node(items.last(), np);
    let s = set_expanded_at(items, p, v);
    lemma_flatten_seq_paths(init, pre);
    lemma_flatten_node_paths(items.last(), np);
    let e = flatten_seq(items, pre)[k];
    if k < a.len() {
        assert(e == a[k]);
        let r = e.path.subrange(pre.len() as int, e.path.len() as int);
        assert(r =~= p);
        assert(valid_path(init, p));
        assert(p[0] < n);
        assert(s.drop_last() =~= set_expanded_at(init, p, v));
        assert(s.last() == items.last());
        lemma_flatten_seq_set_keeps_row(init, pre, p, v, k);
        assert(flatten_seq(s, pre) == flatten_seq(s.drop_last(), pre) + flatten_node(s.last(), pre.push(s.len() - 1)));
    } else {
        let j = k - a.len();
        assert(e == b[j]);
        assert(e.path.subrange(0, np.len() as int) == np);
        assert(e.path[pre.len() as int] == np[pre.len() as int]);
        assert((pre + p)[pre.len() as int] == p[0]);
        assert(p[0] == n);
        let p2 = p.drop_first();
        assert(e.path.subrange(np.len() as int, e.path.len() as int) =~= p2);
        assert(np + p2 =~= pre + p);
        assert(s.drop_last() =~= init);
        assert(s.last() == set_expanded_node(items.last(), p2, v));
        lemma_flatten_node_set_keeps_row(items.last(), np, p2, v, j);
        assert(flatten_seq(s, pre) == flatten_seq(s.drop_last(), pre) + flatten_node(s.last(), pre.push(s.len() - 1)));
    }
}

/// Setting the flag at `p` below `item` leaves the row with path `path + p`
/// where it was.
pub proof fn lemma_flatten_node_set_keeps_row(
    item: ItemModel,
    path: Seq<int>,
    p: Seq<int>,
    v: bool,
    k: int,
)
    requires
        path.len() >= 1,
        p.len() == 0 || valid_path(item.children, p),
        0 <= k < flatten_node(item, path).len(),
        flatten_node(item, path)[k].path == path + p,
    ensures
        k < flatten_node(set_expanded_node(item, p, v), path).len(),
        flatten_node(set_expanded_node(item, p, v), path)[k].path == path + p,
    decreases item, 1int,
{
    let it2 = set_expanded_node(item, p, v);
    lemma_flatten_node_paths(item, path);
    lemma_flatten_node_paths(it2, path);
    let e = flatten_node(item, path)[k];
    assert(e.path.subrange(path.len() as int, e.path.len() as int) =~= p);
    if p.len() == 0 {
        assert(k == 0);
        assert(path + p =~= path);
    } else {
        assert(k != 0);
        assert(item.expanded);
        let rest = flatten_seq(item.children, path);
        assert(e == rest[k - 1]);
        lemma_flatten_seq_set_keeps_row(item.children, path, p, v, k - 1);
        assert(flatten_node(it2, path)[k] == flatten_seq(set_expanded_at(item.children, p, v), path)[k - 1]);
    }
}

/// Setting the flag at `p` back to what it was undoes setting it.
pub proof fn lemma_set_expanded_undo(items: Seq<ItemModel>, p: Seq<int>, w: bool)
    requires
        valid_path(items, p),
    ensures
        set_expanded_at(set_expanded_at(items, p, w), p, item_at(items, p).expanded) == items,
    decreases p.len(),
{
    let s = set_expanded_at(items, p, w);
    let t = set_expanded_at(s, p, item_at(items, p).expanded);
    if p.len() == 1 {
        assert(t =~= items);
    } else {
        lemma_set_expanded_undo(items[p[0]].children, p.drop_first(), w);
        assert(t[p[0]] == items[p[0]]);
        assert(t =~= items);
    }
}


/// The items of the rows at depth 0, in order.
pub open spec fn root_items(rows: Seq<EntryModel>) -> Seq<ItemModel>
    decreases rows.len(),
{
    if rows.len() == 0 {
        Seq::empty()
    } else if rows.last().depth == 0 {
        root_items(rows.drop_last()).push(rows.last().item)
    } else {
        root_items(rows.drop_last())
    }
}

/// `root_items` of a concatenation is the concatenation of `root_items`.
pub proof fn lemma_root_items_add(a: Seq<EntryModel>, b: Seq<EntryModel>)
    ensures
        root_items(a + b) == root_items(a) + root_items(b),
    decreases b.len(),
{
    if b.len() == 0 {
        assert(a + b =~= a);
        assert(root_items(a) + root_items(b) =~= root_items(a));
    } else {
        assert((a + b).drop_last() =~= a + b.drop_last());
        lemma_root_items_add(a, b.drop_last());
        if b.last().depth == 0 {
            assert(root_items(a + b) =~= root_items(a) + root_items(b));
        }
    }
}

/// Rows that are all below the top level have no root items.
pub proof fn lemma_root_items_none(rows: Seq<EntryModel>)
    requires
        forall|k: int| 0 <= k < rows.len() ==> #[trigger] rows[k].depth > 0,
    ensures
        root_items(rows) == Seq::<ItemModel>::empty(),
    decreases rows.len(),
{
    if rows.len() > 0 {
        lemma_root_items_none(rows.drop_last());
    }
}

/// The rows of the forest at depth 0 show exactly its roots, in order: the
/// roots can be read back from the rows.
pub proof fn lemma_root_items_flatten(roots: Seq<ItemModel>)
    ensures
        root_items(flatten(roots)) == roots,
    decreases roots.len(),
{
    if roots.len() > 0 {
        let n = roots.len() - 1;
        let init = roots.drop_last();
        lemma_root_items_flatten(init);
        let np = Seq::<int>::empty().push(n);
        let b = flatten_node(roots.last(), np);
        lemma_flatten_node_paths(roots.last(), np);
        lemma_root_items_add(flatten(init), b);
        let tail = b.drop_first();
        assert forall|k: int| 0 <= k < tail.len() implies #[trigger] tail[k].depth > 0 by {
            assert(tail[k] == b[k + 1]);
        }
        lemma_root_items_none(tail);
        assert(b =~= seq![b[0]] + tail);
        lemma_root_items_add(seq![b[0]], tail);
        let one = seq![b[0]];
        assert(root_items(one) =~= seq![roots.last()]) by {
            assert(one.drop_last() =~= Seq::<EntryModel>::empty());
            assert(root_items(one.drop_last()) == Seq::<ItemModel>::empty());
            assert(one.last().depth == 0);
            assert(one.last().item == roots.last());
        }
        assert(roots =~= init.push(roots.last()));
        assert(root_items(flatten(roots)) =~= roots);
    }
}


/// Every item strictly above the end of `p` is expanded.
pub open spec fn ancestors_expanded(items: Seq<ItemModel>, p: Seq<int>) -> bool
    decreases p.len(),
{
    p.len() <= 1 || (items[p[0]].expanded && ancestors_expanded(items[p[0]].children, p.drop_first()))
}

/// A row of `flatten_seq(items, pre)` sits at `pre + r` where every item above
/// the end of `r` is expanded.
pub proof fn lemma_flatten_seq_shown(items: Seq<ItemModel>, pre: Seq<int>, k: int)
    requires
        0 <= k < flatten_seq(items, pre).len(),
    ensures
        ancestors_expanded(
            items,
            flatten_seq(items, pre)[k].path.subrange(
                pre.len() as int,
                flatten_seq(items, pre)[k].path.len() as int,
            ),
        ),
    decreases items, 0int,
{
    let n = items.len() - 1;
    let init = items.drop_last();
    let np = pre.push(n);
    let a = flatten_seq(init, pre);
    let b = flatten_node(items.last(), np);
    lemma_flatten_seq_paths(items, pre);
    lemma_flatten_seq_paths(init, pre);
    lemma_flatten_node_paths(items.last(), np);
    let e = flatten_seq(items, pre)[k];
    let r = e.path.subrange(pre.len() as int, e.path.len() as int);
    if k < a.len() {
        assert(e == a[k]);
        lemma_flatten_seq_shown(init, pre, k);
        if r.len() > 1 {
            assert(init[r[0]] == items[r[0]]);
        }
    } else {
        let j = k - a.len();
        assert(e == b[j]);
        assert(e.path.subrange(0, np.len() as int) == np);
        assert(r[0] == e.path[pre.len() as int]);
        assert(e.path[pre.len() as int] == np[pre.len() as int]);
        let r2 = e.path.subrange(np.len() as int, e.path.len() as int);
        assert(r.drop_first() =~= r2);
        if r.len() > 1 {
            lemma_flatten_node_shown(items.last(), np, j);
        }
    }
}

/// A row of `flatten_node(item, path)` below `item` sits at `path + r` where
/// `item` is expanded and every item above the end of `r` is expanded.
pub proof fn lemma_flatten_node_shown(item: ItemModel, path: Seq<int>, k: int)
    requires
        path.len() >= 1,
        1 <= k < flatten_node(item, path).len(),
    ensures
        item.expanded,
        ancestors_expanded(
            item.children,
            flatten_node(item, path)[k].path.subrange(
                path.len() as int,
                flatten_node(item, path)[k].path.len() as int,
            ),
        ),
    decreases item, 1int,
{
    if item.expanded {
        assert(flatten_node(item, path)[k] == flatten_seq(item.children, path)[k - 1]);
        lemma_flatten_seq_shown(item.children, path, k - 1);
    }
}

/// When every item above the end of a valid path `p` is expanded, the item
/// at `p` has a row, and its index is returned.
pub proof fn lemma_row_of_path(items: Seq<ItemModel>, pre: Seq<int>, p: Seq<int>) -> (k: int)
    requires
        valid_path(items, p),
        ancestors_expanded(items, p),
    ensures
        0 <= k < flatten_seq(items, pre).len(),
        flatten_seq(items, pre)[k].path == pre + p,
    decreases items, 0int,
{
    let n = items.len() - 1;
    let init = items.drop_last();
    let np = pre.push(n);
    let a = flatten_seq(init, pre);
    if p[0] < n {
        assert(init[p[0]] == items[p[0]]);
        let k = lemma_row_of_path(init, pre, p);
        k
    } else {
        let p2 = p.drop_first();
        assert(np + p2 =~= pre + p);
        let j = lemma_row_of_node(items.last(), np, p2);
        a.len() + j
    }
}

/// The row of the item at `path + p` within `flatten_node(item, path)`, when
/// `p` is empty or `item` is expanded and every item above the end of `p`
/// among its children is expanded.
pub proof fn lemma_row_of_node(item: ItemModel, path: Seq<int>, p: Seq<int>) -> (k: int)
    requires
        path.len() >= 1,
        p.len() == 0 || (valid_path(item.children, p) && item.expanded && ancestors_expanded(
            item.children,
            p,
        )),
    ensures
        0 <= k < flatten_node(item, path).len(),
        flatten_node(item, path)[k].path == path + p,
    decreases item, 1int,
{
    if p.len() == 0 {
        assert(path + p =~= path);
        0
    } else {
        let j = lemma_row_of_path(item.children, path, p);
        assert(flatten_node(item, path)[j + 1] == flatten_seq(item.children, path)[j]);
        j + 1
    }
}


/// `ancestors_expanded` holds exactly when the items at all the proper
/// prefixes of `p` are expanded.
pub proof fn lemma_ancestors_expanded_prefixes(items: Seq<ItemModel>, p: Seq<int>)
    requires
        valid_path(items, p),
    ensures
        ancestors_expanded(items, p) <==> forall|j: int|
            1 <= j < p.len() ==> #[trigger] item_at(items, p.take(j)).expanded,
    decreases p.len(),
{
    if p.len() > 1 {
        let c = items[p[0]].children;
        let p2 = p.drop_first();
        lemma_ancestors_expanded_prefixes(c, p2);
        assert(p.take(1) =~= seq![p[0]]);
        assert forall|j: int| 2 <= j < p.len() implies #[trigger] item_at(items, p.take(j)) == item_at(
            c,
            p2.take(j - 1),
        ) by {
            assert(p.take(j).drop_first() =~= p2.take(j - 1));
        }
        if ancestors_expanded(items, p) {
            assert forall|j: int| 1 <= j < p.len() implies #[trigger] item_at(items, p.take(j)).expanded by {
                if j >= 2 {
                    assert(item_at(c, p2.take(j - 1)).expanded);
                }
            }
        }
        if forall|j: int| 1 <= j < p.len() ==> #[trigger] item_at(items, p.take(j)).expanded {
            assert(item_at(items, p.take(1)).expanded);
            assert forall|j: int| 1 <= j < p2.len() implies #[trigger] item_at(c, p2.take(j)).expanded by {
                assert(item_at(items, p.take(j + 1)).expanded);
            }
        }
    }
}

/// `expand_along` keeps the shape of the forest and only turns flags on;
/// afterwards the items at the prefixes of `q` of lengths `lo + 1` to `hi`
/// are all expanded.
pub proof fn lemma_expand_along(items: Seq<ItemModel>, q: Seq<int>, lo: int, hi: int, r: Seq<int>)
    requires
        valid_path(items, q),
        0 <= lo,
        hi <= q.len(),
    ensures
        valid_path(expand_along(items, q, lo, hi).0, q),
        valid_path(expand_along(items, q, lo, hi).0, r) == valid_path(items, r),
        valid_path(items, r) ==> {
            let a = item_at(expand_along(items, q, lo, hi).0, r);
            let b = item_at(items, r);
            &&& a.id == b.id
            &&& a.children.len() == b.children.len()
            &&& (b.expanded ==> a.expanded)
        },
        forall|j: int|
            lo < j <= hi ==> #[trigger] item_at(expand_along(items, q, lo, hi).0, q.take(j)).expanded,
    decreases hi - lo,
{
    if hi > lo {
        let cur = expand_along(items, q, lo, hi - 1).0;
        lemma_expand_along(items, q, lo, hi - 1, r);
        lemma_expand_along(items, q, lo, hi - 1, q);
        lemma_valid_path_take(cur, q, hi);
        let node = item_at(cur, q.take(hi));
        if !node.expanded {
            lemma_set_expanded_shape(cur, q.take(hi), true, r);
            lemma_set_expanded_shape(cur, q.take(hi), true, q);
            let res = set_expanded_at(cur, q.take(hi), true);
            assert forall|j: int| lo < j <= hi implies #[trigger] item_at(res, q.take(j)).expanded by {
                lemma_valid_path_take(cur, q, j);
                lemma_set_expanded_shape(cur, q.take(hi), true, q.take(j));
                if j < hi {
                    assert(item_at(cur, q.take(j)).expanded);
                }
            }
        } else {
            assert forall|j: int| lo < j <= hi implies #[trigger] item_at(cur, q.take(j)).expanded by {
                if j < hi {
                    assert(item_at(expand_along(items, q, lo, hi - 1).0, q.take(j)).expanded);
                }
            }
        }
    }
}


/// Where the walk of `expand_ancestors` for `target` ends: it starts at the
/// first root whose id ends in the first segment (the item reached, for a
/// target of one segment), then goes down the children by the remaining
/// segments (see `ancestor_path`). The path of the item reached, if the walk
/// reaches one.
pub open spec fn walk_target(roots: Seq<ItemModel>, target: Seq<Seq<char>>) -> Option<Seq<int>> {
    match first_item_with_last(roots, first_seg(target)) {
        None => None,
        Some(i) => if !(0 <= i < roots.len()) {
            None
        } else if target.len() == 1 {
            Some(seq![i])
        } else {
            match ancestor_path(roots[i], rest(target)) {
                Some(c) => Some(seq![i] + c),
                None => None,
            }
        },
    }
}

/// The path to the parent of the item that the walk for `target` reaches:
/// the items at its nonempty prefixes are the ancestors to expand.
pub open spec fn expand_plan(roots: Seq<ItemModel>, target: Seq<Seq<char>>) -> Option<Seq<int>> {
    match walk_target(roots, target) {
        Some(tp) => Some(tp.drop_last()),
        None => None,
    }
}

/// The first index of `rows` whose path is `path`, if there is one.
pub open spec fn first_with_path(rows: Seq<EntryModel>, path: Seq<int>) -> Option<int>
    decreases rows.len(),
{
    if rows.len() == 0 {
        None
    } else {
        match first_with_path(rows.drop_last(), path) {
            Some(k) => Some(k),
            None => if rows.last().path == path {
                Some(rows.len() - 1)
            } else {
                None
            },
        }
    }
}

/// `first_with_path` finds an index in range with that path.
pub proof fn lemma_first_with_path(rows: Seq<EntryModel>, path: Seq<int>)
    ensures
        first_with_path(rows, path) matches Some(j) ==> 0 <= j < rows.len() && rows[j].path == path,
    decreases rows.len(),
{
    if rows.len() > 0 {
        lemma_first_with_path(rows.drop_last(), path);
    }
}

/// When some row has the path, `first_with_path` finds one no later.
pub proof fn lemma_first_with_path_some(rows: Seq<EntryModel>, path: Seq<int>, k: int)
    requires
        0 <= k < rows.len(),
        rows[k].path == path,
    ensures
        first_with_path(rows, path) matches Some(j) && 0 <= j <= k && rows[j].path == path,
    decreases rows.len(),
{
    lemma_first_with_path(rows, path);
    if k < rows.len() - 1 {
        assert(rows.drop_last()[k] == rows[k]);
        lemma_first_with_path_some(rows.drop_last(), path, k);
    } else {
        lemma_first_with_path(rows.drop_last(), path);
    }
}

/// When the row before `i` is the first with `path`, `first_with_path` finds it.
pub proof fn lemma_first_with_path_prefix(rows: Seq<EntryModel>, i: int, path: Seq<int>)
    requires
        1 <= i <= rows.len(),
        first_with_path(rows.take(i - 1), path) is None,
        rows[i - 1].path == path,
    ensures
        first_with_path(rows, path) == Some(i - 1),
    decreases rows.len() - i,
{
    if i == rows.len() {
        assert(rows.drop_last() =~= rows.take(i - 1));
    } else {
        assert(rows.drop_last().take(i - 1) =~= rows.take(i - 1));
        assert(rows.drop_last()[i - 1] == rows[i - 1]);
        lemma_first_with_path_prefix(rows.drop_last(), i, path);
    }
}

/// A path that the walk reaches is valid, and so is the path to its parent
/// when it has one (the item reached is not a root).
pub proof fn lemma_walk_valid(roots: Seq<ItemModel>, t: Seq<Seq<char>>)
    requires
        walk_target(roots, t) is Some,
    ensures
        ({
            let tp = walk_target(roots, t).unwrap();
            &&& tp.len() >= 1
            &&& valid_path(roots, tp)
            &&& (tp.len() >= 2 ==> valid_path(roots, tp.drop_last()))
            &&& tp.take(tp.len() - 1) == tp.drop_last()
        }),
{
    let i = first_item_with_last(roots, first_seg(t)).unwrap();
    let tp = walk_target(roots, t).unwrap();
    if t.len() == 1 {
        assert(tp.take(tp.len() - 1) =~= tp.drop_last());
    } else {
        lemma_ancestor_path_valid(roots[i], rest(t));
        let c = ancestor_path(roots[i], rest(t)).unwrap();
        assert(tp == seq![i] + c);
        assert(item_at(roots, seq![i]) == roots[i]);
        lemma_valid_path_concat(roots, seq![i], c);
        lemma_valid_path_take(roots, tp, tp.len() - 1);
        assert(tp.take(tp.len() - 1) =~= tp.drop_last());
    }
}

/// Expanding the ancestors that the walk names reveals the item it reaches:
/// afterwards that item (with the same id) has a row, whose index is
/// returned.
pub proof fn lemma_expand_reveals(roots: Seq<ItemModel>, t: Seq<Seq<char>>) -> (k: int)
    requires
        walk_target(roots, t) is Some,
    ensures
        ({
            let tp = walk_target(roots, t).unwrap();
            let q = tp.drop_last();
            let roots2 = expand_along(roots, q, 0, q.len() as int).0;
            &&& valid_path(roots2, tp)
            &&& item_at(roots2, tp).id == item_at(roots, tp).id
            &&& ancestors_expanded(roots2, tp)
            &&& 0 <= k < flatten(roots2).len()
            &&& flatten(roots2)[k].path == tp
        }),
{
    lemma_walk_valid(roots, t);
    let tp = walk_target(roots, t).unwrap();
    let q = tp.drop_last();
    let roots2 = expand_along(roots, q, 0, q.len() as int).0;
    if q.len() > 0 {
        lemma_expand_along(roots, q, 0, q.len() as int, tp);
        assert forall|j: int| 1 <= j < tp.len() implies #[trigger] item_at(roots2, tp.take(j)).expanded by {
            assert(tp.take(j) =~= q.take(j));
        }
    }
    lemma_ancestors_expanded_prefixes(roots2, tp);
    let k = lemma_row_of_path(roots2, Seq::empty(), tp);
    assert(Seq::<int>::empty() + tp =~= tp);
    k
}

/// Two sequences of items with the same ids give the same first match.
pub proof fn lemma_first_item_same_ids(a: Seq<ItemModel>, b: Seq<ItemModel>, key: Option<Seq<char>>)
    requires
        a.len() == b.len(),
        forall|j: int| 0 <= j < a.len() ==> #[trigger] a[j].id == b[j].id,
    ensures
        first_item_with_last(a, key) == first_item_with_last(b, key),
    decreases a.len(),
{
    if a.len() > 0 {
        assert forall|j: int| 0 <= j < a.len() - 1 implies #[trigger] a.drop_last()[j].id == b.drop_last()[j].id by {
            assert(a.drop_last()[j] == a[j]);
            assert(b.drop_last()[j] == b[j]);
        }
        lemma_first_item_same_ids(a.drop_last(), b.drop_last(), key);
    }
}

/// Setting a flag keeps the ids of the top-level items.
proof fn lemma_set_expanded_top_ids(items: Seq<ItemModel>, p: Seq<int>, v: bool)
    requires
        valid_path(items, p),
    ensures
        set_expanded_at(items, p, v).len() == items.len(),
        forall|j: int| 0 <= j < items.len() ==> #[trigger] set_expanded_at(items, p, v)[j].id == items[j].id,
{
    lemma_set_expanded_shape(items, p, v, Seq::empty());
    assert forall|j: int| 0 <= j < items.len() implies #[trigger] set_expanded_at(items, p, v)[j].id == items[j].id by {
        lemma_set_expanded_shape(items, p, v, seq![j]);
    }
}

/// The item at the top of `set_expanded_at(items, p, v)` on `p` is the item
/// with the flag set below it.
proof fn lemma_set_expanded_top(items: Seq<ItemModel>, p: Seq<int>, v: bool)
    requires
        valid_path(items, p),
    ensures
        set_expanded_at(items, p, v)[p[0]] == set_expanded_node(items[p[0]], p.drop_first(), v),
        forall|j: int| 0 <= j < items.len() && j != p[0] ==> #[trigger] set_expanded_at(items, p, v)[j] == items[j],
{
}

/// The walk down an item's children does not look at flags: setting one
/// anywhere below gives the same walk.
pub proof fn lemma_ancestor_path_set(item: ItemModel, p: Seq<int>, v: bool, t: Seq<Seq<char>>)
    requires
        p.len() == 0 || valid_path(item.children, p),
    ensures
        ancestor_path(set_expanded_node(item, p, v), t) == ancestor_path(item, t),
    decreases item,
{
    let it2 = set_expanded_node(item, p, v);
    let ch = item.children;
    let ch2 = it2.children;
    if p.len() > 0 {
        lemma_set_expanded_top_ids(ch, p, v);
        lemma_set_expanded_top(ch, p, v);
    }
    lemma_first_item_same_ids(ch2, ch, first_seg(t));
    lemma_first_item_with_last(ch, first_seg(t));
    match first_item_with_last(ch, first_seg(t)) {
        None => {},
        Some(c) => {
            if 0 <= c < ch.len() && t.len() != 1 {
                if p.len() > 0 && p[0] == c {
                    let p2 = p.drop_first();
                    lemma_ancestor_path_set(ch[c], p2, v, rest(t));
                } else {
                    assert(ch2[c] == ch[c]);
                }
            }
        },
    }
}

/// The walk from the roots does not look at flags: setting one gives the
/// same walk.
pub proof fn lemma_walk_set(roots: Seq<ItemModel>, p: Seq<int>, v: bool, t: Seq<Seq<char>>)
    requires
        valid_path(roots, p),
    ensures
        walk_target(set_expanded_at(roots, p, v), t) == walk_target(roots, t),
{
    let r2 = set_expanded_at(roots, p, v);
    lemma_set_expanded_top_ids(roots, p, v);
    lemma_set_expanded_top(roots, p, v);
    lemma_first_item_same_ids(r2, roots, first_seg(t));
    match first_item_with_last(roots, first_seg(t)) {
        None => {},
        Some(i) => {
            if 0 <= i < roots.len() {
                if i == p[0] {
                    lemma_ancestor_path_set(roots[i], p.drop_first(), v, rest(t));
                }
            }
        },
    }
}

/// Expanding along `q` gives the same walk.
pub proof fn lemma_walk_expand_along(roots: Seq<ItemModel>, q: Seq<int>, lo: int, hi: int, t: Seq<Seq<char>>)
    requires
        valid_path(roots, q),
        0 <= lo,
        hi <= q.len(),
    ensures
        walk_target(expand_along(roots, q, lo, hi).0, t) == walk_target(roots, t),
    decreases hi - lo,
{
    if hi > lo {
        let cur = expand_along(roots, q, lo, hi - 1).0;
        lemma_walk_expand_along(roots, q, lo, hi - 1, t);
        lemma_expand_along(roots, q, lo, hi - 1, q);
        lemma_valid_path_take(cur, q, hi);
        if !item_at(cur, q.take(hi)).expanded {
            lemma_walk_set(cur, q.take(hi), true, t);
        }
    }
}

/// When the items at the prefixes of `q` of lengths `1` to `hi` are already
/// expanded, expanding along `q` changes nothing and names no item.
pub proof fn lemma_expand_along_noop(items: Seq<ItemModel>, q: Seq<int>, hi: int)
    requires
        0 <= hi <= q.len(),
        forall|j: int| 0 < j <= hi ==> #[trigger] item_at(items, q.take(j)).expanded,
    ensures
        expand_along(items, q, 0, hi) == (items, Seq::<Seq<Seq<char>>>::empty()),
    decreases hi,
{
    if hi > 0 {
        lemma_expand_along_noop(items, q, hi - 1);
        assert(item_at(items, q.take(hi)).expanded);
    }
}


/// `a` comes before `b` in pre-order with siblings in their order: `a` is a
/// proper prefix of `b` (an ancestor), or at the first index where they
/// differ, `a`'s child index is the smaller.
pub open spec fn path_before(a: Seq<int>, b: Seq<int>) -> bool {
    ||| (a.len() < b.len() && b.subrange(0, a.len() as int) == a)
    ||| exists|i: int|
        0 <= i < a.len() && i < b.len() && #[trigger] a.subrange(0, i) == b.subrange(0, i) && a[i]
            < b[i]
}

/// The rows of `flatten_seq(items, pre)` come in pre-order of their paths.
pub proof fn lemma_flatten_seq_order(items: Seq<ItemModel>, pre: Seq<int>)
    ensures
        forall|k1: int, k2: int|
            0 <= k1 < k2 < flatten_seq(items, pre).len() ==> path_before(
                #[trigger] flatten_seq(items, pre)[k1].path,
                #[trigger] flatten_seq(items, pre)[k2].path,
            ),
    decreases items, 0int,
{
    if items.len() > 0 {
        let n = items.len() - 1;
        let init = items.drop_last();
        let np = pre.push(n);
        let a = flatten_seq(init, pre);
        let b = flatten_node(items.last(), np);
        let rows = flatten_seq(items, pre);
        lemma_flatten_seq_order(init, pre);
        lemma_flatten_node_order(items.last(), np);
        lemma_flatten_seq_paths(init, pre);
        lemma_flatten_node_paths(items.last(), np);
        assert forall|k1: int, k2: int| 0 <= k1 < k2 < rows.len() implies path_before(
            #[trigger] rows[k1].path,
            #[trigger] rows[k2].path,
        ) by {
            if k2 < a.len() {
                assert(rows[k1] == a[k1] && rows[k2] == a[k2]);
            } else if k1 >= a.len() {
                assert(rows[k1] == b[k1 - a.len()] && rows[k2] == b[k2 - a.len()]);
            } else {
                let p1 = a[k1].path;
                let p2 = b[k2 - a.len()].path;
                assert(rows[k1].path == p1 && rows[k2].path == p2);
                let i = pre.len() as int;
                let r1 = p1.subrange(i, p1.len() as int);
                assert(valid_path(init, r1));
                assert(r1[0] == p1[i]);
                assert(p2.subrange(0, np.len() as int) == np);
                assert(p2[i] == np[i]);
                assert(p1.subrange(0, i) == pre);
                assert(p2.subrange(0, i) =~= np.subrange(0, i));
                assert(np.subrange(0, i) =~= pre);
                assert(p1.subrange(0, i) == p2.subrange(0, i) && p1[i] < p2[i]);
            }
        }
    }
}

/// The rows of `flatten_node(item, path)` come in pre-order of their paths:
/// the item first, then the rows of its children in their order.
pub proof fn lemma_flatten_node_order(item: ItemModel, path: Seq<int>)
    requires
        path.len() >= 1,
    ensures
        forall|k1: int, k2: int|
            0 <= k1 < k2 < flatten_node(item, path).len() ==> path_before(
                #[trigger] flatten_node(item, path)[k1].path,
                #[trigger] flatten_node(item, path)[k2].path,
            ),
    decreases item, 1int,
{
    lemma_flatten_node_paths(item, path);
    let rows = flatten_node(item, path);
    if item.expanded {
        let rest_rows = flatten_seq(item.children, path);
        lemma_flatten_seq_order(item.children, path);
        assert forall|k1: int, k2: int| 0 <= k1 < k2 < rows.len() implies path_before(
            #[trigger] rows[k1].path,
            #[trigger] rows[k2].path,
        ) by {
            if k1 == 0 {
                let r = rows[k2].path.subrange(path.len() as int, rows[k2].path.len() as int);
                assert(r.len() > 0);
                assert(rows[k1].path == path);
            } else {
                assert(rows[k1] == rest_rows[k1 - 1] && rows[k2] == rest_rows[k2 - 1]);
            }
        }
    }
}

/// The items among which index `j` of the path `p` chooses: the forest
/// `items` itself for `j == 0`, else the children of the item at the first
/// `j` indices of `p`.
pub open spec fn level(items: Seq<ItemModel>, p: Seq<int>, j: int) -> Seq<ItemModel> {
    if j == 0 {
        items
    } else {
        item_at(items, p.take(j)).children
    }
}

/// A path that `ancestor_path` finds has one index per segment of the
/// target; at each level it picks the first child whose id ends in the
/// matching segment (no earlier child's does), so the item at each of its
/// prefixes has an id ending in the matching segment.
pub proof fn lemma_ancestor_path_matches(item: ItemModel, t: Seq<Seq<char>>)
    ensures
        ancestor_path(item, t) matches Some(c) ==> {
            &&& c.len() >= 1
            &&& c.len() == t.len()
            &&& valid_path(item.children, c)
            &&& forall|j: int|
                1 <= j <= c.len() ==> last_seg(#[trigger] item_at(item.children, c.take(j)).id)
                    == Some(t[j - 1])
            &&& forall|j: int, x: int|
                0 <= j < c.len() && 0 <= x < c[j] ==> last_seg(
                    #[trigger] level(item.children, c, j)[x].id,
                ) != Some(t[j])
        },
    decreases item,
{
    lemma_ancestor_path_valid(item, t);
    lemma_first_item_with_last(item.children, first_seg(t));
    match first_item_with_last(item.children, first_seg(t)) {
        None => {},
        Some(c0) => {
            if 0 <= c0 < item.children.len() {
                let ch = item.children;
                if t.len() == 1 {
                    let c = seq![c0];
                    assert forall|j: int| 1 <= j <= c.len() implies last_seg(
                        #[trigger] item_at(ch, c.take(j)).id,
                    ) == Some(t[j - 1]) by {
                        assert(c.take(j) =~= c);
                    }
                    assert forall|j: int, x: int| 0 <= j < c.len() && 0 <= x < c[j] implies last_seg(
                        #[trigger] level(ch, c, j)[x].id,
                    ) != Some(t[j]) by {
                        assert(j == 0);
                    }
                } else {
                    lemma_ancestor_path_matches(ch[c0], rest(t));
                    match ancestor_path(ch[c0], rest(t)) {
                        Some(p) => {
                            assert(t.len() > 0);
                            let c = seq![c0] + p;
                            assert forall|j: int| 1 <= j <= c.len() implies last_seg(
                                #[trigger] item_at(ch, c.take(j)).id,
                            ) == Some(t[j - 1]) by {
                                if j == 1 {
                                    assert(c.take(j) =~= seq![c0]);
                                } else {
                                    assert(c.take(j).drop_first() =~= p.take(j - 1));
                                    assert(item_at(ch, c.take(j)) == item_at(
                                        ch[c0].children,
                                        p.take(j - 1),
                                    ));
                                    assert(rest(t)[j - 2] == t[j - 1]);
                                }
                            }
                            assert forall|j: int, x: int| 0 <= j < c.len() && 0 <= x < c[j] implies last_seg(
                                #[trigger] level(ch, c, j)[x].id,
                            ) != Some(t[j]) by {
                                if j == 0 {
                                    assert(c[0] == c0);
                                } else if j == 1 {
                                    assert(c.take(1) =~= seq![c0]);
                                    assert(level(ch, c, 1) == ch[c0].children);
                                    assert(level(ch[c0].children, p, 0) == ch[c0].children);
                                    assert(c[1] == p[0]);
                                    assert(rest(t)[0] == t[1]);
                                    assert(last_seg(level(ch[c0].children, p, 0)[x].id) != Some(
                                        rest(t)[0],
                                    ));
                                } else {
                                    assert(c.take(j).drop_first() =~= p.take(j - 1));
                                    assert(item_at(ch, c.take(j)) == item_at(
                                        ch[c0].children,
                                        p.take(j - 1),
                                    ));
                                    assert(level(ch, c, j) == level(ch[c0].children, p, j - 1));
                                    assert(c[j] == p[j - 1]);
                                    assert(rest(t)[j - 1] == t[j]);
                                    assert(last_seg(level(ch[c0].children, p, j - 1)[x].id) != Some(
                                        rest(t)[j - 1],
                                    ));
                                }
                            }
                        },
                        None => {},
                    }
                }
            }
        },
    }
}


/// When the item at `k` is the first whose id ends in `key`,
/// `first_item_with_last` finds it.
pub proof fn lemma_first_item_is(items: Seq<ItemModel>, key: Option<Seq<char>>, k: int)
    requires
        0 <= k < items.len(),
        last_seg(items[k].id) == key,
        forall|x: int| 0 <= x < k ==> last_seg(#[trigger] items[x].id) != key,
    ensures
        first_item_with_last(items, key) == Some(k),
{
    let pre = items.take(k);
    lemma_first_item_with_last(pre, key);
    if let Some(j) = first_item_with_last(pre, key) {
        assert(pre[j] == items[j]);
    }
    assert(items.take(k + 1 - 1) =~= pre);
    lemma_first_item_with_last_prefix(items, k + 1, key);
}

/// A path that matches every segment of `t`, taking at every level the first
/// child whose id ends in the segment, is the one `ancestor_path` finds.
pub proof fn lemma_ancestor_path_complete(item: ItemModel, t: Seq<Seq<char>>, c: Seq<int>)
    requires
        c.len() == t.len(),
        c.len() >= 1,
        valid_path(item.children, c),
        forall|j: int|
            1 <= j <= c.len() ==> last_seg(#[trigger] item_at(item.children, c.take(j)).id) == Some(
                t[j - 1],
            ),
        forall|j: int, x: int|
            0 <= j < c.len() && 0 <= x < c[j] ==> last_seg(
                #[trigger] level(item.children, c, j)[x].id,
            ) != Some(t[j]),
    ensures
        ancestor_path(item, t) == Some(c),
    decreases item,
{
    let ch = item.children;
    let c0 = c[0];
    assert(c.take(1) =~= seq![c0]);
    assert(item_at(ch, c.take(1)) == ch[c0]);
    assert(last_seg(ch[c0].id) == Some(t[0]));
    assert forall|x: int| 0 <= x < c0 implies last_seg(#[trigger] ch[x].id) != Some(t[0]) by {
        assert(level(ch, c, 0)[x] == ch[x]);
    }
    assert(first_seg(t) == Some(t[0]));
    lemma_first_item_is(ch, Some(t[0]), c0);
    if t.len() == 1 {
        assert(c =~= seq![c0]);
    } else {
        let c2 = c.drop_first();
        let t2 = rest(t);
        let ch2 = ch[c0].children;
        assert forall|j: int| 1 <= j <= c2.len() implies last_seg(#[trigger] item_at(ch2, c2.take(j)).id)
            == Some(t2[j - 1]) by {
            assert(c.take(j + 1).drop_first() =~= c2.take(j));
            assert(item_at(ch, c.take(j + 1)) == item_at(ch2, c2.take(j)));
            assert(last_seg(item_at(ch, c.take(j + 1)).id) == Some(t[j]));
        }
        assert forall|j: int, x: int| 0 <= j < c2.len() && 0 <= x < c2[j] implies last_seg(
            #[trigger] level(ch2, c2, j)[x].id,
        ) != Some(t2[j]) by {
            if j == 0 {
                assert(level(ch, c, 1) == item_at(ch, c.take(1)).children);
            } else {
                assert(c.take(j + 1).drop_first() =~= c2.take(j));
                assert(item_at(ch, c.take(j + 1)) == item_at(ch2, c2.take(j)));
            }
            assert(level(ch2, c2, j) == level(ch, c, j + 1));
            assert(c2[j] == c[j + 1]);
            assert(last_seg(level(ch, c, j + 1)[x].id) != Some(t[j + 1]));
        }
        lemma_ancestor_path_complete(ch[c0], t2, c2);
        assert(seq![c0] + c2 =~= c);
    }
}

} // verus!
