use vstd::prelude::*;
use std::collections::VecDeque;
use crate::model::{
    ItemModel, EntryModel, flatten, flatten_seq, flatten_node, valid_path, item_at,
    set_expanded_at, last_seg, first_seg, rest, first_item_with_last, expand_along, ancestor_path,
    walk_target, expand_plan, first_with_path, root_items, lemma_flatten_seq_paths,
    lemma_set_expanded_shape, lemma_valid_path_take, lemma_first_item_with_last_prefix,
    lemma_walk_valid, lemma_expand_reveals, lemma_first_with_path_some,
    lemma_first_with_path_prefix, lemma_root_items_flatten,
};

verus! {

/// The view of an id: each segment by its characters.
pub open spec fn id_view(id: Seq<String>) -> Seq<Seq<char>> {
    id.map_values(|s: String| s@)
}

/// A tree item with an id, a label, children, and expanded and disabled flags.
///
/// The `id` identifies the item: for example the full file path, one segment
/// per level, while the `label` is the text shown (the file name).
///
/// An item is a plain value: its clones, and the copy that a `TreeState`
/// keeps, each have their own flags. Setting a flag on one copy (with
/// `expanded`, `disabled` or a toggle in the state) leaves the others as they
/// were; the state's items are read back through its entries.
pub struct TreeItem {
    pub id: Vec<String>,
    pub label: String,
    pub children: Vec<TreeItem>,
    expanded: bool,
    disabled: bool,
}

impl TreeItem {
    /// The value of this item.
    pub closed spec fn model(self) -> ItemModel
        decreases self, 1int,
    {
        ItemModel {
            id: id_view(self.id@),
            label: self.label@,
            expanded: self.expanded,
            disabled: self.disabled,
            children: Self::models(self.children@),
        }
    }

    /// The values of a sequence of items.
    pub closed spec fn models(items: Seq<TreeItem>) -> Seq<ItemModel>
        decreases items, 0int,
    {
        if items.len() == 0 {
            Seq::empty()
        } else {
            Self::models(items.drop_last()).push(items.last().model())
        }
    }
}

/// `models` keeps the length and maps each item to its view.
pub proof fn lemma_models(items: Seq<TreeItem>)
    ensures
        TreeItem::models(items).len() == items.len(),
        forall|i: int| 0 <= i < items.len() ==> #[trigger] TreeItem::models(items)[i] == items[i]@,
    decreases items.len(),
{
    if items.len() > 0 {
        lemma_models(items.drop_last());
    }
}

/// A copy of an id, segment by segment.
fn clone_id(id: &Vec<String>) -> (r: Vec<String>)
    ensures
        r@ == id@,
{
    let mut r: Vec<String> = Vec::new();
    let mut i: usize = 0;
    while i < id.len()
        invariant
            i <= id.len(),
            r@ == id@.take(i as int),
        decreases id.len() - i,
    {
        r.push(id[i].clone());
        i = i + 1;
        assert(r@ =~= id@.take(i as int));
    }
    assert(id@.take(i as int) =~= id@);
    r
}

impl Clone for TreeItem {
    /// A deep copy: the same id, label, flags and children. The copy's flags
    /// are its own: changing them later does not change the original's.
    fn clone(&self) -> (r: Self)
        ensures
            r@ == self@,
        decreases self,
    {
        let mut children: Vec<TreeItem> = Vec::new();
        let mut i: usize = 0;
        while i < self.children.len()
            invariant
                i <= self.children.len(),
                children@.len() == i,
                forall|j: int| 0 <= j < i ==> #[trigger] children@[j].model() == self.children@[j].model(),
            decreases self.children.len() - i,
        {
            let c = self.children[i].clone();
            children.push(c);
            i = i + 1;
        }
        let r = TreeItem {
            id: clone_id(&self.id),
            label: self.label.clone(),
            children,
            expanded: self.expanded,
            disabled: self.disabled,
        };
        proof {
            lemma_models(r.children@);
            lemma_models(self.children@);
            assert(TreeItem::models(r.children@) =~= TreeItem::models(self.children@));
        }
        r
    }
}

/// `models` of a concatenation is the concatenation of `models`.
pub proof fn lemma_models_add(a: Seq<TreeItem>, b: Seq<TreeItem>)
    ensures
        TreeItem::models(a + b) == TreeItem::models(a) + TreeItem::models(b),
{
    lemma_models(a);
    lemma_models(b);
    lemma_models(a + b);
    assert(TreeItem::models(a + b) =~= TreeItem::models(a) + TreeItem::models(b));
}

impl View for TreeItem {
    type V = ItemModel;

    closed spec fn view(&self) -> ItemModel {
        self.model()
    }
}

impl TreeItem {
    /// A new item with the given id and label, no children, collapsed and
    /// enabled.
    pub fn new(id: Vec<String>, label: String) -> (r: Self)
        ensures
            r@ == (ItemModel {
                id: id_view(id@),
                label: label@,
                expanded: false,
                disabled: false,
                children: Seq::empty(),
            }),
    {
        let r = TreeItem { id, label, children: Vec::new(), expanded: false, disabled: false };
        proof {
            assert(TreeItem::models(r.children@) =~= Seq::<ItemModel>::empty());
        }
        r
    }

    /// This item with `child` added after its other children.
    pub fn child(self, child: TreeItem) -> (r: Self)
        ensures
            r@ == (ItemModel { children: self@.children.push(child@), ..self@ }),
    {
        let ghost old_children = self.children@;
        let mut this = self;
        this.children.push(child);
        proof {
            assert(this.children@.drop_last() =~= old_children);
        }
        this
    }

    /// This item with `children` added, in order, after its other children.
    pub fn children(self, children: Vec<TreeItem>) -> (r: Self)
        ensures
            r@ == (ItemModel {
                children: self@.children + TreeItem::models(children@),
                ..self@
            }),
    {
        let ghost old_children = self.children@;
        let mut this = self;
        let mut more = children;
        this.children.append(&mut more);
        proof {
            lemma_models_add(old_children, children@);
        }
        this
    }

    /// This item with its expanded flag set to `expanded`.
    pub fn expanded(self, expanded: bool) -> (r: Self)
        ensures
            r@ == (ItemModel { expanded, ..self@ }),
    {
        let mut this = self;
        this.expanded = expanded;
        this
    }

    /// This item with its disabled flag set to `disabled`.
    pub fn disabled(self, disabled: bool) -> (r: Self)
        ensures
            r@ == (ItemModel { disabled, ..self@ }),
    {
        let mut this = self;
        this.disabled = disabled;
        this
    }

    /// Whether this item is a folder (has children).
    pub fn is_folder(&self) -> (r: bool)
        ensures
            r == (self@.children.len() > 0),
    {
        proof {
            lemma_models(self.children@);
        }
        self.children.len() > 0
    }

    /// Whether this item is disabled.
    pub fn is_disabled(&self) -> (r: bool)
        ensures
            r == self@.disabled,
    {
        self.disabled
    }

    /// Whether this item is expanded.
    pub fn is_expanded(&self) -> (r: bool)
        ensures
            r == self@.expanded,
    {
        self.expanded
    }

    /// The child indices leading from this item down to the item named by
    /// `target_id` from segment `start` on: at each level, the first child
    /// whose id ends in the next segment. `None` when some level has no such
    /// child.
    pub(crate) fn find_ancestors(&self, target_id: &Vec<String>, start: usize) -> (r: Option<Vec<usize>>)
        requires
            start <= target_id@.len(),
        ensures
            r matches Some(p) ==> ancestor_path(self@, id_view(target_id@).skip(start as int)) == Some(
                path_view(p@),
            ),
            r is None ==> ancestor_path(self@, id_view(target_id@).skip(start as int)) is None,
        decreases self,
    {
        let ghost t = id_view(target_id@).skip(start as int);
        let ghost children = self.children@;
        let key: Option<&String> = if start < target_id.len() {
            Some(&target_id[start])
        } else {
            None
        };
        assert(first_seg(t) == key_view(key));
        proof {
            lemma_models(children);
        }
        let mut c: usize = 0;
        let mut found = false;
        while c < self.children.len() && !found
            invariant
                c <= self.children.len(),
                children == self.children@,
                TreeItem::models(children).len() == children.len(),
                forall|j: int| 0 <= j < children.len() ==> #[trigger] TreeItem::models(children)[j] == children[j]@,
                found ==> c < children.len() && last_seg(children[c as int]@.id) == key_view(key),
                first_item_with_last(TreeItem::models(children).take(c as int), key_view(key)) is None,
            decreases self.children.len() - c, (if found { 0int } else { 1int }),
        {
            if last_matches(&self.children[c].id, key) {
                found = true;
            } else {
                proof {
                    let m = TreeItem::models(children);
                    assert(m.take(c + 1).drop_last() =~= m.take(c as int));
                }
                c = c + 1;
            }
        }
        if !found {
            assert(TreeItem::models(children).take(c as int) =~= TreeItem::models(children));
            return None;
        }
        proof {
            let m = TreeItem::models(children);
            lemma_first_item_with_last_prefix(m, c + 1, key_view(key));
        }
        if start < target_id.len() && start == target_id.len() - 1 {
            if last_matches(&self.children[c].id, key) {
                let mut p: Vec<usize> = Vec::new();
                p.push(c);
                assert(path_view(p@) =~= seq![c as int]);
                return Some(p);
            } else {
                return None;
            }
        }
        let next = if start < target_id.len() {
            start + 1
        } else {
            start
        };
        assert(rest(t) =~= id_view(target_id@).skip(next as int));
        match self.children[c].find_ancestors(target_id, next) {
            Some(tail) => {
                let mut p: Vec<usize> = Vec::new();
                p.push(c);
                let mut tail = tail;
                let ghost tv = path_view(tail@);
                p.append(&mut tail);
                assert(path_view(p@) =~= seq![c as int] + tv);
                Some(p)
            },
            None => None,
        }
    }
}

/// The view of a path of indices.
pub open spec fn path_view(path: Seq<usize>) -> Seq<int> {
    path.map_values(|u: usize| u as int)
}

/// A flat representation of a tree item with its depth.
pub struct TreeEntry {
    item: TreeItem,
    depth: usize,
    path: Vec<usize>,
}

impl View for TreeEntry {
    type V = EntryModel;

    closed spec fn view(&self) -> EntryModel {
        EntryModel { item: self.item@, depth: self.depth as nat, path: path_view(self.path@) }
    }
}

impl TreeEntry {
    /// The source tree item.
    pub fn item(&self) -> (r: &TreeItem)
        ensures
            r@ == self@.item,
    {
        &self.item
    }

    /// The depth of this item in the tree.
    pub fn depth(&self) -> (r: usize)
        ensures
            r == self@.depth,
    {
        self.depth
    }

    /// Whether this entry is at the top level.
    pub fn is_root(&self) -> (r: bool)
        ensures
            r == (self@.depth == 0),
    {
        self.depth == 0
    }

    /// Whether this item is a folder (has children).
    pub fn is_folder(&self) -> (r: bool)
        ensures
            r == (self@.item.children.len() > 0),
    {
        self.item.is_folder()
    }

    /// Whether the item is expanded.
    pub fn is_expanded(&self) -> (r: bool)
        ensures
            r == self@.item.expanded,
    {
        self.item.is_expanded()
    }

    /// Whether the item is disabled.
    pub fn is_disabled(&self) -> (r: bool)
        ensures
            r == self@.item.disabled,
    {
        self.item.is_disabled()
    }
}

impl Clone for TreeEntry {
    /// A copy of the entry: the same item, depth and path.
    fn clone(&self) -> (r: Self)
        ensures
            r@ == self@,
    {
        TreeEntry { item: self.item.clone(), depth: self.depth, path: copy_path(&self.path) }
    }
}

/// The value of an event.
pub enum EventModel {
    Expanded(Seq<Seq<char>>),
    Collapsed(Seq<Seq<char>>),
}

/// Event emitted when user-visible state changes.
#[derive(Clone, Debug, PartialEq, Eq)]
pub enum TreeEvent {
    /// A tree node was expanded.
    Expanded(Vec<String>),
    /// A tree node was collapsed.
    Collapsed(Vec<String>),
}

impl View for TreeEvent {
    type V = EventModel;

    open spec fn view(&self) -> EventModel {
        match self {
            TreeEvent::Expanded(id) => EventModel::Expanded(id_view(id@)),
            TreeEvent::Collapsed(id) => EventModel::Collapsed(id_view(id@)),
        }
    }
}

/// The values of a sequence of events.
pub open spec fn events_view(events: Seq<TreeEvent>) -> Seq<EventModel> {
    events.map_values(|e: TreeEvent| e@)
}


/// The values of a sequence of entries.
pub open spec fn entries_view(entries: Seq<TreeEntry>) -> Seq<EntryModel> {
    entries.map_values(|e: TreeEntry| e@)
}

/// A copy of a path.
fn copy_path(path: &Vec<usize>) -> (r: Vec<usize>)
    ensures
        r@ == path@,
{
    let mut r: Vec<usize> = Vec::new();
    let mut j: usize = 0;
    while j < path.len()
        invariant
            j <= path.len(),
            r@ == path@.take(j as int),
        decreases path.len() - j,
    {
        r.push(path[j]);
        j = j + 1;
        assert(r@ =~= path@.take(j as int));
    }
    assert(path@.take(j as int) =~= path@);
    r
}

/// A deep copy of a sequence of items.
fn clone_items(items: &Vec<TreeItem>) -> (r: Vec<TreeItem>)
    ensures
        TreeItem::models(r@) == TreeItem::models(items@),
{
    let mut r: Vec<TreeItem> = Vec::new();
    let mut i: usize = 0;
    while i < items.len()
        invariant
            i <= items.len(),
            r@.len() == i,
            forall|j: int| 0 <= j < i ==> #[trigger] r@[j]@ == items@[j]@,
        decreases items.len() - i,
    {
        r.push(items[i].clone());
        i = i + 1;
    }
    proof {
        lemma_models(r@);
        lemma_models(items@);
        assert(TreeItem::models(r@) =~= TreeItem::models(items@));
    }
    r
}

/// Appends to `entries` the rows of `item` placed at `path`: the item itself,
/// then, when it is expanded, the rows of its children one level deeper.
fn add_entry(entries: &mut Vec<TreeEntry>, item: &TreeItem, path: &Vec<usize>)
    requires
        path@.len() >= 1,
    ensures
        entries_view(final(entries)@) == entries_view(old(entries)@) + flatten_node(
            item@,
            path_view(path@),
        ),
    decreases item,
{
    let ghost base = entries_view(entries@);
    let ghost pv = path_view(path@);
    let depth = path.len() - 1;
    let own = TreeEntry { item: item.clone(), depth, path: copy_path(path) };
    entries.push(own);
    let ghost own_rows = seq![EntryModel { item: item@, depth: (pv.len() - 1) as nat, path: pv }];
    assert(entries_view(entries@) =~= base + own_rows);
    if item.expanded {
        let ghost children = item.children@;
        proof {
            lemma_models(children);
        }
        let mut i: usize = 0;
        while i < item.children.len()
            invariant
                i <= item.children.len(),
                children == item.children@,
                pv == path_view(path@),
                path@.len() >= 1,
                entries_view(entries@) == base + own_rows + flatten_seq(
                    TreeItem::models(children.take(i as int)),
                    pv,
                ),
            decreases item.children.len() - i,
        {
            let mut child_path = copy_path(path);
            child_path.push(i);
            assert(path_view(child_path@) =~= pv.push(i as int));
            proof {
                assert(children.take(i + 1).drop_last() =~= children.take(i as int));
                lemma_models(children.take(i + 1));
                lemma_models(children.take(i as int));
            }
            let ghost before = entries_view(entries@);
            add_entry(entries, &item.children[i], &child_path);
            proof {
                let m = TreeItem::models(children.take(i + 1));
                assert(m.drop_last() =~= TreeItem::models(children.take(i as int)));
                assert(m.last() == children[i as int]@);
                assert(flatten_seq(m, pv) == flatten_seq(m.drop_last(), pv) + flatten_node(
                    m.last(),
                    pv.push(i as int),
                ));
                assert(entries_view(entries@) =~= before + flatten_node(
                    children[i as int]@,
                    pv.push(i as int),
                ));
                assert(entries_view(entries@) =~= base + own_rows + flatten_seq(m, pv));
            }
            i = i + 1;
        }
        assert(children.take(i as int) =~= children);
    } else {
        assert(own_rows + Seq::<EntryModel>::empty() =~= own_rows);
    }
}


/// Replacing one item replaces its value in `models`.
pub proof fn lemma_models_update(items: Seq<TreeItem>, i: int, x: TreeItem)
    requires
        0 <= i < items.len(),
    ensures
        TreeItem::models(items.update(i, x)) == TreeItem::models(items).update(i, x@),
{
    lemma_models(items);
    lemma_models(items.update(i, x));
    assert(TreeItem::models(items.update(i, x)) =~= TreeItem::models(items).update(i, x@));
}

/// Sets the expanded flag of the item at `path.skip(start)` in the forest
/// `items` to `v`.
fn set_expanded_in(items: &mut Vec<TreeItem>, path: &Vec<usize>, start: usize, v: bool)
    requires
        start < path@.len(),
        valid_path(TreeItem::models(old(items)@), path_view(path@).skip(start as int)),
    ensures
        TreeItem::models(final(items)@) == set_expanded_at(
            TreeItem::models(old(items)@),
            path_view(path@).skip(start as int),
            v,
        ),
    decreases path@.len() - start,
{
    let ghost p = path_view(path@).skip(start as int);
    let ghost old_items = items@;
    proof {
        lemma_models(items@);
    }
    let i = path[start];
    assert(p[0] == i);
    if start == path.len() - 1 {
        items[i].expanded = v;
        proof {
            lemma_models_update(old_items, i as int, items@[i as int]);
            assert(items@ =~= old_items.update(i as int, items@[i as int]));
        }
    } else {
        assert(p.drop_first() =~= path_view(path@).skip(start + 1));
        proof {
            lemma_models(old_items[i as int].children@);
        }
        set_expanded_in(&mut items[i].children, path, start + 1, v);
        proof {
            lemma_models_update(old_items, i as int, items@[i as int]);
            assert(items@ =~= old_items.update(i as int, items@[i as int]));
        }
    }
}


/// The rows of a forest of roots, built one root after the other.
fn entries_of(roots: &Vec<TreeItem>) -> (r: Vec<TreeEntry>)
    ensures
        entries_view(r@) == flatten(TreeItem::models(roots@)),
{
    let mut entries: Vec<TreeEntry> = Vec::new();
    let mut i: usize = 0;
    proof {
        lemma_models(roots@);
        assert(entries_view(entries@) =~= flatten_seq(TreeItem::models(roots@.take(0)), Seq::empty()));
    }
    while i < roots.len()
        invariant
            i <= roots.len(),
            entries_view(entries@) == flatten_seq(TreeItem::models(roots@.take(i as int)), Seq::empty()),
        decreases roots.len() - i,
    {
        let mut path: Vec<usize> = Vec::new();
        path.push(i);
        assert(path_view(path@) =~= Seq::<int>::empty().push(i as int));
        let ghost before = entries_view(entries@);
        add_entry(&mut entries, &roots[i], &path);
        proof {
            let m = TreeItem::models(roots@.take(i + 1));
            assert(roots@.take(i + 1).drop_last() =~= roots@.take(i as int));
            lemma_models(roots@.take(i + 1));
            assert(m.drop_last() =~= TreeItem::models(roots@.take(i as int)));
            assert(m.last() == roots@[i as int]@);
            assert(entries_view(entries@) =~= flatten_seq(m, Seq::empty()));
        }
        i = i + 1;
    }
    assert(roots@.take(i as int) =~= roots@);
    entries
}

/// The first index of `rows` whose item's id ends in `key` (an id with no
/// segment ending in `None`), if there is one.
pub open spec fn first_with_last(rows: Seq<EntryModel>, key: Option<Seq<char>>) -> Option<int>
    decreases rows.len(),
{
    if rows.len() == 0 {
        None
    } else {
        match first_with_last(rows.drop_last(), key) {
            Some(k) => Some(k),
            None => if last_seg(rows.last().item.id) == key {
                Some(rows.len() - 1)
            } else {
                None
            },
        }
    }
}

/// The view of an optional key segment.
pub open spec fn key_view(key: Option<&String>) -> Option<Seq<char>> {
    match key {
        Some(k) => Some(k@),
        None => None,
    }
}

/// Whether the last segment of `id` is `key` (an empty id has none).
fn last_matches(id: &Vec<String>, key: Option<&String>) -> (r: bool)
    ensures
        r == (last_seg(id_view(id@)) == key_view(key)),
{
    let n = id.len();
    match key {
        Some(k) => {
            if n == 0 {
                false
            } else {
                let same = id[n - 1] == *k;
                proof {
                    let v = id_view(id@);
                    assert(v.last() == id@[n - 1]@);
                    if !same {
                        assert(last_seg(v) != key_view(key));
                    }
                }
                same
            }
        },
        None => n == 0,
    }
}

/// The first `n` indices of a path.
fn take_path(path: &Vec<usize>, n: usize) -> (r: Vec<usize>)
    requires
        n <= path@.len(),
    ensures
        r@ == path@.take(n as int),
        path_view(r@) == path_view(path@).take(n as int),
{
    let mut r: Vec<usize> = Vec::new();
    let mut j: usize = 0;
    while j < n
        invariant
            j <= n,
            n <= path@.len(),
            r@ == path@.take(j as int),
        decreases n - j,
    {
        r.push(path[j]);
        j = j + 1;
        assert(r@ =~= path@.take(j as int));
    }
    assert(path_view(r@) =~= path_view(path@).take(n as int));
    r
}

/// The item at `path.skip(start)` in the forest `items`.
fn get_item<'a>(items: &'a Vec<TreeItem>, path: &Vec<usize>, start: usize) -> (r: &'a TreeItem)
    requires
        start < path@.len(),
        valid_path(TreeItem::models(items@), path_view(path@).skip(start as int)),
    ensures
        r@ == item_at(TreeItem::models(items@), path_view(path@).skip(start as int)),
    decreases path@.len() - start,
{
    let ghost p = path_view(path@).skip(start as int);
    proof {
        lemma_models(items@);
    }
    let i = path[start];
    assert(p[0] == i);
    if start == path.len() - 1 {
        &items[i]
    } else {
        assert(p.drop_first() =~= path_view(path@).skip(start + 1));
        proof {
            lemma_models(items@[i as int].children@);
        }
        get_item(&items[i].children, path, start + 1)
    }
}

/// Expanded events for a sequence of ids, in order.
pub open spec fn expanded_events(ids: Seq<Seq<Seq<char>>>) -> Seq<EventModel> {
    ids.map_values(|id: Seq<Seq<char>>| EventModel::Expanded(id))
}

/// The first index of `rows` whose item's id is `id`, if there is one.
pub open spec fn first_with_id(rows: Seq<EntryModel>, id: Seq<Seq<char>>) -> Option<int>
    decreases rows.len(),
{
    if rows.len() == 0 {
        None
    } else {
        match first_with_id(rows.drop_last(), id) {
            Some(k) => Some(k),
            None => if rows.last().item.id == id {
                Some(rows.len() - 1)
            } else {
                None
            },
        }
    }
}

/// An optional index as an optional integer.
pub open spec fn opt_int(o: Option<usize>) -> Option<int> {
    match o {
        Some(k) => Some(k as int),
        None => None,
    }
}

/// When the row before `i` is the first with `id`, `first_with_id` finds it.
proof fn lemma_first_with_id_prefix(rows: Seq<EntryModel>, i: int, id: Seq<Seq<char>>)
    requires
        1 <= i <= rows.len(),
        first_with_id(rows.take(i - 1), id) is None,
        rows[i - 1].item.id == id,
    ensures
        first_with_id(rows, id) == Some(i - 1),
    decreases rows.len() - i,
{
    if i == rows.len() {
        assert(rows.drop_last() =~= rows.take(i - 1));
    } else {
        assert(rows.drop_last().take(i - 1) =~= rows.take(i - 1));
        assert(rows.drop_last()[i - 1] == rows[i - 1]);
        lemma_first_with_id_prefix(rows.drop_last(), i, id);
    }
}

/// `first_with_id` finds an index in range whose row has the id.
pub proof fn lemma_first_with_id(rows: Seq<EntryModel>, id: Seq<Seq<char>>)
    ensures
        first_with_id(rows, id) matches Some(j) ==> 0 <= j < rows.len() && rows[j].item.id == id,
    decreases rows.len(),
{
    if rows.len() > 0 {
        lemma_first_with_id(rows.drop_last(), id);
    }
}

/// When some row has the id `id`, `first_with_id` finds a row no later.
pub proof fn lemma_first_with_id_some(rows: Seq<EntryModel>, id: Seq<Seq<char>>, k: int)
    requires
        0 <= k < rows.len(),
        rows[k].item.id == id,
    ensures
        first_with_id(rows, id) matches Some(j) && 0 <= j <= k && rows[j].item.id == id,
    decreases rows.len(),
{
    lemma_first_with_id(rows, id);
    if k < rows.len() - 1 {
        assert(rows.drop_last()[k] == rows[k]);
        lemma_first_with_id_some(rows.drop_last(), id, k);
    } else {
        lemma_first_with_id(rows.drop_last(), id);
    }
}

/// Whether two paths are equal.
fn paths_equal(a: &Vec<usize>, b: &Vec<usize>) -> (r: bool)
    ensures
        r == (path_view(a@) == path_view(b@)),
{
    if a.len() != b.len() {
        assert(path_view(a@).len() != path_view(b@).len());
        return false;
    }
    let mut i: usize = 0;
    while i < a.len()
        invariant
            i <= a.len(),
            a@.len() == b@.len(),
            path_view(a@).take(i as int) == path_view(b@).take(i as int),
        decreases a.len() - i,
    {
        if a[i] != b[i] {
            assert(path_view(a@)[i as int] != path_view(b@)[i as int]);
            return false;
        }
        assert(path_view(a@).take(i + 1) =~= path_view(b@).take(i + 1)) by {
            assert(path_view(a@).take(i + 1) =~= path_view(a@).take(i as int).push(path_view(a@)[i as int]));
            assert(path_view(b@).take(i + 1) =~= path_view(b@).take(i as int).push(path_view(b@)[i as int]));
        }
        i = i + 1;
    }
    assert(path_view(a@).take(i as int) =~= path_view(a@));
    assert(path_view(b@).take(i as int) =~= path_view(b@));
    true
}

/// Whether two ids are equal, segment by segment.
fn ids_equal(a: &Vec<String>, b: &Vec<String>) -> (r: bool)
    ensures
        r == (id_view(a@) == id_view(b@)),
{
    if a.len() != b.len() {
        assert(id_view(a@).len() != id_view(b@).len());
        return false;
    }
    let mut i: usize = 0;
    while i < a.len()
        invariant
            i <= a.len(),
            a@.len() == b@.len(),
            id_view(a@).take(i as int) == id_view(b@).take(i as int),
        decreases a.len() - i,
    {
        if a[i] != b[i] {
            assert(id_view(a@)[i as int] != id_view(b@)[i as int]);
            return false;
        }
        assert(id_view(a@).take(i + 1) =~= id_view(b@).take(i + 1)) by {
            assert(id_view(a@).take(i + 1) =~= id_view(a@).take(i as int).push(id_view(a@)[i as int]));
            assert(id_view(b@).take(i + 1) =~= id_view(b@).take(i as int).push(id_view(b@)[i as int]));
        }
        i = i + 1;
    }
    assert(id_view(a@).take(i as int) =~= id_view(a@));
    assert(id_view(b@).take(i as int) =~= id_view(b@));
    true
}

/// The row that Up selects: the one before the selected row (no selection
/// counting as row 0), or from row 0 the last row (0 when there is none).
pub open spec fn up_index(selected: Option<usize>, len: nat) -> usize {
    let s = match selected {
        Some(s) => s,
        None => 0,
    };
    if s > 0 {
        (s - 1) as usize
    } else if len > 0 {
        (len - 1) as usize
    } else {
        0
    }
}

/// The row that Down selects: the one after the selected row (no selection
/// counting as row 0) when there is one, else row 0.
pub open spec fn down_index(selected: Option<usize>, len: nat) -> usize {
    let s = match selected {
        Some(s) => s,
        None => 0,
    };
    if s + 1 < len {
        (s + 1) as usize
    } else {
        0
    }
}

/// The event of toggling the row `e`: `Collapsed` with its id when it was
/// expanded, `Expanded` with its id when it was collapsed.
pub open spec fn toggle_event(e: EntryModel) -> EventModel {
    if e.item.expanded {
        EventModel::Collapsed(e.item.id)
    } else {
        EventModel::Expanded(e.item.id)
    }
}

/// Whether `ix` is the row of a disabled item.
pub open spec fn row_disabled(rows: Seq<EntryModel>, ix: usize) -> bool {
    ix < rows.len() && rows[ix as int].item.disabled
}

/// Whether `toggle_expand(ix)` acts on `rows`: `ix` is a row whose item is a
/// folder.
pub open spec fn toggles(rows: Seq<EntryModel>, ix: usize) -> bool {
    ix < rows.len() && rows[ix as int].item.children.len() > 0
}

/// When the row before `i` is the first match, `first_with_last` finds it.
proof fn lemma_first_with_last_prefix(rows: Seq<EntryModel>, i: int, key: Option<Seq<char>>)
    requires
        1 <= i <= rows.len(),
        first_with_last(rows.take(i - 1), key) is None,
        last_seg(rows[i - 1].item.id) == key,
    ensures
        first_with_last(rows, key) == Some(i - 1),
    decreases rows.len() - i,
{
    if i == rows.len() {
        assert(rows.drop_last() =~= rows.take(i - 1));
    } else {
        assert(rows.drop_last().take(i - 1) =~= rows.take(i - 1));
        assert(rows.drop_last()[i - 1] == rows[i - 1]);
        lemma_first_with_last_prefix(rows.drop_last(), i, key);
    }
}

/// State for managing tree items: the roots, the visible rows they give, the
/// selected row and the row that was last right-clicked.
pub struct TreeState {
    roots: Vec<TreeItem>,
    entries: Vec<TreeEntry>,
    selected_ix: Option<usize>,
    right_clicked_ix: Option<usize>,
}

impl TreeState {
    /// The values of the root items.
    pub closed spec fn roots(self) -> Seq<ItemModel> {
        TreeItem::models(self.roots@)
    }

    /// The visible rows.
    pub closed spec fn rows(self) -> Seq<EntryModel> {
        entries_view(self.entries@)
    }

    /// The selected index, if any.
    pub closed spec fn selected(self) -> Option<usize> {
        self.selected_ix
    }

    /// The right-clicked index, if any.
    pub closed spec fn right_clicked(self) -> Option<usize> {
        self.right_clicked_ix
    }

    /// The rows are exactly the flattening of the roots.
    pub open spec fn wf(self) -> bool {
        self.rows() == flatten(self.roots())
    }

    /// Every state keeps its rows equal to the flattening of its roots.
    #[verifier::type_invariant]
    spec fn inv(self) -> bool {
        self.wf()
    }

    /// A new empty tree state.
    pub fn new() -> (r: Self)
        ensures
            r.wf(),
            r.roots() == Seq::<ItemModel>::empty(),
            r.selected() == None::<usize>,
            r.right_clicked() == None::<usize>,
    {
        let roots: Vec<TreeItem> = Vec::new();
        let entries: Vec<TreeEntry> = Vec::new();
        proof {
            assert(TreeItem::models(roots@) =~= Seq::<ItemModel>::empty());
            assert(entries_view(entries@) =~= Seq::<EntryModel>::empty());
        }
        TreeState { roots, entries, selected_ix: None, right_clicked_ix: None }
    }

    /// This state with its items set to `items`; the selection is kept.
    pub fn items(self, items: Vec<TreeItem>) -> (r: Self)
        ensures
            r.wf(),
            r.roots() == TreeItem::models(items@),
            r.selected() == self.selected(),
            r.right_clicked() == self.right_clicked(),
    {
        let entries = entries_of(&items);
        TreeState { roots: items, entries, selected_ix: self.selected_ix, right_clicked_ix: self.right_clicked_ix }
    }

    /// Sets the items; the selection and the right-clicked row are cleared.
    /// No event is emitted: the events given back are none.
    pub fn set_items(&mut self, items: Vec<TreeItem>) -> (events: Vec<TreeEvent>)
        ensures
            events@.len() == 0,
            final(self).wf(),
            final(self).roots() == TreeItem::models(items@),
            final(self).selected() == None::<usize>,
            final(self).right_clicked() == None::<usize>,
    {
        proof {
            use_type_invariant(&*self);
        }
        let entries = entries_of(&items);
        *self = TreeState { roots: items, entries, selected_ix: None, right_clicked_ix: None };
        Vec::new()
    }

    /// Rebuilds the rows from the items of the top-level rows, which leaves
    /// them as they were.
    pub fn rebuild_entries(&mut self)
        ensures
            final(self).wf(),
            final(self).roots() == old(self).roots(),
            final(self).rows() == flatten(root_items(old(self).rows())),
            final(self).rows() == old(self).rows(),
            final(self).selected() == old(self).selected(),
            final(self).right_clicked() == old(self).right_clicked(),
    {
        proof {
            use_type_invariant(&*self);
            lemma_root_items_flatten(self.roots());
        }
        let roots = clone_items(&self.roots);
        let entries = entries_of(&roots);
        *self = TreeState {
            roots,
            entries,
            selected_ix: self.selected_ix,
            right_clicked_ix: self.right_clicked_ix,
        };
    }

    /// The visible entries.
    pub fn entries(&self) -> (r: &Vec<TreeEntry>)
        ensures
            entries_view(r@) == self.rows(),
    {
        &self.entries
    }

    /// The currently selected index, if any.
    pub fn selected_index(&self) -> (r: Option<usize>)
        ensures
            r == self.selected(),
    {
        self.selected_ix
    }

    /// Sets the selected index, or `None` to clear the selection.
    pub fn set_selected_index(&mut self, ix: Option<usize>)
        ensures
            final(self).roots() == old(self).roots(),
            final(self).rows() == old(self).rows(),
            final(self).selected() == ix,
            final(self).right_clicked() == old(self).right_clicked(),
    {
        proof {
            use_type_invariant(&*self);
        }
        self.selected_ix = ix;
    }

    /// The currently selected entry, if the selected index is that of a row.
    pub fn selected_entry(&self) -> (r: Option<&TreeEntry>)
        ensures
            r.is_some() <==> (self.selected() is Some && self.selected().unwrap() < self.rows().len()),
            r.is_some() ==> r.unwrap()@ == self.rows()[self.selected().unwrap() as int],
    {
        match self.selected_ix {
            Some(ix) => {
                if ix < self.entries.len() {
                    Some(&self.entries[ix])
                } else {
                    None
                }
            },
            None => None,
        }
    }

    /// The currently selected tree item, if the selected index is that of a row.
    pub fn selected_item(&self) -> (r: Option<&TreeItem>)
        ensures
            r.is_some() <==> (self.selected() is Some && self.selected().unwrap() < self.rows().len()),
            r.is_some() ==> r.unwrap()@ == self.rows()[self.selected().unwrap() as int].item,
    {
        match self.selected_entry() {
            Some(entry) => Some(entry.item()),
            None => None,
        }
    }

    /// The index of the first row whose item's id ends in `id`, if any.
    pub fn index_of(&self, id: &String) -> (r: Option<usize>)
        ensures
            r matches Some(k) ==> first_with_last(self.rows(), Some(id@)) == Some(k as int),
            r is None ==> first_with_last(self.rows(), Some(id@)) is None,
    {
        let mut i: usize = 0;
        while i < self.entries.len()
            invariant
                i <= self.entries.len(),
                first_with_last(self.rows().take(i as int), Some(id@)) is None,
            decreases self.entries.len() - i,
        {
            let found = last_matches(&self.entries[i].item.id, Some(id));
            proof {
                assert(self.rows().take(i + 1).drop_last() =~= self.rows().take(i as int));
                assert(self.rows().take(i + 1).last() == self.entries@[i as int]@);
            }
            if found {
                proof {
                    lemma_first_with_last_prefix(self.rows(), i + 1, Some(id@));
                }
                return Some(i);
            }
            i = i + 1;
        }
        assert(self.rows().take(i as int) =~= self.rows());
        None
    }

    /// The walk of `expand_ancestors`: expands the ancestors of the item it
    /// reaches and gives the events and that item's path.
    fn expand_walk(&mut self, target_id: &Vec<String>) -> (r: (Vec<TreeEvent>, Option<Vec<usize>>))
        ensures
            final(self).wf(),
            final(self).selected() == old(self).selected(),
            final(self).right_clicked() == old(self).right_clicked(),
            match walk_target(old(self).roots(), id_view(target_id@)) {
                None => final(self).roots() == old(self).roots() && r.0@.len() == 0 && r.1 is None,
                Some(tp) => {
                    let q = tp.drop_last();
                    let (roots, ids) = expand_along(old(self).roots(), q, 0, q.len() as int);
                    &&& final(self).roots() == roots
                    &&& events_view(r.0@) == expanded_events(ids)
                    &&& r.1 matches Some(p) && path_view(p@) == tp
                },
            },
    {
        proof {
            use_type_invariant(&*self);
        }
        let ghost t = id_view(target_id@);
        let ghost old_roots = self.roots();
        let mut events: Vec<TreeEvent> = Vec::new();
        let key: Option<&String> = if target_id.len() > 0 {
            Some(&target_id[0])
        } else {
            None
        };
        assert(first_seg(t) == key_view(key));
        proof {
            lemma_models(self.roots@);
        }
        // the walk starts at the first root whose id ends in the first segment
        let mut i: usize = 0;
        let mut found = false;
        while i < self.roots.len() && !found
            invariant
                i <= self.roots.len(),
                old_roots == TreeItem::models(self.roots@),
                old_roots.len() == self.roots@.len(),
                forall|j: int| 0 <= j < self.roots@.len() ==> #[trigger] old_roots[j] == self.roots@[j]@,
                found ==> i < self.roots@.len() && last_seg(old_roots[i as int].id) == key_view(key),
                first_item_with_last(old_roots.take(i as int), key_view(key)) is None,
            decreases self.roots.len() - i, (if found { 0int } else { 1int }),
        {
            if last_matches(&self.roots[i].id, key) {
                found = true;
            } else {
                assert(old_roots.take(i + 1).drop_last() =~= old_roots.take(i as int));
                i = i + 1;
            }
        }
        if !found {
            assert(old_roots.take(i as int) =~= old_roots);
            return (events, None);
        }
        proof {
            lemma_first_item_with_last_prefix(old_roots, i + 1, key_view(key));
        }
        if target_id.len() == 1 {
            // the id names the root itself, which has no ancestor to expand
            let mut tp: Vec<usize> = Vec::new();
            tp.push(i);
            proof {
                assert(path_view(tp@) =~= seq![i as int]);
                assert(path_view(tp@).drop_last() =~= Seq::<int>::empty());
                assert(events_view(events@) =~= expanded_events(Seq::<Seq<Seq<char>>>::empty()));
            }
            return (events, Some(tp));
        }
        let next: usize = if target_id.len() > 0 {
            1
        } else {
            0
        };
        assert(rest(t) =~= t.skip(next as int));
        let c = match self.roots[i].find_ancestors(target_id, next) {
            Some(c) => c,
            None => {
                return (events, None);
            },
        };
        // tp: the path of the item reached; q: the path of its parent
        let mut tp: Vec<usize> = Vec::new();
        tp.push(i);
        let mut tail = copy_path(&c);
        tp.append(&mut tail);
        assert(path_view(tp@) =~= seq![i as int] + path_view(c@));
        let ghost tpv = path_view(tp@);
        assert(walk_target(old_roots, t) == Some(tpv));
        proof {
            lemma_walk_valid(old_roots, t);
        }
        let q = take_path(&tp, tp.len() - 1);
        let ghost qv = path_view(q@);
        assert(qv == tpv.drop_last());
        let mut roots = clone_items(&self.roots);
        let hi = q.len();
        let mut m: usize = 0;
        proof {
            assert(expand_along(old_roots, qv, 0, 0).1 =~= Seq::<Seq<Seq<char>>>::empty());
            assert(events_view(events@) =~= Seq::<EventModel>::empty());
        }
        while m < hi
            invariant
                m <= hi,
                hi == q@.len(),
                self.wf(),
                old_roots == self.roots(),
                self.selected_ix == old(self).selected_ix,
                self.right_clicked_ix == old(self).right_clicked_ix,
                qv == path_view(q@),
                valid_path(TreeItem::models(roots@), qv),
                TreeItem::models(roots@) == expand_along(old_roots, qv, 0, m as int).0,
                events_view(events@) == expanded_events(expand_along(old_roots, qv, 0, m as int).1),
            decreases hi - m,
        {
            let prefix = take_path(&q, m + 1);
            proof {
                lemma_valid_path_take(TreeItem::models(roots@), qv, m + 1);
                assert(path_view(prefix@).skip(0) =~= path_view(prefix@));
            }
            let node = get_item(&roots, &prefix, 0);
            if !node.is_expanded() {
                let id = clone_id(&node.id);
                let ghost before = TreeItem::models(roots@);
                set_expanded_in(&mut roots, &prefix, 0, true);
                proof {
                    lemma_set_expanded_shape(before, qv.take(m + 1), true, qv);
                }
                let ghost evs = events@;
                let ev = TreeEvent::Expanded(id);
                assert(ev@ == EventModel::Expanded(id_view(id@)));
                events.push(ev);
                proof {
                    let ids = expand_along(old_roots, qv, 0, m as int).1;
                    assert(events_view(events@) =~= events_view(evs).push(ev@));
                    assert(expanded_events(ids.push(id_view(id@))) =~= expanded_events(ids).push(
                        EventModel::Expanded(id_view(id@)),
                    ));
                }
            }
            m = m + 1;
        }
        let entries = entries_of(&roots);
        *self = TreeState {
            roots,
            entries,
            selected_ix: self.selected_ix,
            right_clicked_ix: self.right_clicked_ix,
        };
        (events, Some(tp))
    }

    /// Expands the ancestors of the item named by `target_id`. The walk
    /// starts at the first root whose id ends in the first segment, then goes
    /// down the children, one segment per level (at each level the first
    /// child whose id ends in the segment), to the named item; every item on
    /// the way above it that is collapsed is expanded, top down, with an
    /// `Expanded` event for each. Nothing changes when the walk does not
    /// reach an item.
    pub fn expand_ancestors(&mut self, target_id: &Vec<String>) -> (events: Vec<TreeEvent>)
        ensures
            final(self).wf(),
            final(self).selected() == old(self).selected(),
            final(self).right_clicked() == old(self).right_clicked(),
            match expand_plan(old(self).roots(), id_view(target_id@)) {
                None => final(self).roots() == old(self).roots() && events@.len() == 0,
                Some(q) => {
                    let (roots, ids) = expand_along(old(self).roots(), q, 0, q.len() as int);
                    &&& final(self).roots() == roots
                    &&& events_view(events@) == expanded_events(ids)
                },
            },
    {
        proof {
            use_type_invariant(&*self);
        }
        let (events, _target) = self.expand_walk(target_id);
        events
    }

    /// The index of the first row whose path is `path`, if any.
    fn find_path(&self, path: &Vec<usize>) -> (r: Option<usize>)
        ensures
            opt_int(r) == first_with_path(self.rows(), path_view(path@)),
    {
        let mut i: usize = 0;
        while i < self.entries.len()
            invariant
                i <= self.entries.len(),
                first_with_path(self.rows().take(i as int), path_view(path@)) is None,
            decreases self.entries.len() - i,
        {
            let found = paths_equal(&self.entries[i].path, path);
            proof {
                assert(self.rows().take(i + 1).drop_last() =~= self.rows().take(i as int));
                assert(self.rows().take(i + 1).last() == self.entries@[i as int]@);
            }
            if found {
                proof {
                    lemma_first_with_path_prefix(self.rows(), i + 1, path_view(path@));
                }
                return Some(i);
            }
            i = i + 1;
        }
        assert(self.rows().take(i as int) =~= self.rows());
        None
    }

    /// The index of the first row whose item's id is `id`, if any.
    fn position_of_id(&self, id: &Vec<String>) -> (r: Option<usize>)
        ensures
            opt_int(r) == first_with_id(self.rows(), id_view(id@)),
    {
        let mut i: usize = 0;
        while i < self.entries.len()
            invariant
                i <= self.entries.len(),
                first_with_id(self.rows().take(i as int), id_view(id@)) is None,
            decreases self.entries.len() - i,
        {
            let found = ids_equal(&self.entries[i].item.id, id);
            proof {
                assert(self.rows().take(i + 1).drop_last() =~= self.rows().take(i as int));
                assert(self.rows().take(i + 1).last() == self.entries@[i as int]@);
            }
            if found {
                proof {
                    lemma_first_with_id_prefix(self.rows(), i + 1, id_view(id@));
                }
                return Some(i);
            }
            i = i + 1;
        }
        assert(self.rows().take(i as int) =~= self.rows());
        None
    }

    /// Selects the row of `item` (the first row with its id), or clears the
    /// selection for `None`. When no row has the id, the ancestors of the
    /// item are expanded first (see `expand_ancestors`), with their events,
    /// and the row is looked for again.
    pub fn set_selected_item(&mut self, item: Option<&TreeItem>) -> (events: Vec<TreeEvent>)
        ensures
            final(self).wf(),
            final(self).right_clicked() == old(self).right_clicked(),
            match item {
                None => {
                    &&& final(self).selected() == None::<usize>
                    &&& final(self).roots() == old(self).roots()
                    &&& events@.len() == 0
                },
                Some(it) => match first_with_id(old(self).rows(), it@.id) {
                    Some(k) => {
                        &&& final(self).selected() == Some(k as usize)
                        &&& final(self).roots() == old(self).roots()
                        &&& events@.len() == 0
                    },
                    None => {
                        &&& opt_int(final(self).selected()) == first_with_id(final(self).rows(), it@.id)
                        &&& match expand_plan(old(self).roots(), it@.id) {
                            None => final(self).roots() == old(self).roots() && events@.len() == 0,
                            Some(q) => {
                                let (roots, ids) = expand_along(old(self).roots(), q, 0, q.len() as int);
                                &&& final(self).roots() == roots
                                &&& events_view(events@) == expanded_events(ids)
                            },
                        }
                    },
                },
            },
    {
        proof {
            use_type_invariant(&*self);
        }
        match item {
            Some(item) => {
                proof {
                    assert(item@.id == id_view(item.id@));
                }
                let ix = self.position_of_id(&item.id);
                if ix.is_some() {
                    self.selected_ix = ix;
                    Vec::new()
                } else {
                    let events = self.expand_ancestors(&item.id);
                    self.selected_ix = self.position_of_id(&item.id);
                    events
                }
            },
            None => {
                self.selected_ix = None;
                Vec::new()
            },
        }
    }

    /// Expands the ancestors of the node named by `id` (see
    /// `expand_ancestors`) and gives the row of that node, to scroll it into
    /// view. When `id` names no node (the walk reaches no item), nothing
    /// changes and there is no row to scroll to. The selection does not
    /// change.
    pub fn reveal_item(&mut self, id: &VecDeque<String>) -> (r: (Vec<TreeEvent>, Option<usize>))
        ensures
            final(self).wf(),
            final(self).selected() == old(self).selected(),
            final(self).right_clicked() == old(self).right_clicked(),
            match walk_target(old(self).roots(), id_view(id@)) {
                None => {
                    &&& final(self).roots() == old(self).roots()
                    &&& r.0@.len() == 0
                    &&& r.1 is None
                },
                Some(tp) => {
                    let q = tp.drop_last();
                    let (roots, ids) = expand_along(old(self).roots(), q, 0, q.len() as int);
                    &&& final(self).roots() == roots
                    &&& events_view(r.0@) == expanded_events(ids)
                    &&& r.1 matches Some(k) && k < final(self).rows().len() && final(self).rows()[k as int].path == tp
                    &&& opt_int(r.1) == first_with_path(final(self).rows(), tp)
                },
            },
    {
        proof {
            use_type_invariant(&*self);
        }
        let mut target: Vec<String> = Vec::new();
        let mut i: usize = 0;
        while i < id.len()
            invariant
                i <= id@.len(),
                target@ == id@.take(i as int),
            decreases id.len() - i,
        {
            target.push(id[i].clone());
            i = i + 1;
            assert(target@ =~= id@.take(i as int));
        }
        assert(target@ =~= id@);
        let ghost old_roots = self.roots();
        let (events, reached) = self.expand_walk(&target);
        match reached {
            None => (events, None),
            Some(tp) => {
                let scroll = self.find_path(&tp);
                proof {
                    let k = lemma_expand_reveals(old_roots, id_view(id@));
                    lemma_first_with_path_some(self.rows(), path_view(tp@), k);
                }
                (events, scroll)
            },
        }
    }

    /// Confirm on the selected row: toggles it when it is a folder.
    pub fn on_action_confirm(&mut self) -> (ev: Option<TreeEvent>)
        ensures
            final(self).wf(),
            final(self).selected() == old(self).selected(),
            ({
                let acts = old(self).selected() matches Some(s) && toggles(old(self).rows(), s);
                &&& acts ==> final(self).roots() == set_expanded_at(
                    old(self).roots(),
                    old(self).rows()[old(self).selected().unwrap() as int].path,
                    !old(self).rows()[old(self).selected().unwrap() as int].item.expanded,
                ) && ev is Some && ev.unwrap()@ == toggle_event(
                    old(self).rows()[old(self).selected().unwrap() as int],
                ) && final(self).right_clicked() == None::<usize>
                &&& !acts ==> final(self).roots() == old(self).roots() && ev is None
                    && final(self).right_clicked() == old(self).right_clicked()
            }),
    {
        proof {
            use_type_invariant(&*self);
        }
        if let Some(selected_ix) = self.selected_ix {
            if selected_ix < self.entries.len() {
                if self.entries[selected_ix].is_folder() {
                    return self.toggle_expand(selected_ix);
                }
            }
        }
        None
    }

    /// Left on the selected row: collapses it when it is an expanded folder.
    pub fn on_action_left(&mut self) -> (ev: Option<TreeEvent>)
        ensures
            final(self).wf(),
            final(self).selected() == old(self).selected(),
            ({
                let acts = old(self).selected() matches Some(s) && toggles(old(self).rows(), s)
                    && old(self).rows()[s as int].item.expanded;
                &&& acts ==> final(self).roots() == set_expanded_at(
                    old(self).roots(),
                    old(self).rows()[old(self).selected().unwrap() as int].path,
                    false,
                ) && ev is Some && ev.unwrap()@ == toggle_event(
                    old(self).rows()[old(self).selected().unwrap() as int],
                ) && final(self).right_clicked() == None::<usize>
                &&& !acts ==> final(self).roots() == old(self).roots() && ev is None
                    && final(self).right_clicked() == old(self).right_clicked()
            }),
    {
        proof {
            use_type_invariant(&*self);
        }
        if let Some(selected_ix) = self.selected_ix {
            if selected_ix < self.entries.len() {
                if self.entries[selected_ix].is_folder() && self.entries[selected_ix].is_expanded() {
                    return self.toggle_expand(selected_ix);
                }
            }
        }
        None
    }

    /// Right on the selected row: expands it when it is a collapsed folder.
    pub fn on_action_right(&mut self) -> (ev: Option<TreeEvent>)
        ensures
            final(self).wf(),
            final(self).selected() == old(self).selected(),
            ({
                let acts = old(self).selected() matches Some(s) && toggles(old(self).rows(), s)
                    && !old(self).rows()[s as int].item.expanded;
                &&& acts ==> final(self).roots() == set_expanded_at(
                    old(self).roots(),
                    old(self).rows()[old(self).selected().unwrap() as int].path,
                    true,
                ) && ev is Some && ev.unwrap()@ == toggle_event(
                    old(self).rows()[old(self).selected().unwrap() as int],
                ) && final(self).right_clicked() == None::<usize>
                &&& !acts ==> final(self).roots() == old(self).roots() && ev is None
                    && final(self).right_clicked() == old(self).right_clicked()
            }),
    {
        proof {
            use_type_invariant(&*self);
        }
        if let Some(selected_ix) = self.selected_ix {
            if selected_ix < self.entries.len() {
                if self.entries[selected_ix].is_folder() && !self.entries[selected_ix].is_expanded() {
                    return self.toggle_expand(selected_ix);
                }
            }
        }
        None
    }

    /// Up: selects the previous row, or the last row from the first one (or
    /// from no selection); gives the row to scroll to the top.
    pub fn on_action_up(&mut self) -> (r: usize)
        ensures
            final(self).roots() == old(self).roots(),
            final(self).rows() == old(self).rows(),
            final(self).right_clicked() == old(self).right_clicked(),
            final(self).selected() == Some(r),
            r == up_index(old(self).selected(), old(self).rows().len()),
    {
        proof {
            use_type_invariant(&*self);
        }
        let mut selected_ix = match self.selected_ix {
            Some(s) => s,
            None => 0,
        };
        if selected_ix > 0 {
            selected_ix = selected_ix - 1;
        } else {
            selected_ix = self.entries.len().saturating_sub(1);
        }
        self.selected_ix = Some(selected_ix);
        selected_ix
    }

    /// Down: selects the next row, or the first row from the last one; from
    /// no selection, the row after the first. Gives the row to scroll to the
    /// bottom.
    pub fn on_action_down(&mut self) -> (r: usize)
        ensures
            final(self).roots() == old(self).roots(),
            final(self).rows() == old(self).rows(),
            final(self).right_clicked() == old(self).right_clicked(),
            final(self).selected() == Some(r),
            r == down_index(old(self).selected(), old(self).rows().len()),
    {
        proof {
            use_type_invariant(&*self);
        }
        let mut selected_ix = match self.selected_ix {
            Some(s) => s,
            None => 0,
        };
        let len = self.entries.len();
        if len > 0 && selected_ix < len - 1 {
            selected_ix = selected_ix + 1;
        } else {
            selected_ix = 0;
        }
        self.selected_ix = Some(selected_ix);
        selected_ix
    }

    /// A click on row `ix`: selects it and toggles it (see `toggle_expand`).
    /// The row of a disabled item ignores clicks: nothing changes.
    pub fn on_entry_click(&mut self, ix: usize) -> (ev: Option<TreeEvent>)
        ensures
            final(self).wf(),
            row_disabled(old(self).rows(), ix) ==> {
                &&& final(self).roots() == old(self).roots()
                &&& final(self).selected() == old(self).selected()
                &&& final(self).right_clicked() == old(self).right_clicked()
                &&& ev is None
            },
            !row_disabled(old(self).rows(), ix) ==> {
                &&& final(self).selected() == Some(ix)
                &&& toggles(old(self).rows(), ix) ==> {
                    let e = old(self).rows()[ix as int];
                    &&& final(self).roots() == set_expanded_at(old(self).roots(), e.path, !e.item.expanded)
                    &&& final(self).right_clicked() == None::<usize>
                    &&& ev is Some
                    &&& ev.unwrap()@ == toggle_event(e)
                }
                &&& !toggles(old(self).rows(), ix) ==> {
                    &&& final(self).roots() == old(self).roots()
                    &&& final(self).right_clicked() == old(self).right_clicked()
                    &&& ev is None
                }
            },
    {
        proof {
            use_type_invariant(&*self);
        }
        if ix < self.entries.len() && self.entries[ix].is_disabled() {
            return None;
        }
        self.selected_ix = Some(ix);
        self.toggle_expand(ix)
    }

    /// A right click on row `ix`: it becomes the right-clicked row, unless
    /// the row's item is disabled, which ignores clicks.
    pub fn on_entry_right_click(&mut self, ix: usize)
        ensures
            final(self).roots() == old(self).roots(),
            final(self).rows() == old(self).rows(),
            final(self).selected() == old(self).selected(),
            final(self).right_clicked() == (if row_disabled(old(self).rows(), ix) {
                old(self).right_clicked()
            } else {
                Some(ix)
            }),
    {
        proof {
            use_type_invariant(&*self);
        }
        if ix < self.entries.len() && self.entries[ix].is_disabled() {
            return;
        }
        self.right_clicked_ix = Some(ix);
    }

    /// The index of the row that was last right-clicked, if any.
    pub fn right_clicked_index(&self) -> (r: Option<usize>)
        ensures
            r == self.right_clicked(),
    {
        self.right_clicked_ix
    }

    /// The right-clicked entry, if the right-clicked index is that of a row.
    pub fn right_clicked_entry(&self) -> (r: Option<&TreeEntry>)
        ensures
            r.is_some() <==> (self.right_clicked() is Some && self.right_clicked().unwrap()
                < self.rows().len()),
            r.is_some() ==> r.unwrap()@ == self.rows()[self.right_clicked().unwrap() as int],
    {
        match self.right_clicked_ix {
            Some(ix) => {
                if ix < self.entries.len() {
                    Some(&self.entries[ix])
                } else {
                    None
                }
            },
            None => None,
        }
    }

    /// Expands the item of row `ix` when it is collapsed and collapses it when
    /// it is expanded, provided that row exists and its item is a folder;
    /// returns the event that says which. Otherwise nothing changes.
    pub fn toggle_expand(&mut self, ix: usize) -> (ev: Option<TreeEvent>)
        ensures
            final(self).wf(),
            final(self).selected() == old(self).selected(),
            toggles(old(self).rows(), ix) ==> {
                let e = old(self).rows()[ix as int];
                &&& final(self).roots() == set_expanded_at(old(self).roots(), e.path, !e.item.expanded)
                &&& final(self).right_clicked() == None::<usize>
                &&& ev is Some
                &&& ev.unwrap()@ == toggle_event(e)
            },
            !toggles(old(self).rows(), ix) ==> {
                &&& final(self).roots() == old(self).roots()
                &&& final(self).right_clicked() == old(self).right_clicked()
                &&& ev is None
            },
    {
        proof {
            use_type_invariant(&*self);
        }
        if ix >= self.entries.len() {
            return None;
        }
        if !self.entries[ix].is_folder() {
            return None;
        }
        let expanded = !self.entries[ix].is_expanded();
        let id = clone_id(&self.entries[ix].item.id);
        let path = copy_path(&self.entries[ix].path);
        proof {
            lemma_flatten_seq_paths(self.roots(), Seq::empty());
            let e = self.rows()[ix as int];
            assert(e == self.entries@[ix as int]@);
            assert(e.path.subrange(0, e.path.len() as int) =~= e.path);
            assert(path_view(path@).skip(0) =~= path_view(path@));
        }
        let mut roots = clone_items(&self.roots);
        set_expanded_in(&mut roots, &path, 0, expanded);
        let entries = entries_of(&roots);
        *self = TreeState { roots, entries, selected_ix: self.selected_ix, right_clicked_ix: None };
        if expanded {
            Some(TreeEvent::Expanded(id))
        } else {
            Some(TreeEvent::Collapsed(id))
        }
    }
}

} // verus!
