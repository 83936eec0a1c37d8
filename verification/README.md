# tree_view

The state behind a tree view: items with ids, labels, children and
expanded/disabled flags, shown as a flat list of visible rows with their
depth, a selected row, keyboard navigation, and the expand/collapse events
that changes give.

- `src/model.rs`: the mathematical model (items, rows, paths), the flattening
  of a forest into rows, and the lemmas about it.
- `src/tree.rs`: `TreeItem`, `TreeEntry`, `TreeEvent`, `TreeState`, each
  operation with its contract over the model.
- `src/laws.rs`: properties that span operations (toggling twice restores,
  rows show exactly the items under expanded ancestors, revealing an item
  gives it a row, expanding the ancestors twice is expanding them once,
  navigation wraps and stays on rows).

The state keeps its invariant (the rows are the flattening of the roots) as a
type invariant. Revealing and selecting by id walk from the first root whose
id ends in the first segment, down the children by the following segments.
- `app/`: the gpui glue (key bindings, the view entity, rendering), which
  performs the events, scrolling and drawing that the library decides.
