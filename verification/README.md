# limbo_rtree

An R-tree virtual table with verified operations.

Boxes in one to five dimensions, each with a row id and optional auxiliary columns, are kept in a
tree of pages. The pages and two maps (row to node, node to parent) live in shadow tables of the
database that the table belongs to.

## Layout

- `src/` is the library. Every function has a contract that Verus proves.
  - `coord`, `bytes`, `node`, `page_laws`: coordinates, byte layout, pages and their cells.
  - `geometry`, `split`: bounding boxes, and splitting a full page along the axis with the smallest
    margins, where the two boxes overlap least.
  - `table`, `module`, `text`, `sql`: tables, their creation, and the statements for their shadow
    tables.
  - `value`, `store`, `tree_read`, `tree_insert`, `tree_delete`, `rows`: values, what is known of
    the shadow tables, and the operations on them.
  - `constraint`, `plan`, `cursor`: queries.
  - `forest`, `forest_split`, `forest_cut`, `forest_rows`, `forest_fill`, `forest_query`: the tree as
    a mathematical object, and what single steps do to it.
  - `tree_state`, `tree_laws`, `insert_laws`, `tighten_laws`, `torn_tree`, `detach_laws`,
    `removal_laws`: the tree that the shadow tables hold, and that insertions and deletions keep it.
  - `lookup_laws`, `query_laws`, `planned_laws`: what lookups and queries give back of what was
    written.
  - `outcome`, `insert_outcome`, `insert_success`, `delete_outcome`, `success_laws`: when operations
    end well.
  - `functions`, `registry`, `callbacks`, `database`: what extensions implement and register, and
    opening databases.
- `app/` connects the library to a database engine: SQL values with floating point numbers, running
  statements, and the C interface for extensions.
- `tests/` run the library.

## How an operation runs

The library does no input or output. An operation works on a `ShadowStore`, which holds what is
known of the shadow tables. Where it needs a row, the area of a box, the rating of the ways to split
a node, or to have a change made, it stops with `Stop::Wait` and leaves the request in the store. The
caller answers the request in a copy of the store from before the operation and starts the operation
again. `app/driver.rs` does this in a loop.

Coordinates are held by the bits of 32 bit floating point numbers, ordered as those numbers are;
computing with them is left to the caller.
