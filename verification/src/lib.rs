//! An R-tree virtual table: boxes in up to five dimensions, kept in a tree of fixed size pages.
//!
//! ```sql
//! CREATE VIRTUAL TABLE my_rtree USING rtree(id, xmin, xmax, ymin, ymax, +label);
//! INSERT INTO my_rtree VALUES(1, 0.0, 10.0, 0.0, 10.0, 'first');
//! ```
//!
//! A table ([`table`], [`module`]) keeps its tree in three shadow tables ([`store`], [`sql`]). Rows
//! are inserted, updated and deleted by [`rows`], [`tree_insert`] and [`tree_delete`], and read
//! through a cursor ([`cursor`]) after a plan was made for the query ([`plan`]).
//!
//! What these operations guarantee together is proved over the tree that the shadow tables hold
//! ([`forest`], [`tree_state`]): that an insertion adds one row, that a deletion takes one out, and
//! that both leave every leaf well filled ([`insert_laws`], [`removal_laws`]); that a lookup finds
//! exactly what is stored ([`lookup_laws`]); that a query which is run by its plan gives exactly the
//! rows that meet what the plan took over, each once ([`query_laws`], [`planned_laws`]); and when
//! operations end well ([`outcome`], [`insert_outcome`], [`insert_success`], [`delete_outcome`],
//! [`success_laws`]).
//!
//! What single operations are for is stated apart from how they do it. Numbers and boxes:
//! [`coord_laws`], [`constraint_laws`], [`box_laws`]. Declaring a table: [`text_laws`],
//! [`module_laws`], [`sql_laws`]. Pages and stored rows: [`layout_laws`], [`store_laws`],
//! [`read_laws`]. Inserting, updating and deleting: [`row_laws`], [`count_laws`], [`step_laws`],
//! [`climb_laws`], [`split_laws`], [`fault_laws`]. Queries: [`plan_laws`], [`answer_laws`],
//! [`code_laws`]. Extensions: [`extension_laws`].
//!
//! Extensions register functions and modules through [`registry`] and [`callbacks`]; [`database`]
//! decides what a database is opened with.

pub mod answer_laws;
pub mod box_laws;
pub mod bytes;
pub mod callbacks;
pub mod climb_laws;
pub mod code_laws;
pub mod constraint;
pub mod constraint_laws;
pub mod coord;
pub mod coord_laws;
pub mod count_laws;
pub mod cursor;
pub mod database;
pub mod delete_outcome;
pub mod detach_laws;
pub mod extension_laws;
pub mod fault_laws;
pub mod forest;
pub mod forest_cut;
pub mod forest_fill;
pub mod forest_query;
pub mod forest_rows;
pub mod forest_split;
pub mod functions;
pub mod geometry;
pub mod insert_laws;
pub mod insert_outcome;
pub mod insert_success;
pub mod layout_laws;
pub mod lookup_laws;
pub mod module;
pub mod module_laws;
pub mod node;
pub mod outcome;
pub mod page_laws;
pub mod plan;
pub mod plan_laws;
pub mod planned_laws;
pub mod query_laws;
pub mod read_laws;
pub mod registry;
pub mod removal_laws;
pub mod row_laws;
pub mod rows;
pub mod split;
pub mod split_laws;
pub mod sql;
pub mod sql_laws;
pub mod step_laws;
pub mod store;
pub mod store_laws;
pub mod success_laws;
pub mod table;
pub mod text;
pub mod text_laws;
pub mod tighten_laws;
pub mod torn_tree;
pub mod tree_delete;
pub mod tree_insert;
pub mod tree_laws;
pub mod tree_read;
pub mod tree_state;
pub mod value;
