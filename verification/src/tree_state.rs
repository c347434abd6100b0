//! The tree that a store holds, and what single reads and changes have to do with it.

use vstd::prelude::*;
use crate::bytes;
use crate::forest::{Forest, Open};
use crate::node;
use crate::node::{CellView, NodeView};
use crate::store::{StoreView, WriteView};
use crate::table::TableView;

verus! {

impl TableView {
    /// The contents of the shadow tables, as far as they are known.
    pub open spec fn forest(self, s: StoreView) -> Forest {
        Forest {
            pages: Map::new(
                |n: i64| s.nodes.contains_key(n) && s.nodes[n] is Blob,
                |n: i64|
                    self.cells(bytes::fitted(s.nodes[n]->Blob_0, self.node_size as nat)),
            ),
            up: Map::new(
                |n: i64| n > 1 && s.parents.contains_key(n) && s.parents[n] is Number,
                |n: i64| s.parents[n]->Number_0,
            ),
            home: Map::new(
                |r: i64| s.rowids.contains_key(r) && s.rowids[r] is Number,
                |r: i64| s.rowids[r]->Number_0,
            ),
            high: s.nodes.contains_key(1) && s.nodes[1] is Blob && node::page_depth(
                bytes::fitted(s.nodes[1]->Blob_0, self.node_size as nat),
            ) > 0,
        }
    }

    /// The store holds a tree of this table, up to what is open.
    pub open spec fn grows(self, s: StoreView, open: Open) -> bool {
        &&& self.wf()
        &&& s.wf(self)
        &&& s.connected
        &&& self.forest(s).ok(self.n_dim2 as nat, self.node_count, open)
    }

    /// The store holds a tree of this table: every node is reached from the root under boxes that
    /// cover what is below, every row is in the leaf that is noted for it, and every leaf but the
    /// root holds at least the least number of rows. Before the first insertion there is nothing.
    pub open spec fn is_tree(self, s: StoreView) -> bool {
        if self.node_count == 0 {
            &&& self.wf()
            &&& s.wf(self)
            &&& s.connected
            &&& self.forest(s) == Forest::bare()
        } else {
            self.grows(s, Open::nothing()) && self.is_filled(s)
        }
    }

    /// Every leaf but the root holds at least the least number of rows.
    pub open spec fn is_filled(self, s: StoreView) -> bool {
        self.forest(s).filled(self.min_cells())
    }

    /// The rows that the tree in the store holds.
    pub open spec fn rows(self, s: StoreView) -> Set<CellView> {
        self.forest(s).rows()
    }

    /// A node that was read.
    pub proof fn lemma_read(self, s: StoreView, nodeno: i64)
        requires
            self.wf(),
            s.wf(self),
        ensures
            self.read_node(s, nodeno).0 is Ok ==> self.read_node(s, nodeno).1 == s,
            self.read_node(s, nodeno).0 matches Ok(Some(n)) ==> {
                &&& n.node_no == nodeno
                &&& self.holds(n.data)
                &&& self.forest(s).pages.contains_key(nodeno)
                &&& self.forest(s).pages[nodeno] == self.cells(n.data)
                &&& nodeno == 1 ==> self.forest(s).high == (n.tree_depth() > 0)
            },
            self.read_node(s, nodeno).0 matches Ok(None) ==> nodeno == 0
                || !self.forest(s).pages.contains_key(nodeno),
    {
        if s.nodes.contains_key(nodeno) {
            assert(StoreView::sound_page(self, nodeno, s.nodes[nodeno]));
        }
    }

    /// The parent of a node that was read.
    pub proof fn lemma_read_parent(self, s: StoreView, nodeno: i64)
        ensures
            self.get_parent_nodeno(s, nodeno).0 is Ok ==> self.get_parent_nodeno(s, nodeno).1 == s,
            self.get_parent_nodeno(s, nodeno).0 matches Ok(Some(p)) ==> self.forest(
                s,
            ).up.contains_key(nodeno) && self.forest(s).up[nodeno] == p,
            self.get_parent_nodeno(s, nodeno).0 matches Ok(None) ==> !self.forest(
                s,
            ).up.contains_key(nodeno),
    {
    }

    /// The node of a row that was read.
    pub proof fn lemma_read_home(self, s: StoreView, rowid: i64)
        ensures
            self.get_rowid_nodeno(s, rowid).0 is Ok ==> self.get_rowid_nodeno(s, rowid).1 == s,
            self.get_rowid_nodeno(s, rowid).0 matches Ok(Some(n)) ==> self.forest(
                s,
            ).home.contains_key(rowid) && self.forest(s).home[rowid] == n,
            self.get_rowid_nodeno(s, rowid).0 matches Ok(None) ==> !self.forest(
                s,
            ).home.contains_key(rowid),
    {
    }

    /// Whether a node is a leaf is told rightly.
    pub proof fn lemma_told_leaf(self, s: StoreView, n: NodeView)
        requires
            self.forest(s).pages[n.node_no] == self.cells(n.data),
            n.node_no == 1 ==> self.forest(s).high == (n.tree_depth() > 0),
        ensures
            self.is_leaf(s, n).0 is Ok ==> self.is_leaf(s, n).1 == s,
            self.is_leaf(s, n).0 matches Ok(leaf) ==> leaf == !self.forest(s).inner(n.node_no),
    {
        let cells = self.cells(n.data);
        if n.node_no != 1 && cells.len() > 0 {
            self.lemma_read_parent(s, cells[0].rowid);
        }
    }

    /// A change to a page.
    pub proof fn lemma_page_written(self, s: StoreView, nodeno: i64, data: Seq<u8>)
        requires
            self.wf(),
            s.wf(self),
            self.holds(data),
        ensures
            s.issue(WriteView::Node { nodeno, data }).1.wf(self),
            s.issue(WriteView::Node { nodeno, data }).0 is Ok ==> ({
                let s2 = s.issue(WriteView::Node { nodeno, data }).1;
                let f = self.forest(s);
                &&& self.forest(s2) == (Forest {
                    pages: f.pages.insert(nodeno, self.cells(data)),
                    high: if nodeno == 1 {
                        node::page_depth(data) > 0
                    } else {
                        f.high
                    },
                    ..f
                })
                &&& s2.connected == s.connected
                &&& s2.aux == s.aux
                &&& s2.areas == s.areas
            }),
    {
        self.lemma_issue_wf(s, WriteView::Node { nodeno, data });
        self.lemma_sound_page(nodeno, data);
        let s2 = s.issue(WriteView::Node { nodeno, data }).1;
        if s.issue(WriteView::Node { nodeno, data }).0 is Ok {
            let f = self.forest(s);
            assert(self.forest(s2).pages =~= f.pages.insert(nodeno, self.cells(data)));
            assert(self.forest(s2).up =~= f.up);
            assert(self.forest(s2).home =~= f.home);
        }
    }

    /// A change to the parent of a node.
    pub proof fn lemma_parent_written(self, s: StoreView, nodeno: i64, parentnode: i64)
        requires
            nodeno > 1,
        ensures
            s.wf(self) ==> s.issue(WriteView::Parent { nodeno, parentnode }).1.wf(self),
            s.issue(WriteView::Parent { nodeno, parentnode }).0 is Ok ==> ({
                let s2 = s.issue(WriteView::Parent { nodeno, parentnode }).1;
                let f = self.forest(s);
                &&& self.forest(s2) == (Forest { up: f.up.insert(nodeno, parentnode), ..f })
                &&& s2.connected == s.connected
                &&& s2.aux == s.aux
            }),
    {
        let s2 = s.issue(WriteView::Parent { nodeno, parentnode }).1;
        let f = self.forest(s);
        if s.issue(WriteView::Parent { nodeno, parentnode }).0 is Ok {
            assert(self.forest(s2).pages =~= f.pages);
            assert(self.forest(s2).up =~= f.up.insert(nodeno, parentnode));
            assert(self.forest(s2).home =~= f.home);
        }
    }

    /// A change to the node and the auxiliary columns of a row.
    pub proof fn lemma_row_written(self, s: StoreView, w: WriteView)
        requires
            w is Rowid,
        ensures
            s.wf(self) ==> s.issue(w).1.wf(self),
            s.issue(w).0 is Ok ==> ({
                let s2 = s.issue(w).1;
                let f = self.forest(s);
                &&& self.forest(s2) == (Forest {
                    home: f.home.insert(w->Rowid_rowid, w->Rowid_nodeno),
                    ..f
                })
                &&& s2.connected == s.connected
            }),
    {
        let s2 = s.issue(w).1;
        let f = self.forest(s);
        if s.issue(w).0 is Ok {
            assert(self.forest(s2).pages =~= f.pages);
            assert(self.forest(s2).up =~= f.up);
            assert(self.forest(s2).home =~= f.home.insert(w->Rowid_rowid, w->Rowid_nodeno));
        }
    }

    /// Forgetting a row.
    pub proof fn lemma_row_deleted(self, s: StoreView, rowid: i64)
        ensures
            s.wf(self) ==> s.issue(WriteView::DeleteRowid { rowid }).1.wf(self),
            s.issue(WriteView::DeleteRowid { rowid }).0 is Ok ==> ({
                let s2 = s.issue(WriteView::DeleteRowid { rowid }).1;
                let f = self.forest(s);
                &&& self.forest(s2) == (Forest { home: f.home.remove(rowid), ..f })
                &&& s2.connected == s.connected
                &&& s2.aux == s.aux.insert(rowid, crate::store::AuxRowView::Missing)
            }),
    {
        let s2 = s.issue(WriteView::DeleteRowid { rowid }).1;
        let f = self.forest(s);
        if s.issue(WriteView::DeleteRowid { rowid }).0 is Ok {
            assert(self.forest(s2).pages =~= f.pages);
            assert(self.forest(s2).up =~= f.up);
            assert(self.forest(s2).home =~= f.home.remove(rowid));
        }
    }

    /// Dropping a node other than the root.
    pub proof fn lemma_node_dropped(self, s: StoreView, nodeno: i64)
        requires
            nodeno > 1,
        ensures
            ({
                let ws = seq![WriteView::DeleteNode { nodeno }, WriteView::DeleteParent { nodeno }];
                let (r, s2) = s.issue_all(ws);
                let f = self.forest(s);
                &&& s.wf(self) ==> s2.wf(self)
                &&& r is Ok ==> self.forest(s2) == (Forest {
                    pages: f.pages.remove(nodeno),
                    up: f.up.remove(nodeno),
                    ..f
                }) && s2.connected == s.connected && s2.aux == s.aux && s2.rowids == s.rowids
            }),
    {
        let ws = seq![WriteView::DeleteNode { nodeno }, WriteView::DeleteParent { nodeno }];
        reveal_with_fuel(StoreView::issue_all, 3);
        assert(ws.drop_first() =~= seq![WriteView::DeleteParent { nodeno }]);
        assert(ws.drop_first().drop_first() =~= Seq::empty());
        let (r, s2) = s.issue_all(ws);
        let f = self.forest(s);
        if r is Ok {
            assert(self.forest(s2).pages =~= f.pages.remove(nodeno));
            assert(self.forest(s2).up =~= f.up.remove(nodeno));
            assert(self.forest(s2).home =~= f.home);
        }
    }

    /// The tree of a store depends on the shape of the table alone.
    pub proof fn lemma_forest_by_shape(self, other: TableView, s: StoreView)
        requires
            other.same_shape(self),
        ensures
            other.forest(s) == self.forest(s),
    {
        assert(other.forest(s).pages =~= self.forest(s).pages);
        assert(other.forest(s).up =~= self.forest(s).up);
        assert(other.forest(s).home =~= self.forest(s).home);
    }
}

} // verus!
