//! How well the leaves of the tree are filled.

use vstd::prelude::*;
use crate::forest::{Forest, Open};
use crate::forest_split::LeafSplit;

verus! {

impl Forest {
    /// Every leaf but the root and those to be skipped holds at least so many rows.
    #[verifier::opaque]
    pub open spec fn filled_but(self, least: nat, skip: Set<i64>) -> bool {
        forall|n: i64| #[trigger]
            self.pages.contains_key(n) && n != 1 && !skip.contains(n) && !self.inner(n)
                ==> self.pages[n].len() >= least
    }

    /// Every leaf but the root holds at least so many rows.
    pub open spec fn filled(self, least: nat) -> bool {
        self.filled_but(least, Set::empty())
    }
}

/// The leaves stay filled where each one has as many rows as it had before, or enough.
pub proof fn lemma_fill_kept(f: Forest, g: Forest, least: nat, skip: Set<i64>, after: Set<i64>)
    requires
        f.filled_but(least, skip),
        forall|n: i64| #[trigger]
            g.pages.contains_key(n) && n != 1 && !after.contains(n) && !g.inner(n)
                ==> g.pages[n].len() >= least || (f.pages.contains_key(n) && !skip.contains(n)
                && !f.inner(n) && g.pages[n].len() >= f.pages[n].len()),
    ensures
        g.filled_but(least, after),
{
    reveal(Forest::filled_but);
}

/// A leaf that holds enough rows need not be skipped, nor a node that is none, nor the root.
pub proof fn lemma_fill_settled(f: Forest, least: nat, n: i64)
    requires
        f.filled_but(least, Set::empty().insert(n)),
        f.pages.contains_key(n) && n != 1 && !f.inner(n) ==> f.pages[n].len() >= least,
    ensures
        f.filled(least),
{
    reveal(Forest::filled_but);
}

/// A leaf that is split below itself leaves the leaves filled, where both parts hold enough rows.
pub proof fn lemma_fill_of_split(
    split: LeafSplit,
    f: Forest,
    n_dim2: nat,
    count: i64,
    open: Open,
    least: nat,
)
    requires
        split.fits(f, n_dim2, count, open),
        f.filled(least),
        split.left.len() >= least,
        split.right.len() >= least,
    ensures
        split.made(f).filled(least),
{
    let g = split.made(f);
    split.lemma_kinds(f, n_dim2, count, open);
    assert forall|n: i64| #[trigger]
        g.pages.contains_key(n) && n != 1 && !g.inner(n) implies g.pages[n].len() >= least || (
    f.pages.contains_key(n) && !f.inner(n) && g.pages[n].len() >= f.pages[n].len()) by {
        if n != split.left_box.rowid && n != split.right_box.rowid {
            assert(f.pages.contains_key(n) && g.inner(n) == f.inner(n));
        }
    }
    lemma_fill_kept(f, g, least, Set::empty(), Set::empty());
}

} // verus!
