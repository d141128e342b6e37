//! Walking the weights at and below a path.
use vstd::prelude::*;
use vstd::slice::{slice_subrange, slice_to_vec};

use crate::path_table::{in_path_order, listing, PathTable};
use crate::paths::{is_prefix, leads_to, path_before};
use crate::weight::Weight;

verus! {

/// Whether an entry lies strictly below `root`.
pub open spec fn lies_below<V>(root: Seq<u8>) -> spec_fn((Seq<u8>, V)) -> bool {
    |entry: (Seq<u8>, V)| leads_to(root, entry.0) && entry.0 != root
}

/// The entries of a map strictly below `root`, in path order.
pub open spec fn below<V>(map: Map<Seq<u8>, V>, root: Seq<u8>) -> Seq<(Seq<u8>, V)> {
    listing(map).filter(lies_below(root))
}

/// Below the empty path lies every entry of an ordered list but one at the empty path, which
/// comes first.
pub proof fn lemma_below_everything<V>(entries: Seq<(Seq<u8>, V)>)
    requires
        in_path_order(entries),
    ensures
        entries.filter(lies_below(Seq::empty())) == if entries.len() > 0 && entries[0].0.len() == 0 {
            entries.skip(1)
        } else {
            entries
        },
    decreases entries.len(),
{
    reveal(Seq::filter);
    if entries.len() > 0 {
        let init = entries.drop_last();
        let last = entries.last();
        lemma_below_everything(init);
        assert(last.0.take(0) =~= Seq::<u8>::empty());
        if last.0.len() == 0 {
            assert(last.0 =~= Seq::<u8>::empty());
            if entries.len() > 1 {
                assert(path_before(entries[0].0, entries[entries.len() - 1].0));
            }
            assert(entries.skip(1) =~= init);
        } else {
            assert(lies_below(Seq::empty())(last));
            assert(init.push(last) =~= entries);
            if entries[0].0.len() == 0 {
                assert(init.skip(1).push(last) =~= entries.skip(1));
            }
        }
    } else {
        assert(entries.filter(lies_below(Seq::empty())) =~= entries);
    }
}

/// A cursor over the weights at and below a path, which starts at that path.
pub struct WeightedReadZipper<'r> {
    table: &'r PathTable<Weight>,
    root: Vec<u8>,
    next: usize,
    focus: Option<usize>,
}

impl<'r> WeightedReadZipper<'r> {
    /// The weights that the cursor walks through.
    pub closed spec fn weights(self) -> Map<Seq<u8>, Weight> {
        self.table@
    }

    /// The path that the cursor started at.
    pub closed spec fn root(self) -> Seq<u8> {
        self.root@
    }

    closed spec fn passed(self) -> Seq<(Seq<u8>, Weight)> {
        listing(self.table@).take(self.next as int).filter(lies_below(self.root@))
    }

    /// How many weights below its root the cursor has come to.
    pub closed spec fn steps(self) -> nat {
        self.passed().len()
    }

    pub closed spec fn wf(self) -> bool {
        &&& self.table.wf()
        &&& self.next <= listing(self.table@).len()
        &&& match self.focus {
            None => self.next == 0,
            Some(i) => i < self.next && self.passed().len() > 0 && self.passed().last() == listing(
                self.table@,
            )[i as int],
        }
    }

    /// A cursor at `root`.
    pub fn new(table: &'r PathTable<Weight>, root: &[u8]) -> (zipper: Self)
        requires
            table.wf(),
        ensures
            zipper.wf(),
            zipper.weights() == table@,
            zipper.root() == root@,
            zipper.steps() == 0,
    {
        let zipper = WeightedReadZipper { table, root: slice_to_vec(root), next: 0, focus: None };
        proof {
            zipper.lemma_start();
        }
        zipper
    }

    proof fn lemma_start(self)
        requires
            self.next == 0,
        ensures
            self.passed().len() == 0,
    {
        reveal(Seq::filter);
        assert(listing(self.table@).take(0).len() == 0);
    }

    proof fn lemma_passed(self)
        requires
            self.next <= listing(self.table@).len(),
        ensures
            self.passed().len() <= below(self.weights(), self.root()).len(),
            forall|j: int|
                0 <= j < self.passed().len() ==> self.passed()[j] == below(
                    self.weights(),
                    self.root(),
                )[j],
            self.next == listing(self.table@).len() ==> self.passed() == below(
                self.weights(),
                self.root(),
            ),
    {
        let rows = listing(self.table@);
        let n = self.next as int;
        assert(rows =~= rows.take(n) + rows.skip(n));
        Seq::filter_distributes_over_add(rows.take(n), rows.skip(n), lies_below(self.root@));
        if self.next == rows.len() {
            assert(rows.take(n) =~= rows);
        }
    }

    /// The weight that the cursor stands at.
    pub fn val(&self) -> (weight: Option<Weight>)
        requires
            self.wf(),
        ensures
            self.steps() <= below(self.weights(), self.root()).len(),
            weight == if self.steps() > 0 {
                Some(below(self.weights(), self.root())[self.steps() - 1].1)
            } else if self.weights().contains_key(self.root()) {
                Some(self.weights()[self.root()])
            } else {
                None
            },
    {
        proof {
            self.lemma_passed();
            if self.focus is None {
                self.lemma_start();
            }
        }
        match self.focus {
            Some(i) => Some(self.table.value_at(i)),
            None => self.table.get(self.root.as_slice()),
        }
    }

    /// The whole path that the cursor stands at.
    pub open spec fn focus(self) -> Seq<u8> {
        if self.steps() > 0 {
            below(self.weights(), self.root())[self.steps() - 1].0
        } else {
            self.root()
        }
    }

    /// The path from the root of the cursor to where it stands.
    pub fn path(&self) -> (path: &[u8])
        requires
            self.wf(),
        ensures
            self.steps() <= below(self.weights(), self.root()).len(),
            self.root() + path@ == self.focus(),
            path@ == self.focus().skip(self.root().len() as int),
    {
        let whole: &[u8] = self.origin_path();
        proof {
            self.lemma_focus();
        }
        slice_subrange(whole, self.root.len(), whole.len())
    }

    /// The cursor stands at its root or below it.
    proof fn lemma_focus(self)
        requires
            self.steps() <= below(self.weights(), self.root()).len(),
        ensures
            leads_to(self.root(), self.focus()),
            self.root() + self.focus().skip(self.root().len() as int) == self.focus(),
            self.focus().skip(self.root().len() as int) == self.focus().subrange(
                self.root().len() as int,
                self.focus().len() as int,
            ),
    {
        let root = self.root();
        let focus = self.focus();
        if self.steps() > 0 {
            listing(self.weights()).lemma_filter_pred(lies_below(root), self.steps() - 1);
        } else {
            assert(root.take(root.len() as int) =~= root);
        }
        assert(focus =~= focus.take(root.len() as int) + focus.skip(root.len() as int));
    }

    /// The whole path that the cursor stands at.
    pub fn origin_path(&self) -> (path: &[u8])
        requires
            self.wf(),
        ensures
            self.steps() <= below(self.weights(), self.root()).len(),
            path@ == self.focus(),
            path@ == if self.steps() > 0 {
                below(self.weights(), self.root())[self.steps() - 1].0
            } else {
                self.root()
            },
    {
        proof {
            self.lemma_passed();
            if self.focus is None {
                self.lemma_start();
            }
        }
        match self.focus {
            Some(i) => self.table.path_at(i),
            None => self.root.as_slice(),
        }
    }

    /// Goes on to the next weight below the root, or back to the root where there is none.
    pub fn to_next_val(&mut self) -> (moved: bool)
        requires
            old(self).wf(),
        ensures
            final(self).wf(),
            final(self).weights() == old(self).weights(),
            final(self).root() == old(self).root(),
            moved == (old(self).steps() < below(old(self).weights(), old(self).root()).len()),
            final(self).steps() == if moved {
                old(self).steps() + 1
            } else {
                0
            },
    {
        let n: usize = self.table.len();
        let ghost rows = listing(self.table@);
        let ghost root = self.root@;
        while self.next < n
            invariant
                self.table.wf(),
                n == rows.len(),
                self.next <= n,
                rows == listing(self.table@),
                root == self.root@,
                self.passed() == old(self).passed(),
                self.weights() == old(self).weights(),
                self.root() == old(self).root(),
            decreases n - self.next,
        {
            let i: usize = self.next;
            let at: &[u8] = self.table.path_at(i);
            let inside: bool = is_prefix(self.root.as_slice(), at) && at.len() > self.root.len();
            proof {
                reveal(Seq::filter);
                assert(rows.take(i + 1).drop_last() =~= rows.take(i as int));
                assert(rows.take(i + 1).last() == rows[i as int]);
                if leads_to(root, at@) && at@.len() == root.len() {
                    assert(at@.take(root.len() as int) =~= at@);
                }
                assert(inside == lies_below(root)(rows[i as int]));
            }
            self.next = i + 1;
            if inside {
                self.focus = Some(i);
                proof {
                    self.lemma_passed();
                }
                return true;
            }
        }
        proof {
            self.lemma_passed();
        }
        self.next = 0;
        self.focus = None;
        proof {
            self.lemma_start();
        }
        false
    }
}

}
