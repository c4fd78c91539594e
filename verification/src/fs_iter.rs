//! The tree walker's traversal state: an explicit LIFO stack of paths,
//! seeded with one root and fed with each non-empty directory's children,
//! so that deep trees never consume program stack.

use vstd::prelude::*;

verus! {

/// The traversal stack of one root's walk: the paths still to visit, the
/// last pushed visited first.
pub struct FSIterator {
    pub stack: Vec<Vec<u8>>,
}

impl FSIterator {
    /// Seeds a traversal with a single root path.
    pub fn new(root: Vec<u8>) -> (it: FSIterator)
        ensures
            it.stack.deep_view() == seq![root@],
    {
        let mut stack: Vec<Vec<u8>> = Vec::new();
        stack.push(root);
        proof {
            assert(stack.deep_view() =~~= seq![root@]);
        }
        FSIterator { stack }
    }

    /// Takes the next path to visit, or nothing when the walk is done.
    pub fn next(&mut self) -> (r: Option<Vec<u8>>)
        ensures
            old(self).stack@.len() == 0 ==> r is None && final(self).stack@ == old(self).stack@,
            old(self).stack@.len() > 0 ==> (r matches Some(p) && p@ == old(
                self,
            ).stack.deep_view().last() && final(self).stack.deep_view() == old(
                self,
            ).stack.deep_view().drop_last()),
    {
        let r = self.stack.pop();
        proof {
            if old(self).stack@.len() > 0 {
                assert(self.stack.deep_view() =~~= old(self).stack.deep_view().drop_last());
            }
        }
        r
    }

    /// Queues a directory's children; they will all be visited before
    /// anything already on the stack.
    pub fn next_level(&mut self, children: Vec<Vec<u8>>)
        ensures
            final(self).stack.deep_view() == old(self).stack.deep_view() + children.deep_view(),
    {
        let mut children = children;
        let ghost children0 = children.deep_view();
        self.stack.append(&mut children);
        proof {
            assert(self.stack.deep_view() =~~= old(self).stack.deep_view() + children0);
        }
    }
}

} // verus!
