//! The traversal sequence handed out by the tree's traversal operations.

use vstd::prelude::*;

verus! {

/// A finite sequence of key-value pairs produced by one traversal of a
/// tree, consumed from the front.  Its view is the sequence of pairs still
/// to come.
pub struct TraverseIter<V> {
    data: Vec<(u64, V)>,
    at: usize,
}

impl<V> View for TraverseIter<V> {
    type V = Seq<(u64, V)>;

    closed spec fn view(&self) -> Seq<(u64, V)> {
        self.data@.skip(self.at as int)
    }
}

impl<V> TraverseIter<V> {
    /// The cursor never points past the stored sequence.
    pub closed spec fn inv(&self) -> bool {
        self.at <= self.data@.len()
    }

    /// Wraps a materialised traversal, to be consumed front first.
    pub fn new(queue: Vec<(u64, V)>) -> (it: Self)
        ensures
            it@ == queue@,
            it.inv(),
    {
        let it = TraverseIter { data: queue, at: 0 };
        proof {
            assert(it.data@.skip(0) =~= it.data@);
        }
        it
    }
}

impl<V: Copy> TraverseIter<V> {
    /// Hands out the next pair of the traversal, or `None` once every pair
    /// has been handed out.
    pub fn next(&mut self) -> (r: Option<(u64, V)>)
        requires
            old(self).inv(),
        ensures
            final(self).inv(),
            match r {
                None => old(self)@.len() == 0 && final(self)@ == old(self)@,
                Some(p) => old(self)@.len() > 0 && p == old(self)@[0]
                    && final(self)@ == old(self)@.drop_first(),
            },
    {
        if self.at < self.data.len() {
            let p = self.data[self.at];
            self.at = self.at + 1;
            proof {
                assert(self@ =~= old(self)@.drop_first());
            }
            Some(p)
        } else {
            None
        }
    }
}

} // verus!
