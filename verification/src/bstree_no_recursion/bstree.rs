//! The iterative engine: every operation walks the tree with a loop and an
//! explicit stack or queue.

use vstd::prelude::*;
use crate::model::Tree;
use crate::bstree_no_recursion::node::{link_view, Link, Node, PathFrame};
use crate::bstree_no_recursion::node::{attach, rebuild};
use crate::bstree_no_recursion::node::views_of;
use crate::model::entry_keys;
use crate::model::children_of;
use crate::model::forest_size;
use crate::model::level_seq;
use crate::model::lemma_entry_keys_single;
use crate::model::lemma_lookup_entries;
use crate::model::lemma_preorder_entries;
use crate::model::lemma_inorder_entries;
use crate::model::lemma_postorder_entries;
use crate::model::lemma_levelorder_entries;
use crate::iterator::TraverseIter;

verus! {

broadcast use crate::model::lemma_entry_keys_concat;

/// What one work item contributes to a root-left-right traversal: an
/// emit item yields its node's entry, a visit item the whole subtree's
/// listing.
spec fn item_pre<V>(it: (bool, &Node<V>)) -> Seq<(u64, V)> {
    if it.0 {
        seq![(it.1.key, it.1.value)]
    } else {
        it.1.as_tree().preorder()
    }
}

/// The pairs still to be produced by a work stack, top of stack first.
spec fn pending_pre<V>(st: Seq<(bool, &Node<V>)>) -> Seq<(u64, V)>
    decreases st.len(),
{
    if st.len() == 0 {
        Seq::empty()
    } else {
        item_pre(st.last()) + pending_pre(st.drop_last())
    }
}

proof fn lemma_pending_pre_push<V>(st: Seq<(bool, &Node<V>)>, it: (bool, &Node<V>))
    ensures
        pending_pre(st.push(it)) == item_pre(it) + pending_pre(st),
{
    assert(st.push(it).drop_last() =~= st);
    assert(st.push(it).last() == it);
}

/// What one work item contributes to a left-root-right traversal: an
/// emit item yields its node's entry, a visit item the whole subtree's
/// listing.
spec fn item_ino<V>(it: (bool, &Node<V>)) -> Seq<(u64, V)> {
    if it.0 {
        seq![(it.1.key, it.1.value)]
    } else {
        it.1.as_tree().inorder()
    }
}

/// The pairs still to be produced by a work stack, top of stack first.
spec fn pending_ino<V>(st: Seq<(bool, &Node<V>)>) -> Seq<(u64, V)>
    decreases st.len(),
{
    if st.len() == 0 {
        Seq::empty()
    } else {
        item_ino(st.last()) + pending_ino(st.drop_last())
    }
}

proof fn lemma_pending_ino_push<V>(st: Seq<(bool, &Node<V>)>, it: (bool, &Node<V>))
    ensures
        pending_ino(st.push(it)) == item_ino(it) + pending_ino(st),
{
    assert(st.push(it).drop_last() =~= st);
    assert(st.push(it).last() == it);
}

/// What one work item contributes to a left-right-root traversal: an
/// emit item yields its node's entry, a visit item the whole subtree's
/// listing.
spec fn item_post<V>(it: (bool, &Node<V>)) -> Seq<(u64, V)> {
    if it.0 {
        seq![(it.1.key, it.1.value)]
    } else {
        it.1.as_tree().postorder()
    }
}

/// The pairs still to be produced by a work stack, top of stack first.
spec fn pending_post<V>(st: Seq<(bool, &Node<V>)>) -> Seq<(u64, V)>
    decreases st.len(),
{
    if st.len() == 0 {
        Seq::empty()
    } else {
        item_post(st.last()) + pending_post(st.drop_last())
    }
}

proof fn lemma_pending_post_push<V>(st: Seq<(bool, &Node<V>)>, it: (bool, &Node<V>))
    ensures
        pending_post(st.push(it)) == item_post(it) + pending_post(st),
{
    assert(st.push(it).drop_last() =~= st);
    assert(st.push(it).last() == it);
}

/// A termination measure for the traversal work stacks: a visit item
/// weighs three times the size of its subtree plus one, an emit item
/// weighs one.
spec fn stack_measure<V>(st: Seq<(bool, &Node<V>)>) -> nat
    decreases st.len(),
{
    if st.len() == 0 {
        0
    } else {
        (if st.last().0 {
            1nat
        } else {
            3 * st.last().1.as_tree().size() + 1
        }) + stack_measure(st.drop_last())
    }
}

proof fn lemma_stack_measure_push<V>(st: Seq<(bool, &Node<V>)>, it: (bool, &Node<V>))
    ensures
        stack_measure(st.push(it)) == (if it.0 {
            1nat
        } else {
            3 * it.1.as_tree().size() + 1
        }) + stack_measure(st),
{
    assert(st.push(it).drop_last() =~= st);
    assert(st.push(it).last() == it);
}

pub struct BSTree<V> {
    root: Link<V>,
}

impl<V> View for BSTree<V> {
    type V = Tree<V>;

    closed spec fn view(&self) -> Tree<V> {
        link_view(self.root)
    }
}

impl<V> Default for BSTree<V> {
    /// An empty tree.
    fn default() -> (tree: Self)
        ensures
            tree@ == Tree::<V>::Nil,
            tree.inv(),
    {
        BSTree { root: None }
    }
}

impl<V> BSTree<V> {
    /// The search-tree ordering invariant; established by `new` and kept by
    /// every operation.
    pub open spec fn inv(&self) -> bool {
        self@.wf()
    }

    /// Builds an empty tree.
    pub fn new() -> (tree: Self)
        ensures
            tree@ == Tree::<V>::Nil,
            tree.inv(),
    {
        BSTree { root: None }
    }

    /// Whether the tree holds no entry.
    pub fn is_empty(&self) -> (b: bool)
        ensures
            b == (self@ is Nil),
    {
        proof {
            if self.root is Some {
                assert(self@ is Node);
            }
        }
        self.root.is_none()
    }

    /// Inserts `(key, value)`, overwriting the value of an equal key; the
    /// search path is kept on an explicit stack and reattached afterwards.
    pub fn insert(&mut self, key: u64, value: V)
        requires
            old(self).inv(),
        ensures
            final(self).inv(),
            final(self)@ == old(self)@.put(key, value),
    {
        proof {
            crate::model::lemma_put(old(self)@, key, value);
        }
        let ghost t0 = old(self)@;
        let mut path: Vec<PathFrame<V>> = Vec::new();
        let mut cur: Link<V> = self.root.take();
        loop
            invariant_except_break
                rebuild(path@, link_view(cur).put(key, value)) == t0.put(key, value),
            ensures
                rebuild(path@, link_view(cur)) == t0.put(key, value),
            decreases link_view(cur).size(),
        {
            match cur {
                None => {
                    cur = Some(Box::new(Node::new(key, value)));
                    break;
                }
                Some(b) => {
                    let ghost sub = link_view(Some(b));
                    let ghost p0 = path@;
                    let Node { key: nk, value: nv, left, right } = *b;
                    if key < nk {
                        let f = PathFrame { key: nk, value: nv, went_left: true, other: right };
                        proof {
                            assert(sub.put(key, value) == attach(f, link_view(left).put(key, value)));
                        }
                        path.push(f);
                        cur = left;
                        proof {
                            assert(path@.last() == f);
                            assert(path@.drop_last() =~= p0);
                        }
                    } else if key > nk {
                        let f = PathFrame { key: nk, value: nv, went_left: false, other: left };
                        proof {
                            assert(sub.put(key, value) == attach(f, link_view(right).put(key, value)));
                        }
                        path.push(f);
                        cur = right;
                        proof {
                            assert(path@.last() == f);
                            assert(path@.drop_last() =~= p0);
                        }
                    } else {
                        proof {
                            assert(sub.put(key, value) == (Tree::Node {
                                key: nk,
                                value,
                                left: Box::new(link_view(left)),
                                right: Box::new(link_view(right)),
                            }));
                        }
                        cur = Some(Box::new(Node { key: nk, value, left, right }));
                        break;
                    }
                }
            }
        }
        self.root = Node::reassemble(path, cur);
    }

    /// Deletes the entry at `key`, keeping the descendants of the deleted
    /// node; absent keys are ignored.  The search path is kept on an
    /// explicit stack and reattached afterwards.
    pub fn delete(&mut self, key: u64)
        requires
            old(self).inv(),
        ensures
            final(self).inv(),
            final(self)@ == old(self)@.del(key),
    {
        proof {
            crate::model::lemma_del(old(self)@, key);
        }
        let ghost t0 = old(self)@;
        let mut path: Vec<PathFrame<V>> = Vec::new();
        let mut cur: Link<V> = self.root.take();
        loop
            invariant_except_break
                rebuild(path@, link_view(cur).del(key)) == t0.del(key),
            ensures
                rebuild(path@, link_view(cur)) == t0.del(key),
            decreases link_view(cur).size(),
        {
            match cur {
                None => {
                    proof {
                        assert(link_view(None::<Box<Node<V>>>).del(key) == Tree::<V>::Nil);
                    }
                    cur = None;
                    break;
                }
                Some(b) => {
                    let ghost sub = link_view(Some(b));
                    let ghost p0 = path@;
                    let Node { key: nk, value: nv, left, right } = *b;
                    if key < nk {
                        let f = PathFrame { key: nk, value: nv, went_left: true, other: right };
                        proof {
                            assert(sub.del(key) == attach(f, link_view(left).del(key)));
                        }
                        path.push(f);
                        cur = left;
                        proof {
                            assert(path@.last() == f);
                            assert(path@.drop_last() =~= p0);
                        }
                    } else if key > nk {
                        let f = PathFrame { key: nk, value: nv, went_left: false, other: left };
                        proof {
                            assert(sub.del(key) == attach(f, link_view(right).del(key)));
                        }
                        path.push(f);
                        cur = right;
                        proof {
                            assert(path@.last() == f);
                            assert(path@.drop_last() =~= p0);
                        }
                    } else {
                        let node = Node { key: nk, value: nv, left, right };
                        proof {
                            assert(sub.del(key) == Tree::join(
                                link_view(node.left),
                                link_view(node.right),
                            ));
                        }
                        cur = node.delete_root();
                        break;
                    }
                }
            }
        }
        self.root = Node::reassemble(path, cur);
    }

    /// Discards the whole branch rooted at `key`, descendants included;
    /// absent keys are ignored.
    pub fn delete_tree(&mut self, key: u64)
        requires
            old(self).inv(),
        ensures
            final(self).inv(),
            final(self)@ == old(self)@.pruned(key),
    {
        proof {
            crate::model::lemma_excision_partition(old(self)@, key);
        }
        let ghost t0 = old(self)@;
        let mut path: Vec<PathFrame<V>> = Vec::new();
        let mut cur: Link<V> = self.root.take();
        loop
            invariant_except_break
                rebuild(path@, link_view(cur).pruned(key)) == t0.pruned(key),
            ensures
                rebuild(path@, link_view(cur)) == t0.pruned(key),
            decreases link_view(cur).size(),
        {
            match cur {
                None => {
                    proof {
                        assert(link_view(None::<Box<Node<V>>>).pruned(key) == Tree::<V>::Nil);
                    }
                    cur = None;
                    break;
                }
                Some(b) => {
                    let ghost sub = link_view(Some(b));
                    let ghost p0 = path@;
                    let Node { key: nk, value: nv, left, right } = *b;
                    if key < nk {
                        let f = PathFrame { key: nk, value: nv, went_left: true, other: right };
                        proof {
                            assert(sub.pruned(key) == attach(f, link_view(left).pruned(key)));
                        }
                        path.push(f);
                        cur = left;
                        proof {
                            assert(path@.last() == f);
                            assert(path@.drop_last() =~= p0);
                        }
                    } else if key > nk {
                        let f = PathFrame { key: nk, value: nv, went_left: false, other: left };
                        proof {
                            assert(sub.pruned(key) == attach(f, link_view(right).pruned(key)));
                        }
                        path.push(f);
                        cur = right;
                        proof {
                            assert(path@.last() == f);
                            assert(path@.drop_last() =~= p0);
                        }
                    } else {
                        proof {
                            assert(sub.pruned(key) == Tree::<V>::Nil);
                        }
                        cur = None;
                        break;
                    }
                }
            }
        }
        self.root = Node::reassemble(path, cur);
    }

    /// Detaches the whole branch rooted at `key` and hands it back as an
    /// independent tree; an absent key yields an empty tree.
    pub fn remove_tree(&mut self, key: u64) -> (rm: Self)
        requires
            old(self).inv(),
        ensures
            final(self).inv(),
            rm.inv(),
            final(self)@ == old(self)@.pruned(key),
            rm@ == old(self)@.branch(key),
    {
        proof {
            crate::model::lemma_excision_partition(old(self)@, key);
        }
        let ghost t0 = old(self)@;
        let mut path: Vec<PathFrame<V>> = Vec::new();
        let mut cur: Link<V> = self.root.take();
        let mut rm: Link<V> = None;
        loop
            invariant_except_break
                rebuild(path@, link_view(cur).pruned(key)) == t0.pruned(key),
                link_view(cur).branch(key) == t0.branch(key),
                rm is None,
            ensures
                rebuild(path@, link_view(cur)) == t0.pruned(key),
                link_view(rm) == t0.branch(key),
            decreases link_view(cur).size(),
        {
            match cur {
                None => {
                    proof {
                        assert(link_view(None::<Box<Node<V>>>).pruned(key) == Tree::<V>::Nil);
                        assert(link_view(None::<Box<Node<V>>>).branch(key) == Tree::<V>::Nil);
                    }
                    cur = None;
                    break;
                }
                Some(b) => {
                    let ghost sub = link_view(Some(b));
                    let ghost p0 = path@;
                    let Node { key: nk, value: nv, left, right } = *b;
                    if key < nk {
                        let f = PathFrame { key: nk, value: nv, went_left: true, other: right };
                        proof {
                            assert(sub.pruned(key) == attach(f, link_view(left).pruned(key)));
                            assert(sub.branch(key) == link_view(left).branch(key));
                        }
                        path.push(f);
                        cur = left;
                        proof {
                            assert(path@.last() == f);
                            assert(path@.drop_last() =~= p0);
                        }
                    } else if key > nk {
                        let f = PathFrame { key: nk, value: nv, went_left: false, other: left };
                        proof {
                            assert(sub.pruned(key) == attach(f, link_view(right).pruned(key)));
                            assert(sub.branch(key) == link_view(right).branch(key));
                        }
                        path.push(f);
                        cur = right;
                        proof {
                            assert(path@.last() == f);
                            assert(path@.drop_last() =~= p0);
                        }
                    } else {
                        proof {
                            assert(sub.pruned(key) == Tree::<V>::Nil);
                            assert(sub.branch(key) == sub);
                        }
                        rm = Some(Box::new(Node { key: nk, value: nv, left, right }));
                        cur = None;
                        break;
                    }
                }
            }
        }
        self.root = Node::reassemble(path, cur);
        BSTree { root: rm }
    }

    /// The pair stored at `key`, if any; its key equals the searched key.
    pub fn get_pair(&self, key: &u64) -> (r: Option<(u64, &V)>)
        ensures
            match r {
                None => self@.lookup(*key) is None,
                Some(p) => p.0 == *key && self@.lookup(*key) == Some(*p.1),
            },
    {
        let mut cur: &Link<V> = &self.root;
        loop
            invariant
                link_view(*cur).lookup(*key) == self@.lookup(*key),
            decreases link_view(*cur).size(),
        {
            match cur {
                None => {
                    return None;
                }
                Some(n) => {
                    if *key < n.key {
                        proof {
                            assert(link_view(*cur).lookup(*key) == link_view(n.left).lookup(*key));
                        }
                        cur = &n.left;
                    } else if *key > n.key {
                        proof {
                            assert(link_view(*cur).lookup(*key) == link_view(n.right).lookup(*key));
                        }
                        cur = &n.right;
                    } else {
                        return Some((n.key, &n.value));
                    }
                }
            }
        }
    }

    /// The value stored at `key`, if any.
    pub fn get(&self, key: &u64) -> (r: Option<&V>)
        ensures
            match r {
                None => self@.lookup(*key) is None,
                Some(v) => self@.lookup(*key) == Some(*v),
            },
    {
        match self.get_pair(key) {
            None => None,
            Some(p) => Some(p.1),
        }
    }

    /// The value stored at `key`, or `default` when `key` is absent.
    pub fn get_or<'a>(&'a self, key: &u64, default: &'a V) -> (r: &'a V)
        ensures
            match self@.lookup(*key) {
                Some(v) => *r == v,
                None => *r == *default,
            },
    {
        match self.get(key) {
            Some(v) => v,
            None => default,
        }
    }

    /// Whether an entry is stored at `key`.
    pub fn contains(&self, key: &u64) -> (b: bool)
        ensures
            b == (self@.lookup(*key) is Some),
    {
        self.get(key).is_some()
    }

    /// The pair with the greatest key; `None` exactly on the empty tree.
    pub fn max_pair(&self) -> (r: Option<(u64, &V)>)
        ensures
            (r is None) == (self@ is Nil),
            match r {
                None => true,
                Some(p) => p.0 == self@.max_entry().0 && *p.1 == self@.max_entry().1,
            },
    {
        let mut cur: &Link<V> = &self.root;
        loop
            invariant
                (link_view(*cur) is Nil) == (self@ is Nil),
                !(self@ is Nil) ==> link_view(*cur).max_entry() == self@.max_entry(),
            decreases link_view(*cur).size(),
        {
            match cur {
                None => {
                    return None;
                }
                Some(n) => {
                    match &n.right {
                        None => {
                            proof {
                                assert(link_view(n.right) is Nil);
                                assert(link_view(*cur).max_entry() == ((n.key, n.value)));
                            }
                            return Some((n.key, &n.value));
                        }
                        Some(_) => {
                            proof {
                                assert(!(link_view(n.right) is Nil));
                                assert(link_view(*cur).max_entry() == link_view(n.right).max_entry());
                            }
                            cur = &n.right;
                        }
                    }
                }
            }
        }
    }

    /// The pair with the least key; `None` exactly on the empty tree.
    pub fn min_pair(&self) -> (r: Option<(u64, &V)>)
        ensures
            (r is None) == (self@ is Nil),
            match r {
                None => true,
                Some(p) => p.0 == self@.min_entry().0 && *p.1 == self@.min_entry().1,
            },
    {
        let mut cur: &Link<V> = &self.root;
        loop
            invariant
                (link_view(*cur) is Nil) == (self@ is Nil),
                !(self@ is Nil) ==> link_view(*cur).min_entry() == self@.min_entry(),
            decreases link_view(*cur).size(),
        {
            match cur {
                None => {
                    return None;
                }
                Some(n) => {
                    match &n.left {
                        None => {
                            proof {
                                assert(link_view(n.left) is Nil);
                                assert(link_view(*cur).min_entry() == ((n.key, n.value)));
                            }
                            return Some((n.key, &n.value));
                        }
                        Some(_) => {
                            proof {
                                assert(!(link_view(n.left) is Nil));
                                assert(link_view(*cur).min_entry() == link_view(n.left).min_entry());
                            }
                            cur = &n.left;
                        }
                    }
                }
            }
        }
    }

    /// The pair with the least key strictly above `key`, whether or not
    /// `key` itself is present; found in one descent, remembering the last
    /// node whose key lay above `key`.
    pub fn successor(&self, key: &u64) -> (r: Option<(u64, &V)>)
        requires
            self.inv(),
        ensures
            r is None ==> forall|k2: u64| #[trigger] self@.contains_key(k2) ==> k2 <= *key,
            match r {
                None => true,
                Some(p) => p.0 > *key && self@.has_entry(p.0, *p.1)
                    && forall|k2: u64| #[trigger] self@.contains_key(k2) && k2 > *key ==> p.0 <= k2,
            },
    {
        broadcast use crate::model::lemma_has_entry_contains;

        let mut cur: &Link<V> = &self.root;
        let mut best: Option<(u64, &V)> = None;
        loop
            invariant
                self.inv(),
                link_view(*cur).wf(),
                forall|k2: u64, v2: V| #[trigger] link_view(*cur).has_entry(k2, v2)
                    ==> self@.has_entry(k2, v2),
                forall|k2: u64| #[trigger] self@.contains_key(k2) && k2 > *key
                    ==> (link_view(*cur).contains_key(k2) || (best matches Some(p) && p.0 <= k2)),
                match best {
                    None => true,
                    Some(p) => p.0 > *key && self@.has_entry(p.0, *p.1)
                        && forall|k2: u64| #[trigger] link_view(*cur).contains_key(k2) ==> k2 < p.0,
                },
            decreases link_view(*cur).size(),
        {
            match cur {
                None => {
                    proof {
                        match best {
                            None => {
                                assert forall|k2: u64| #[trigger] self@.contains_key(k2)
                                    implies k2 <= *key by {
                                    assert(!link_view(*cur).contains_key(k2));
                                }
                            }
                            Some(p) => {
                                assert forall|k2: u64|
                                    #[trigger] self@.contains_key(k2) && k2 > *key
                                    implies p.0 <= k2 by {
                                    assert(!link_view(*cur).contains_key(k2));
                                }
                            }
                        }
                    }
                    return best;
                }
                Some(n) => {
                    let ghost sub = link_view(*cur);
                    proof {
                        assert(sub == (Tree::Node {
                            key: n.key,
                            value: n.value,
                            left: Box::new(link_view(n.left)),
                            right: Box::new(link_view(n.right)),
                        }));
                    }
                    if n.key > *key {
                        proof {
                            assert(link_view(n.left).wf());
                            assert(sub.has_entry(n.key, n.value));
                            assert(self@.has_entry(n.key, n.value));
                            assert forall|k2: u64, v2: V|
                                #[trigger] link_view(n.left).has_entry(k2, v2)
                                implies self@.has_entry(k2, v2) by {
                                assert(sub.has_entry(k2, v2));
                            }
                            match best {
                                None => {}
                                Some(q) => {
                                    assert(sub.contains_key(n.key));
                                    assert(n.key < q.0);
                                }
                            }
                            assert forall|k2: u64| #[trigger] self@.contains_key(k2) && k2 > *key
                                implies (link_view(n.left).contains_key(k2) || n.key <= k2) by {
                                if sub.contains_key(k2) {
                                    if link_view(n.right).contains_key(k2) {
                                        assert(k2 > n.key);
                                    }
                                } else {
                                    match best {
                                        None => {}
                                        Some(q) => {
                                            assert(q.0 <= k2);
                                        }
                                    }
                                }
                            }
                            assert forall|k2: u64| #[trigger] link_view(n.left).contains_key(k2)
                                implies k2 < n.key by {}
                        }
                        best = Some((n.key, &n.value));
                        cur = &n.left;
                    } else {
                        proof {
                            assert(link_view(n.right).wf());
                            assert forall|k2: u64, v2: V|
                                #[trigger] link_view(n.right).has_entry(k2, v2)
                                implies self@.has_entry(k2, v2) by {
                                assert(sub.has_entry(k2, v2));
                            }
                            assert forall|k2: u64| #[trigger] self@.contains_key(k2) && k2 > *key
                                implies (link_view(n.right).contains_key(k2) || (
                                best matches Some(p) && p.0 <= k2)) by {
                                if sub.contains_key(k2) {
                                    if link_view(n.left).contains_key(k2) {
                                        assert(k2 < n.key);
                                    }
                                }
                            }
                            match best {
                                None => {}
                                Some(q) => {
                                    assert forall|k2: u64|
                                        #[trigger] link_view(n.right).contains_key(k2)
                                        implies k2 < q.0 by {
                                        assert(sub.contains_key(k2));
                                    }
                                }
                            }
                        }
                        cur = &n.right;
                    }
                }
            }
        }
    }

    /// The pair with the greatest key strictly below `key`, whether or not
    /// `key` itself is present; found in one descent, remembering the last
    /// node whose key lay below `key`.
    pub fn predecessor(&self, key: &u64) -> (r: Option<(u64, &V)>)
        requires
            self.inv(),
        ensures
            r is None ==> forall|k2: u64| #[trigger] self@.contains_key(k2) ==> k2 >= *key,
            match r {
                None => true,
                Some(p) => p.0 < *key && self@.has_entry(p.0, *p.1)
                    && forall|k2: u64| #[trigger] self@.contains_key(k2) && k2 < *key ==> p.0 >= k2,
            },
    {
        broadcast use crate::model::lemma_has_entry_contains;

        let mut cur: &Link<V> = &self.root;
        let mut best: Option<(u64, &V)> = None;
        loop
            invariant
                self.inv(),
                link_view(*cur).wf(),
                forall|k2: u64, v2: V| #[trigger] link_view(*cur).has_entry(k2, v2)
                    ==> self@.has_entry(k2, v2),
                forall|k2: u64| #[trigger] self@.contains_key(k2) && k2 < *key
                    ==> (link_view(*cur).contains_key(k2) || (best matches Some(p) && p.0 >= k2)),
                match best {
                    None => true,
                    Some(p) => p.0 < *key && self@.has_entry(p.0, *p.1)
                        && forall|k2: u64| #[trigger] link_view(*cur).contains_key(k2) ==> k2 > p.0,
                },
            decreases link_view(*cur).size(),
        {
            match cur {
                None => {
                    proof {
                        match best {
                            None => {
                                assert forall|k2: u64| #[trigger] self@.contains_key(k2)
                                    implies k2 >= *key by {
                                    assert(!link_view(*cur).contains_key(k2));
                                }
                            }
                            Some(p) => {
                                assert forall|k2: u64|
                                    #[trigger] self@.contains_key(k2) && k2 < *key
                                    implies p.0 >= k2 by {
                                    assert(!link_view(*cur).contains_key(k2));
                                }
                            }
                        }
                    }
                    return best;
                }
                Some(n) => {
                    let ghost sub = link_view(*cur);
                    proof {
                        assert(sub == (Tree::Node {
                            key: n.key,
                            value: n.value,
                            left: Box::new(link_view(n.left)),
                            right: Box::new(link_view(n.right)),
                        }));
                    }
                    if n.key < *key {
                        proof {
                            assert(link_view(n.right).wf());
                            assert(sub.has_entry(n.key, n.value));
                            assert(self@.has_entry(n.key, n.value));
                            assert forall|k2: u64, v2: V|
                                #[trigger] link_view(n.right).has_entry(k2, v2)
                                implies self@.has_entry(k2, v2) by {
                                assert(sub.has_entry(k2, v2));
                            }
                            match best {
                                None => {}
                                Some(q) => {
                                    assert(sub.contains_key(n.key));
                                    assert(n.key > q.0);
                                }
                            }
                            assert forall|k2: u64| #[trigger] self@.contains_key(k2) && k2 < *key
                                implies (link_view(n.right).contains_key(k2) || n.key >= k2) by {
                                if sub.contains_key(k2) {
                                    if link_view(n.left).contains_key(k2) {
                                        assert(k2 < n.key);
                                    }
                                } else {
                                    match best {
                                        None => {}
                                        Some(q) => {
                                            assert(q.0 >= k2);
                                        }
                                    }
                                }
                            }
                            assert forall|k2: u64| #[trigger] link_view(n.right).contains_key(k2)
                                implies k2 > n.key by {}
                        }
                        best = Some((n.key, &n.value));
                        cur = &n.right;
                    } else {
                        proof {
                            assert(link_view(n.left).wf());
                            assert forall|k2: u64, v2: V|
                                #[trigger] link_view(n.left).has_entry(k2, v2)
                                implies self@.has_entry(k2, v2) by {
                                assert(sub.has_entry(k2, v2));
                            }
                            assert forall|k2: u64| #[trigger] self@.contains_key(k2) && k2 < *key
                                implies (link_view(n.left).contains_key(k2) || (
                                best matches Some(p) && p.0 >= k2)) by {
                                if sub.contains_key(k2) {
                                    if link_view(n.right).contains_key(k2) {
                                        assert(k2 > n.key);
                                    }
                                }
                            }
                            match best {
                                None => {}
                                Some(q) => {
                                    assert forall|k2: u64|
                                        #[trigger] link_view(n.left).contains_key(k2)
                                        implies k2 > q.0 by {
                                        assert(sub.contains_key(k2));
                                    }
                                }
                            }
                        }
                        cur = &n.left;
                    }
                }
            }
        }
    }

    /// The keys in root-left-right order, collected with an explicit work stack in
    /// place of recursion.
    fn prev_order(&self) -> (r: Vec<u64>)
        ensures
            r@ == entry_keys(self@.preorder()),
    {
        let ghost target = entry_keys(self@.preorder());
        let mut res: Vec<u64> = Vec::new();
        let mut stack: Vec<(bool, &Node<V>)> = Vec::new();
        match &self.root {
            None => {
                proof {
                    assert(pending_pre(stack@) == Seq::<(u64, V)>::empty());
                    assert(res@ + entry_keys(pending_pre(stack@)) =~= target);
                }
            }
            Some(n) => {
                let ghost b0 = stack@;
                stack.push((false, &**n));
                proof {
                    lemma_pending_pre_push(b0, (false, &**n));
                    assert(pending_pre(b0) == Seq::<(u64, V)>::empty());
                    assert(link_view(self.root) == n.as_tree());
                    assert(res@ + entry_keys(pending_pre(stack@)) =~= target);
                }
            }
        }
        while stack.len() > 0
            invariant
                res@ + entry_keys(pending_pre(stack@)) == target,
            decreases stack_measure(stack@),
        {
            let ghost st0 = stack@;
            let it = stack.pop().unwrap();
            proof {
                assert(st0.last() == it);
                assert(stack@ =~= st0.drop_last());
                assert(pending_pre(st0) == item_pre(it) + pending_pre(stack@));
                assert(stack_measure(st0) == (if it.0 {
                    1nat
                } else {
                    3 * it.1.as_tree().size() + 1
                }) + stack_measure(stack@));
            }
            let (emit, n) = it;
            if emit {
                res.push(n.key);
                proof {
                    lemma_entry_keys_single(((n.key, n.value)));
                    assert(res@ + entry_keys(pending_pre(stack@)) =~= target);
                }
            } else {
                proof {
                    assert(n.as_tree().preorder() == seq![(n.key, n.value)] + link_view(n.left).preorder() + link_view(n.right).preorder());
                    assert(n.as_tree().size() == 1 + link_view(n.left).size() + link_view(
                        n.right,
                    ).size());
                }
                match &n.right {
                    Some(r2) => {
                        let ghost b1 = stack@;
                        stack.push((false, &**r2));
                        proof {
                            lemma_pending_pre_push(b1, (false, &**r2));
                            lemma_stack_measure_push(b1, (false, &**r2));
                            assert(link_view(n.right) == r2.as_tree());
                        }
                    }
                    None => {
                        proof {
                            assert(link_view(n.right).preorder() == Seq::<(u64, V)>::empty());
                        }
                    }
                }
                match &n.left {
                    Some(l2) => {
                        let ghost b1 = stack@;
                        stack.push((false, &**l2));
                        proof {
                            lemma_pending_pre_push(b1, (false, &**l2));
                            lemma_stack_measure_push(b1, (false, &**l2));
                            assert(link_view(n.left) == l2.as_tree());
                        }
                    }
                    None => {
                        proof {
                            assert(link_view(n.left).preorder() == Seq::<(u64, V)>::empty());
                        }
                    }
                }
                {
                    let ghost b2 = stack@;
                    stack.push((true, n));
                    proof {
                        lemma_pending_pre_push(b2, (true, n));
                        lemma_stack_measure_push(b2, (true, n));
                    }
                }
                proof {
                    assert(pending_pre(stack@) =~= n.as_tree().preorder() + pending_pre(
                        st0.drop_last(),
                    ));
                    assert(res@ + entry_keys(pending_pre(stack@)) =~= target);
                    assert(stack_measure(stack@) < stack_measure(st0));
                }
            }
        }
        proof {
            assert(pending_pre(stack@) == Seq::<(u64, V)>::empty());
            assert(res@ =~= target);
        }
        res
    }

    /// The keys in left-root-right order, collected with an explicit work stack in
    /// place of recursion.
    fn in_order(&self) -> (r: Vec<u64>)
        ensures
            r@ == entry_keys(self@.inorder()),
    {
        let ghost target = entry_keys(self@.inorder());
        let mut res: Vec<u64> = Vec::new();
        let mut stack: Vec<(bool, &Node<V>)> = Vec::new();
        match &self.root {
            None => {
                proof {
                    assert(pending_ino(stack@) == Seq::<(u64, V)>::empty());
                    assert(res@ + entry_keys(pending_ino(stack@)) =~= target);
                }
            }
            Some(n) => {
                let ghost b0 = stack@;
                stack.push((false, &**n));
                proof {
                    lemma_pending_ino_push(b0, (false, &**n));
                    assert(pending_ino(b0) == Seq::<(u64, V)>::empty());
                    assert(link_view(self.root) == n.as_tree());
                    assert(res@ + entry_keys(pending_ino(stack@)) =~= target);
                }
            }
        }
        while stack.len() > 0
            invariant
                res@ + entry_keys(pending_ino(stack@)) == target,
            decreases stack_measure(stack@),
        {
            let ghost st0 = stack@;
            let it = stack.pop().unwrap();
            proof {
                assert(st0.last() == it);
                assert(stack@ =~= st0.drop_last());
                assert(pending_ino(st0) == item_ino(it) + pending_ino(stack@));
                assert(stack_measure(st0) == (if it.0 {
                    1nat
                } else {
                    3 * it.1.as_tree().size() + 1
                }) + stack_measure(stack@));
            }
            let (emit, n) = it;
            if emit {
                res.push(n.key);
                proof {
                    lemma_entry_keys_single(((n.key, n.value)));
                    assert(res@ + entry_keys(pending_ino(stack@)) =~= target);
                }
            } else {
                proof {
                    assert(n.as_tree().inorder() == link_view(n.left).inorder() + seq![(n.key, n.value)] + link_view(n.right).inorder());
                    assert(n.as_tree().size() == 1 + link_view(n.left).size() + link_view(
                        n.right,
                    ).size());
                }
                match &n.right {
                    Some(r2) => {
                        let ghost b1 = stack@;
                        stack.push((false, &**r2));
                        proof {
                            lemma_pending_ino_push(b1, (false, &**r2));
                            lemma_stack_measure_push(b1, (false, &**r2));
                            assert(link_view(n.right) == r2.as_tree());
                        }
                    }
                    None => {
                        proof {
                            assert(link_view(n.right).inorder() == Seq::<(u64, V)>::empty());
                        }
                    }
                }
                {
                    let ghost b2 = stack@;
                    stack.push((true, n));
                    proof {
                        lemma_pending_ino_push(b2, (true, n));
                        lemma_stack_measure_push(b2, (true, n));
                    }
                }
                match &n.left {
                    Some(l2) => {
                        let ghost b1 = stack@;
                        stack.push((false, &**l2));
                        proof {
                            lemma_pending_ino_push(b1, (false, &**l2));
                            lemma_stack_measure_push(b1, (false, &**l2));
                            assert(link_view(n.left) == l2.as_tree());
                        }
                    }
                    None => {
                        proof {
                            assert(link_view(n.left).inorder() == Seq::<(u64, V)>::empty());
                        }
                    }
                }
                proof {
                    assert(pending_ino(stack@) =~= n.as_tree().inorder() + pending_ino(
                        st0.drop_last(),
                    ));
                    assert(res@ + entry_keys(pending_ino(stack@)) =~= target);
                    assert(stack_measure(stack@) < stack_measure(st0));
                }
            }
        }
        proof {
            assert(pending_ino(stack@) == Seq::<(u64, V)>::empty());
            assert(res@ =~= target);
        }
        res
    }

    /// The keys in left-right-root order, collected with an explicit work stack in
    /// place of recursion.
    fn post_order(&self) -> (r: Vec<u64>)
        ensures
            r@ == entry_keys(self@.postorder()),
    {
        let ghost target = entry_keys(self@.postorder());
        let mut res: Vec<u64> = Vec::new();
        let mut stack: Vec<(bool, &Node<V>)> = Vec::new();
        match &self.root {
            None => {
                proof {
                    assert(pending_post(stack@) == Seq::<(u64, V)>::empty());
                    assert(res@ + entry_keys(pending_post(stack@)) =~= target);
                }
            }
            Some(n) => {
                let ghost b0 = stack@;
                stack.push((false, &**n));
                proof {
                    lemma_pending_post_push(b0, (false, &**n));
                    assert(pending_post(b0) == Seq::<(u64, V)>::empty());
                    assert(link_view(self.root) == n.as_tree());
                    assert(res@ + entry_keys(pending_post(stack@)) =~= target);
                }
            }
        }
        while stack.len() > 0
            invariant
                res@ + entry_keys(pending_post(stack@)) == target,
            decreases stack_measure(stack@),
        {
            let ghost st0 = stack@;
            let it = stack.pop().unwrap();
            proof {
                assert(st0.last() == it);
                assert(stack@ =~= st0.drop_last());
                assert(pending_post(st0) == item_post(it) + pending_post(stack@));
                assert(stack_measure(st0) == (if it.0 {
                    1nat
                } else {
                    3 * it.1.as_tree().size() + 1
                }) + stack_measure(stack@));
            }
            let (emit, n) = it;
            if emit {
                res.push(n.key);
                proof {
                    lemma_entry_keys_single(((n.key, n.value)));
                    assert(res@ + entry_keys(pending_post(stack@)) =~= target);
                }
            } else {
                proof {
                    assert(n.as_tree().postorder() == link_view(n.left).postorder() + link_view(n.right).postorder() + seq![(n.key, n.value)]);
                    assert(n.as_tree().size() == 1 + link_view(n.left).size() + link_view(
                        n.right,
                    ).size());
                }
                {
                    let ghost b2 = stack@;
                    stack.push((true, n));
                    proof {
                        lemma_pending_post_push(b2, (true, n));
                        lemma_stack_measure_push(b2, (true, n));
                    }
                }
                match &n.right {
                    Some(r2) => {
                        let ghost b1 = stack@;
                        stack.push((false, &**r2));
                        proof {
                            lemma_pending_post_push(b1, (false, &**r2));
                            lemma_stack_measure_push(b1, (false, &**r2));
                            assert(link_view(n.right) == r2.as_tree());
                        }
                    }
                    None => {
                        proof {
                            assert(link_view(n.right).postorder() == Seq::<(u64, V)>::empty());
                        }
                    }
                }
                match &n.left {
                    Some(l2) => {
                        let ghost b1 = stack@;
                        stack.push((false, &**l2));
                        proof {
                            lemma_pending_post_push(b1, (false, &**l2));
                            lemma_stack_measure_push(b1, (false, &**l2));
                            assert(link_view(n.left) == l2.as_tree());
                        }
                    }
                    None => {
                        proof {
                            assert(link_view(n.left).postorder() == Seq::<(u64, V)>::empty());
                        }
                    }
                }
                proof {
                    assert(pending_post(stack@) =~= n.as_tree().postorder() + pending_post(
                        st0.drop_last(),
                    ));
                    assert(res@ + entry_keys(pending_post(stack@)) =~= target);
                    assert(stack_measure(stack@) < stack_measure(st0));
                }
            }
        }
        proof {
            assert(pending_post(stack@) == Seq::<(u64, V)>::empty());
            assert(res@ =~= target);
        }
        res
    }

    /// The keys in breadth-first order: root first, each level left to
    /// right, driven by a queue of pending nodes.
    fn level_order(&self) -> (r: Vec<u64>)
        ensures
            r@ == entry_keys(self@.levelorder()),
    {
        let ghost t0 = self@;
        let ghost target = entry_keys(t0.levelorder());
        let mut buf: Vec<u64> = Vec::new();
        let mut queue: Vec<&Node<V>> = Vec::new();
        match &self.root {
            None => {
                proof {
                    assert(seq![t0].drop_first() =~= Seq::<Tree<V>>::empty());
                    assert(level_seq(seq![t0]) == level_seq(Seq::<Tree<V>>::empty()));
                    assert(level_seq(Seq::<Tree<V>>::empty()) =~= Seq::<(u64, V)>::empty());
                }
            }
            Some(n) => {
                queue.push(&**n);
                proof {
                    assert(link_view(self.root) == n.as_tree());
                }
            }
        }
        let mut i: usize = 0;
        proof {
            assert(views_of(queue@.skip(i as int)) =~= if t0 is Nil {
                Seq::<Tree<V>>::empty()
            } else {
                seq![t0]
            });
            if !(t0 is Nil) {
                assert(level_seq(views_of(queue@.skip(i as int))) == level_seq(seq![t0]));
            } else {
                assert(level_seq(views_of(queue@.skip(i as int))) == Seq::<(u64, V)>::empty());
            }
            assert(buf@ + entry_keys(level_seq(views_of(queue@.skip(i as int)))) =~= target);
        }
        while i < queue.len()
            invariant
                i <= queue.len(),
                buf@ + entry_keys(level_seq(views_of(queue@.skip(i as int)))) == target,
            decreases forest_size(views_of(queue@.skip(i as int))),
        {
            let ghost rem = views_of(queue@.skip(i as int));
            let n = queue[i];
            proof {
                assert(rem[0] == n.as_tree());
            }
            buf.push(n.key);
            match &n.left {
                Some(l) => queue.push(&**l),
                None => {}
            }
            match &n.right {
                Some(r2) => queue.push(&**r2),
                None => {}
            }
            i = i + 1;
            proof {
                let c = children_of(rem[0]);
                if n.left is Some && n.right is Some {
                    assert(c =~= seq![link_view(n.left), link_view(n.right)]);
                } else if n.left is Some {
                    assert(c =~= seq![link_view(n.left)]);
                } else if n.right is Some {
                    assert(c =~= seq![link_view(n.right)]);
                } else {
                    assert(c =~= Seq::<Tree<V>>::empty());
                }
                assert(views_of(queue@.skip(i as int)) =~= rem.drop_first() + c);
                assert(level_seq(rem) == seq![(n.key, n.value)] + level_seq(rem.drop_first() + c));
                crate::model::lemma_forest_size_concat(rem.drop_first(), c);
                crate::model::lemma_children_size(rem[0]);
                assert(forest_size(rem) == rem[0].size() + forest_size(rem.drop_first()));
                lemma_entry_keys_single(((n.key, n.value)));
                assert(buf@ + entry_keys(level_seq(views_of(queue@.skip(i as int)))) =~= target);
            }
        }
        proof {
            assert(queue@.skip(i as int) =~= Seq::<&Node<V>>::empty());
            assert(views_of(Seq::<&Node<V>>::empty()) =~= Seq::<Tree<V>>::empty());
            assert(level_seq(Seq::<Tree<V>>::empty()) == Seq::<(u64, V)>::empty());
            assert(buf@ =~= target);
        }
        buf
    }
}

impl<V: Copy> BSTree<V> {
    /// Turns a traversal's key listing back into the pair sequence by
    /// looking each key up again.
    fn pairs_of(&self, keys: &Vec<u64>, Ghost(pairs): Ghost<Seq<(u64, V)>>) -> (queue: Vec<
        (u64, V),
    >)
        requires
            self.inv(),
            keys@ == entry_keys(pairs),
            forall|i: int| 0 <= i < pairs.len()
                ==> #[trigger] self@.has_entry(pairs[i].0, pairs[i].1),
        ensures
            queue@ == pairs,
    {
        let mut queue: Vec<(u64, V)> = Vec::new();
        let mut i: usize = 0;
        proof {
            assert(queue@ =~= pairs.take(0));
        }
        while i < keys.len()
            invariant
                i <= keys.len(),
                self.inv(),
                keys@ == entry_keys(pairs),
                forall|j: int| 0 <= j < pairs.len()
                    ==> #[trigger] self@.has_entry(pairs[j].0, pairs[j].1),
                queue@ == pairs.take(i as int),
            decreases keys.len() - i,
        {
            let k = keys[i];
            proof {
                lemma_lookup_entries(self@);
                assert(self@.has_entry(pairs[i as int].0, pairs[i as int].1));
                assert(k == pairs[i as int].0);
                assert(self@.lookup(k) == Some(pairs[i as int].1));
            }
            match self.get_pair(&k) {
                Some(p) => {
                    queue.push((p.0, *p.1));
                    proof {
                        assert((p.0, *p.1) == pairs[i as int]);
                        assert(queue@ =~= pairs.take(i as int + 1));
                    }
                }
                None => {
                    proof {
                        assert(false);
                    }
                }
            }
            i = i + 1;
        }
        proof {
            assert(pairs.take(pairs.len() as int) =~= pairs);
        }
        queue
    }

    /// A fresh traversal sequence in root-left-right order.
    pub fn preorder_iter(&self) -> (it: TraverseIter<V>)
        requires
            self.inv(),
        ensures
            it@ == self@.preorder(),
            it.inv(),
    {
        let keys = self.prev_order();
        proof {
            lemma_preorder_entries(self@);
        }
        let queue = self.pairs_of(&keys, Ghost(self@.preorder()));
        TraverseIter::new(queue)
    }

    /// A fresh traversal sequence in ascending key order.
    pub fn inorder_iter(&self) -> (it: TraverseIter<V>)
        requires
            self.inv(),
        ensures
            it@ == self@.inorder(),
            it.inv(),
    {
        let keys = self.in_order();
        proof {
            lemma_inorder_entries(self@);
        }
        let queue = self.pairs_of(&keys, Ghost(self@.inorder()));
        TraverseIter::new(queue)
    }

    /// A fresh traversal sequence in left-right-root order.
    pub fn postorder_iter(&self) -> (it: TraverseIter<V>)
        requires
            self.inv(),
        ensures
            it@ == self@.postorder(),
            it.inv(),
    {
        let keys = self.post_order();
        proof {
            lemma_postorder_entries(self@);
        }
        let queue = self.pairs_of(&keys, Ghost(self@.postorder()));
        TraverseIter::new(queue)
    }

    /// A fresh traversal sequence in breadth-first order.
    pub fn levelorder_iter(&self) -> (it: TraverseIter<V>)
        requires
            self.inv(),
        ensures
            it@ == self@.levelorder(),
            it.inv(),
    {
        let keys = self.level_order();
        proof {
            lemma_levelorder_entries(self@);
        }
        let queue = self.pairs_of(&keys, Ghost(self@.levelorder()));
        TraverseIter::new(queue)
    }
}

} // verus!
