//! The recursive engine: every operation walks the tree by recursion.

use vstd::prelude::*;
use crate::model::Tree;
use crate::model::entry_keys;
use crate::model::lemma_lookup_entries;
use crate::model::lemma_preorder_entries;
use crate::model::lemma_inorder_entries;
use crate::model::lemma_postorder_entries;
use crate::model::lemma_levelorder_entries;
use crate::bstree_recursion::node::{link_view, Link, Node};
use crate::iterator::TraverseIter;

verus! {

pub struct BSTree<V> {
    root: Link<V>,
}

impl<V> View for BSTree<V> {
    type V = Tree<V>;

    closed spec fn view(&self) -> Tree<V> {
        link_view(self.root)
    }
}

impl<V> Default for BSTree<V> {
    /// An empty tree.
    fn default() -> (tree: Self)
        ensures
            tree@ == Tree::<V>::Nil,
            tree.inv(),
    {
        BSTree { root: None }
    }
}

impl<V> BSTree<V> {
    /// The search-tree ordering invariant; established by `new` and kept by
    /// every operation.
    pub open spec fn inv(&self) -> bool {
        self@.wf()
    }

    /// Builds an empty tree.
    pub fn new() -> (tree: Self)
        ensures
            tree@ == Tree::<V>::Nil,
            tree.inv(),
    {
        BSTree { root: None }
    }

    /// Whether the tree holds no entry.
    pub fn is_empty(&self) -> (b: bool)
        ensures
            b == (self@ is Nil),
    {
        proof {
            if self.root is Some {
                assert(self@ is Node);
            }
        }
        self.root.is_none()
    }

    /// Inserts `(key, value)`, overwriting the value of an equal key.
    pub fn insert(&mut self, key: u64, value: V)
        requires
            old(self).inv(),
        ensures
            final(self).inv(),
            final(self)@ == old(self)@.put(key, value),
    {
        proof {
            crate::model::lemma_put(old(self)@, key, value);
        }
        match self.root.take() {
            None => {
                self.root = Some(Box::new(Node::new(key, value)));
            }
            Some(mut node) => {
                (&mut *node).insert(key, value);
                self.root = Some(node);
            }
        }
    }

    /// Deletes the entry at `key`, keeping the descendants of the deleted
    /// node; absent keys are ignored.
    pub fn delete(&mut self, key: u64)
        requires
            old(self).inv(),
        ensures
            final(self).inv(),
            final(self)@ == old(self)@.del(key),
    {
        proof {
            crate::model::lemma_del(old(self)@, key);
        }
        if let Some(node) = self.root.take() {
            self.root = (*node).delete(key);
        }
    }

    /// The pair stored at `key`, if any; its key equals the searched key.
    pub fn get_pair(&self, key: &u64) -> (r: Option<(u64, &V)>)
        ensures
            match r {
                None => self@.lookup(*key) is None,
                Some(p) => p.0 == *key && self@.lookup(*key) == Some(*p.1),
            },
    {
        match &self.root {
            None => None,
            Some(node) => {
                proof {
                    assert(link_view(self.root) == node.as_tree());
                }
                node.search_pair(key)
            }
        }
    }

    /// The value stored at `key`, if any.
    pub fn get(&self, key: &u64) -> (r: Option<&V>)
        ensures
            match r {
                None => self@.lookup(*key) is None,
                Some(v) => self@.lookup(*key) == Some(*v),
            },
    {
        match self.get_pair(key) {
            None => None,
            Some(p) => Some(p.1),
        }
    }

    /// The value stored at `key`, or `default` when `key` is absent.
    pub fn get_or<'a>(&'a self, key: &u64, default: &'a V) -> (r: &'a V)
        ensures
            match self@.lookup(*key) {
                Some(v) => *r == v,
                None => *r == *default,
            },
    {
        match self.get(key) {
            Some(v) => v,
            None => default,
        }
    }

    /// Whether an entry is stored at `key`.
    pub fn contains(&self, key: &u64) -> (b: bool)
        ensures
            b == (self@.lookup(*key) is Some),
    {
        self.get(key).is_some()
    }

    /// The pair with the greatest key; `None` exactly on the empty tree.
    pub fn max_pair(&self) -> (r: Option<(u64, &V)>)
        ensures
            (r is None) == (self@ is Nil),
            match r {
                None => true,
                Some(p) => p.0 == self@.max_entry().0 && *p.1 == self@.max_entry().1,
            },
    {
        match &self.root {
            None => None,
            Some(node) => {
                proof {
                    assert(link_view(self.root) == node.as_tree());
                }
                Some(node.max_pair())
            }
        }
    }

    /// The pair with the least key; `None` exactly on the empty tree.
    pub fn min_pair(&self) -> (r: Option<(u64, &V)>)
        ensures
            (r is None) == (self@ is Nil),
            match r {
                None => true,
                Some(p) => p.0 == self@.min_entry().0 && *p.1 == self@.min_entry().1,
            },
    {
        match &self.root {
            None => None,
            Some(node) => {
                proof {
                    assert(link_view(self.root) == node.as_tree());
                }
                Some(node.min_pair())
            }
        }
    }

    /// The pair with the least key strictly above `key`, whether or not
    /// `key` itself is present; `None` when no key exceeds it.
    pub fn successor(&self, key: &u64) -> (r: Option<(u64, &V)>)
        requires
            self.inv(),
        ensures
            r is None ==> forall|k2: u64| #[trigger] self@.contains_key(k2) ==> k2 <= *key,
            match r {
                None => true,
                Some(p) => p.0 > *key && self@.has_entry(p.0, *p.1)
                    && forall|k2: u64| #[trigger] self@.contains_key(k2) && k2 > *key ==> p.0 <= k2,
            },
    {
        match &self.root {
            None => {
                proof {
                    assert forall|k2: u64| #[trigger] self@.contains_key(k2) implies k2 <= *key by {}
                }
                None
            }
            Some(node) => {
                proof {
                    assert(link_view(self.root) == node.as_tree());
                }
                let r = node.successor(key);
                proof {
                    if r is None {
                        assert forall|k2: u64| #[trigger] self@.contains_key(k2)
                            implies k2 <= *key by {
                            assert(node@.contains_key(k2));
                        }
                    }
                    match r {
                        None => {}
                        Some(p) => {
                            assert forall|k2: u64| #[trigger] self@.contains_key(k2) && k2 > *key
                                implies p.0 <= k2 by {
                                assert(node@.contains_key(k2));
                            }
                        }
                    }
                }
                r
            }
        }
    }

    /// The pair with the greatest key strictly below `key`, whether or not
    /// `key` itself is present; `None` when no key falls below it.
    pub fn predecessor(&self, key: &u64) -> (r: Option<(u64, &V)>)
        requires
            self.inv(),
        ensures
            r is None ==> forall|k2: u64| #[trigger] self@.contains_key(k2) ==> k2 >= *key,
            match r {
                None => true,
                Some(p) => p.0 < *key && self@.has_entry(p.0, *p.1)
                    && forall|k2: u64| #[trigger] self@.contains_key(k2) && k2 < *key ==> p.0 >= k2,
            },
    {
        match &self.root {
            None => {
                proof {
                    assert forall|k2: u64| #[trigger] self@.contains_key(k2) implies k2 >= *key by {}
                }
                None
            }
            Some(node) => {
                proof {
                    assert(link_view(self.root) == node.as_tree());
                }
                let r = node.predecessor(key);
                proof {
                    if r is None {
                        assert forall|k2: u64| #[trigger] self@.contains_key(k2)
                            implies k2 >= *key by {
                            assert(node@.contains_key(k2));
                        }
                    }
                    match r {
                        None => {}
                        Some(p) => {
                            assert forall|k2: u64| #[trigger] self@.contains_key(k2) && k2 < *key
                                implies p.0 >= k2 by {
                                assert(node@.contains_key(k2));
                            }
                        }
                    }
                }
                r
            }
        }
    }

    /// Discards the whole branch rooted at `key`, descendants included;
    /// absent keys are ignored.
    pub fn delete_tree(&mut self, key: u64)
        requires
            old(self).inv(),
        ensures
            final(self).inv(),
            final(self)@ == old(self)@.pruned(key),
    {
        proof {
            crate::model::lemma_excision_partition(old(self)@, key);
        }
        match self.root.take() {
            None => {}
            Some(mut node) => {
                if node.key == key {
                } else {
                    (&mut *node).delete_tree(key);
                    self.root = Some(node);
                }
            }
        }
    }

    /// Detaches the whole branch rooted at `key` and hands it back as an
    /// independent tree; an absent key yields an empty tree.
    pub fn remove_tree(&mut self, key: u64) -> (rm: Self)
        requires
            old(self).inv(),
        ensures
            final(self).inv(),
            rm.inv(),
            final(self)@ == old(self)@.pruned(key),
            rm@ == old(self)@.branch(key),
    {
        proof {
            crate::model::lemma_excision_partition(old(self)@, key);
        }
        match self.root.take() {
            None => BSTree { root: None },
            Some(mut node) => {
                if node.key == key {
                    BSTree { root: Some(node) }
                } else {
                    let r = (&mut *node).remove_tree(key);
                    self.root = Some(node);
                    BSTree { root: r }
                }
            }
        }
    }

    /// The keys in root-left-right order.
    fn prev_order(&self) -> (r: Vec<u64>)
        ensures
            r@ == entry_keys(self@.preorder()),
    {
        let mut buf: Vec<u64> = Vec::new();
        Node::prev_order(&self.root, &mut buf);
        proof {
            assert(buf@ =~= entry_keys(self@.preorder()));
        }
        buf
    }

    /// The keys in left-root-right order.
    fn in_order(&self) -> (r: Vec<u64>)
        ensures
            r@ == entry_keys(self@.inorder()),
    {
        let mut buf: Vec<u64> = Vec::new();
        Node::in_order(&self.root, &mut buf);
        proof {
            assert(buf@ =~= entry_keys(self@.inorder()));
        }
        buf
    }

    /// The keys in left-right-root order.
    fn post_order(&self) -> (r: Vec<u64>)
        ensures
            r@ == entry_keys(self@.postorder()),
    {
        let mut buf: Vec<u64> = Vec::new();
        Node::post_order(&self.root, &mut buf);
        proof {
            assert(buf@ =~= entry_keys(self@.postorder()));
        }
        buf
    }

    /// The keys in breadth-first order.
    fn level_order(&self) -> (r: Vec<u64>)
        ensures
            r@ == entry_keys(self@.levelorder()),
    {
        let mut buf: Vec<u64> = Vec::new();
        Node::level_order(&self.root, &mut buf);
        proof {
            assert(buf@ =~= entry_keys(self@.levelorder()));
        }
        buf
    }
}

impl<V: Copy> BSTree<V> {
    /// Turns a traversal's key listing back into the pair sequence by
    /// looking each key up again.
    fn pairs_of(&self, keys: &Vec<u64>, Ghost(pairs): Ghost<Seq<(u64, V)>>) -> (queue: Vec<
        (u64, V),
    >)
        requires
            self.inv(),
            keys@ == entry_keys(pairs),
            forall|i: int| 0 <= i < pairs.len()
                ==> #[trigger] self@.has_entry(pairs[i].0, pairs[i].1),
        ensures
            queue@ == pairs,
    {
        let mut queue: Vec<(u64, V)> = Vec::new();
        let mut i: usize = 0;
        proof {
            assert(queue@ =~= pairs.take(0));
        }
        while i < keys.len()
            invariant
                i <= keys.len(),
                self.inv(),
                keys@ == entry_keys(pairs),
                forall|j: int| 0 <= j < pairs.len()
                    ==> #[trigger] self@.has_entry(pairs[j].0, pairs[j].1),
                queue@ == pairs.take(i as int),
            decreases keys.len() - i,
        {
            let k = keys[i];
            proof {
                lemma_lookup_entries(self@);
                assert(self@.has_entry(pairs[i as int].0, pairs[i as int].1));
                assert(k == pairs[i as int].0);
                assert(self@.lookup(k) == Some(pairs[i as int].1));
            }
            match self.get_pair(&k) {
                Some(p) => {
                    queue.push((p.0, *p.1));
                    proof {
                        assert((p.0, *p.1) == pairs[i as int]);
                        assert(queue@ =~= pairs.take(i as int + 1));
                    }
                }
                None => {
                    proof {
                        assert(false);
                    }
                }
            }
            i = i + 1;
        }
        proof {
            assert(pairs.take(pairs.len() as int) =~= pairs);
        }
        queue
    }

    /// A fresh traversal sequence in root-left-right order.
    pub fn preorder_iter(&self) -> (it: TraverseIter<V>)
        requires
            self.inv(),
        ensures
            it@ == self@.preorder(),
            it.inv(),
    {
        let keys = self.prev_order();
        proof {
            lemma_preorder_entries(self@);
        }
        let queue = self.pairs_of(&keys, Ghost(self@.preorder()));
        TraverseIter::new(queue)
    }

    /// A fresh traversal sequence in ascending key order.
    pub fn inorder_iter(&self) -> (it: TraverseIter<V>)
        requires
            self.inv(),
        ensures
            it@ == self@.inorder(),
            it.inv(),
    {
        let keys = self.in_order();
        proof {
            lemma_inorder_entries(self@);
        }
        let queue = self.pairs_of(&keys, Ghost(self@.inorder()));
        TraverseIter::new(queue)
    }

    /// A fresh traversal sequence in left-right-root order.
    pub fn postorder_iter(&self) -> (it: TraverseIter<V>)
        requires
            self.inv(),
        ensures
            it@ == self@.postorder(),
            it.inv(),
    {
        let keys = self.post_order();
        proof {
            lemma_postorder_entries(self@);
        }
        let queue = self.pairs_of(&keys, Ghost(self@.postorder()));
        TraverseIter::new(queue)
    }

    /// A fresh traversal sequence in breadth-first order.
    pub fn levelorder_iter(&self) -> (it: TraverseIter<V>)
        requires
            self.inv(),
        ensures
            it@ == self@.levelorder(),
            it.inv(),
    {
        let keys = self.level_order();
        proof {
            lemma_levelorder_entries(self@);
        }
        let queue = self.pairs_of(&keys, Ghost(self@.levelorder()));
        TraverseIter::new(queue)
    }
}

} // verus!
