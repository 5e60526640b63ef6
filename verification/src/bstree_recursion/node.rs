//! Nodes of the recursive engine, together with the recursive algorithms.

use vstd::prelude::*;
use crate::model::Tree;
use crate::model::entry_keys;
use crate::model::lemma_entry_keys_concat;
use crate::model::lemma_entry_keys_single;
use crate::model::children_of;
use crate::model::level_seq;
use crate::model::forest_size;

verus! {

broadcast use lemma_entry_keys_concat;

pub type Link<V> = Option<Box<Node<V>>>;

pub struct Node<V> {
    pub key: u64,
    pub value: V,
    pub left: Link<V>,
    pub right: Link<V>,
}

/// The model tree hanging off an optional child link.
pub open spec fn link_view<V>(l: Link<V>) -> Tree<V>
    decreases l,
{
    match l {
        None => Tree::Nil,
        Some(n) => Tree::Node {
            key: n.key,
            value: n.value,
            left: Box::new(link_view(n.left)),
            right: Box::new(link_view(n.right)),
        },
    }
}

impl<V> Node<V> {
    /// The model tree rooted at this node.
    pub open spec fn as_tree(self) -> Tree<V> {
        Tree::Node {
            key: self.key,
            value: self.value,
            left: Box::new(link_view(self.left)),
            right: Box::new(link_view(self.right)),
        }
    }
}

impl<V> View for Node<V> {
    type V = Tree<V>;

    open spec fn view(&self) -> Tree<V> {
        self.as_tree()
    }
}

/// Decomposes the ordering invariant and the presence predicates of a
/// well-formed node over its two child links.
proof fn lemma_children_bounds<V>(n: Node<V>)
    requires
        n.as_tree().wf(),
    ensures
        link_view(n.left).wf(),
        link_view(n.right).wf(),
        forall|k: u64| #[trigger] link_view(n.left).contains_key(k) ==> k < n.key,
        forall|k: u64| #[trigger] link_view(n.right).contains_key(k) ==> k > n.key,
        forall|k: u64| #[trigger] n.as_tree().contains_key(k)
            <==> (k == n.key || link_view(n.left).contains_key(k)
                || link_view(n.right).contains_key(k)),
        forall|k: u64, v: V| #[trigger] n.as_tree().has_entry(k, v)
            <==> ((k == n.key && v == n.value) || link_view(n.left).has_entry(k, v)
                || link_view(n.right).has_entry(k, v)),
{
}

/// The model trees of a queue of borrowed nodes.
pub open spec fn views_of<V>(q: Seq<&Node<V>>) -> Seq<Tree<V>> {
    q.map_values(|n: &Node<V>| n.as_tree())
}

impl<V> Node<V> {
    pub fn new(key: u64, value: V) -> (n: Self)
        ensures
            n@ == (Tree::Node {
                key,
                value,
                left: Box::new(Tree::<V>::Nil),
                right: Box::new(Tree::<V>::Nil),
            }),
    {
        Node { key, value, left: None, right: None }
    }

    /// Inserts `(key, value)` into the tree hanging off `link`.
    fn insert_link(link: &mut Link<V>, key: u64, value: V)
        ensures
            link_view(*final(link)) == link_view(*old(link)).put(key, value),
        decreases *old(link),
    {
        match link.take() {
            None => {
                *link = Some(Box::new(Node::new(key, value)));
            }
            Some(mut n) => {
                if key < n.key {
                    Self::insert_link(&mut n.left, key, value);
                } else if key > n.key {
                    Self::insert_link(&mut n.right, key, value);
                } else {
                    n.value = value;
                }
                *link = Some(n);
            }
        }
    }

    /// Inserts `(key, value)` below this node, overwriting an equal key.
    pub fn insert(&mut self, key: u64, value: V)
        ensures
            final(self)@ == old(self)@.put(key, value),
    {
        if key < self.key {
            Self::insert_link(&mut self.left, key, value);
        } else if key > self.key {
            Self::insert_link(&mut self.right, key, value);
        } else {
            self.value = value;
        }
    }

    /// Binary search in the tree hanging off `link`.
    fn search_link<'a>(link: &'a Link<V>, key: &u64) -> (r: Option<(u64, &'a V)>)
        ensures
            match r {
                None => link_view(*link).lookup(*key) is None,
                Some(p) => p.0 == *key && link_view(*link).lookup(*key) == Some(*p.1),
            },
        decreases link,
    {
        match link {
            None => None,
            Some(n) => {
                if *key < n.key {
                    Self::search_link(&n.left, key)
                } else if *key > n.key {
                    Self::search_link(&n.right, key)
                } else {
                    Some((n.key, &n.value))
                }
            }
        }
    }

    /// Binary search for `key`; the found pair carries the searched key.
    pub fn search_pair(&self, key: &u64) -> (r: Option<(u64, &V)>)
        ensures
            match r {
                None => self@.lookup(*key) is None,
                Some(p) => p.0 == *key && self@.lookup(*key) == Some(*p.1),
            },
    {
        if self.key < *key {
            Self::search_link(&self.right, key)
        } else if self.key > *key {
            Self::search_link(&self.left, key)
        } else {
            Some((self.key, &self.value))
        }
    }

    /// Binary search for `key`, yielding the value alone.
    pub fn search(&self, key: &u64) -> (r: Option<&V>)
        ensures
            match r {
                None => self@.lookup(*key) is None,
                Some(v) => self@.lookup(*key) == Some(*v),
            },
    {
        match self.search_pair(key) {
            None => None,
            Some(p) => Some(p.1),
        }
    }

    /// The pair with the least key below this node.
    pub fn min_pair(&self) -> (r: (u64, &V))
        ensures
            r.0 == self@.min_entry().0,
            *r.1 == self@.min_entry().1,
        decreases self,
    {
        match &self.left {
            Some(left) => {
                let r = left.min_pair();
                proof {
                    assert(link_view(self.left) == left.as_tree());
                }
                r
            }
            None => (self.key, &self.value),
        }
    }

    /// The pair with the least key strictly above `key`, whether or not
    /// `key` itself is present.
    pub fn successor(&self, key: &u64) -> (r: Option<(u64, &V)>)
        requires
            self@.wf(),
        ensures
            r is None ==> forall|k2: u64| #[trigger] self@.contains_key(k2) ==> k2 <= *key,
            match r {
                None => true,
                Some(p) => p.0 > *key && self@.has_entry(p.0, *p.1)
                    && forall|k2: u64| #[trigger] self@.contains_key(k2) && k2 > *key ==> p.0 <= k2,
            },
        decreases self,
    {
        broadcast use crate::model::lemma_has_entry_contains;

        let ghost t = self@;
        proof {
            lemma_children_bounds(*self);
        }
        if self.key > *key {
            match &self.left {
                None => {
                    proof {
                        assert forall|k2: u64| #[trigger] t.contains_key(k2) && k2 > *key
                            implies self.key <= k2 by {
                            assert(!link_view(self.left).contains_key(k2));
                        }
                    }
                    Some((self.key, &self.value))
                }
                Some(left) => {
                    proof {
                        assert(link_view(self.left) == left.as_tree());
                    }
                    match left.successor(key) {
                        Some(p) => {
                            proof {
                                assert(left.as_tree().has_entry(p.0, *p.1));
                                assert(left.as_tree().contains_key(p.0));
                                assert(link_view(self.left).contains_key(p.0));
                                assert(p.0 < self.key);
                                assert(t.has_entry(p.0, *p.1));
                                assert forall|k2: u64| #[trigger] t.contains_key(k2) && k2 > *key
                                    implies p.0 <= k2 by {
                                    if link_view(self.left).contains_key(k2) {
                                        assert(left@.contains_key(k2));
                                    }
                                }
                            }
                            Some(p)
                        }
                        None => {
                            proof {
                                assert forall|k2: u64| #[trigger] t.contains_key(k2) && k2 > *key
                                    implies self.key <= k2 by {
                                    if link_view(self.left).contains_key(k2) {
                                        assert(left@.contains_key(k2));
                                        assert(k2 <= *key);
                                    }
                                }
                            }
                            Some((self.key, &self.value))
                        }
                    }
                }
            }
        } else if self.key < *key {
            match &self.right {
                None => {
                    proof {
                        assert forall|k2: u64| #[trigger] t.contains_key(k2) implies k2 <= *key by {
                            assert(!link_view(self.right).contains_key(k2));
                        }
                    }
                    None
                }
                Some(right) => {
                    proof {
                        assert(link_view(self.right) == right.as_tree());
                    }
                    let r = right.successor(key);
                    proof {
                        match r {
                            None => {
                                assert forall|k2: u64| #[trigger] t.contains_key(k2)
                                    implies k2 <= *key by {
                                    if link_view(self.right).contains_key(k2) {
                                        assert(right@.contains_key(k2));
                                    }
                                }
                            }
                            Some(p) => {
                                assert(right.as_tree().has_entry(p.0, *p.1));
                                assert(t.has_entry(p.0, *p.1));
                                assert forall|k2: u64| #[trigger] t.contains_key(k2) && k2 > *key
                                    implies p.0 <= k2 by {
                                    if link_view(self.right).contains_key(k2) {
                                        assert(right@.contains_key(k2));
                                    }
                                }
                            }
                        }
                    }
                    r
                }
            }
        } else {
            match &self.right {
                None => {
                    proof {
                        assert forall|k2: u64| #[trigger] t.contains_key(k2) implies k2 <= *key by {
                            assert(!link_view(self.right).contains_key(k2));
                        }
                    }
                    None
                }
                Some(right) => {
                    proof {
                        assert(link_view(self.right) == right.as_tree());
                        crate::model::lemma_min_entry(right.as_tree());
                    }
                    let m = right.min_pair();
                    proof {
                        assert(right.as_tree().has_entry(m.0, *m.1));
                        assert(right.as_tree().contains_key(m.0));
                        assert(link_view(self.right).contains_key(m.0));
                        assert(m.0 > self.key);
                        assert(t.has_entry(m.0, *m.1));
                        assert forall|k2: u64| #[trigger] t.contains_key(k2) && k2 > *key
                            implies m.0 <= k2 by {
                            if link_view(self.right).contains_key(k2) {
                                assert(right@.contains_key(k2));
                            }
                        }
                    }
                    Some(m)
                }
            }
        }
    }

    /// The pair with the greatest key strictly below `key`, whether or not
    /// `key` itself is present.
    pub fn predecessor(&self, key: &u64) -> (r: Option<(u64, &V)>)
        requires
            self@.wf(),
        ensures
            r is None ==> forall|k2: u64| #[trigger] self@.contains_key(k2) ==> k2 >= *key,
            match r {
                None => true,
                Some(p) => p.0 < *key && self@.has_entry(p.0, *p.1)
                    && forall|k2: u64| #[trigger] self@.contains_key(k2) && k2 < *key ==> p.0 >= k2,
            },
        decreases self,
    {
        broadcast use crate::model::lemma_has_entry_contains;

        let ghost t = self@;
        proof {
            lemma_children_bounds(*self);
        }
        if self.key < *key {
            match &self.right {
                None => {
                    proof {
                        assert forall|k2: u64| #[trigger] t.contains_key(k2) && k2 < *key
                            implies self.key >= k2 by {
                            assert(!link_view(self.right).contains_key(k2));
                        }
                    }
                    Some((self.key, &self.value))
                }
                Some(right) => {
                    proof {
                        assert(link_view(self.right) == right.as_tree());
                    }
                    match right.predecessor(key) {
                        Some(p) => {
                            proof {
                                assert(right.as_tree().has_entry(p.0, *p.1));
                                assert(right.as_tree().contains_key(p.0));
                                assert(link_view(self.right).contains_key(p.0));
                                assert(p.0 > self.key);
                                assert(t.has_entry(p.0, *p.1));
                                assert forall|k2: u64| #[trigger] t.contains_key(k2) && k2 < *key
                                    implies p.0 >= k2 by {
                                    if link_view(self.right).contains_key(k2) {
                                        assert(right@.contains_key(k2));
                                    }
                                }
                            }
                            Some(p)
                        }
                        None => {
                            proof {
                                assert forall|k2: u64| #[trigger] t.contains_key(k2) && k2 < *key
                                    implies self.key >= k2 by {
                                    if link_view(self.right).contains_key(k2) {
                                        assert(right@.contains_key(k2));
                                        assert(k2 >= *key);
                                    }
                                }
                            }
                            Some((self.key, &self.value))
                        }
                    }
                }
            }
        } else if self.key > *key {
            match &self.left {
                None => {
                    proof {
                        assert forall|k2: u64| #[trigger] t.contains_key(k2) implies k2 >= *key by {
                            assert(!link_view(self.left).contains_key(k2));
                        }
                    }
                    None
                }
                Some(left) => {
                    proof {
                        assert(link_view(self.left) == left.as_tree());
                    }
                    let r = left.predecessor(key);
                    proof {
                        match r {
                            None => {
                                assert forall|k2: u64| #[trigger] t.contains_key(k2)
                                    implies k2 >= *key by {
                                    if link_view(self.left).contains_key(k2) {
                                        assert(left@.contains_key(k2));
                                    }
                                }
                            }
                            Some(p) => {
                                assert(left.as_tree().has_entry(p.0, *p.1));
                                assert(t.has_entry(p.0, *p.1));
                                assert forall|k2: u64| #[trigger] t.contains_key(k2) && k2 < *key
                                    implies p.0 >= k2 by {
                                    if link_view(self.left).contains_key(k2) {
                                        assert(left@.contains_key(k2));
                                    }
                                }
                            }
                        }
                    }
                    r
                }
            }
        } else {
            match &self.left {
                None => {
                    proof {
                        assert forall|k2: u64| #[trigger] t.contains_key(k2) implies k2 >= *key by {
                            assert(!link_view(self.left).contains_key(k2));
                        }
                    }
                    None
                }
                Some(left) => {
                    proof {
                        assert(link_view(self.left) == left.as_tree());
                        crate::model::lemma_max_entry(left.as_tree());
                    }
                    let m = left.max_pair();
                    proof {
                        assert(left.as_tree().has_entry(m.0, *m.1));
                        assert(left.as_tree().contains_key(m.0));
                        assert(link_view(self.left).contains_key(m.0));
                        assert(m.0 < self.key);
                        assert(t.has_entry(m.0, *m.1));
                        assert forall|k2: u64| #[trigger] t.contains_key(k2) && k2 < *key
                            implies m.0 >= k2 by {
                            if link_view(self.left).contains_key(k2) {
                                assert(left@.contains_key(k2));
                            }
                        }
                    }
                    Some(m)
                }
            }
        }
    }

    /// Takes the tree apart into the tree without its leftmost node and
    /// that node, whose children are detached.
    pub fn remove_min(self) -> (r: (Link<V>, Box<Node<V>>))
        ensures
            link_view(r.0) == self@.split_min().0,
            r.1.key == self@.split_min().1.0,
            r.1.value == self@.split_min().1.1,
        decreases self,
    {
        let Node { key, value, left, right } = self;
        match left {
            None => {
                (right, Box::new(Node { key, value, left: None, right: None }))
            }
            Some(lb) => {
                let ghost lv = link_view(Some(lb));
                let (rest, min) = (*lb).remove_min();
                proof {
                    assert(lv is Node);
                }
                (Some(Box::new(Node { key, value, left: rest, right })), min)
            }
        }
    }

    /// Merges two subtrees whose key ranges are ordered: the least node of
    /// the right subtree becomes the root over both.
    pub fn combine_two_subtrees(left: Node<V>, right: Node<V>) -> (r: Box<Node<V>>)
        ensures
            r@ == Tree::join(left@, right@),
    {
        let ghost lt = left@;
        let ghost rt = right@;
        let (remain, min) = right.remove_min();
        let Node { key, value, .. } = *min;
        let r = Box::new(Node { key, value, left: Some(Box::new(left)), right: remain });
        proof {
            assert(lt is Node && rt is Node);
            assert(r@ == Tree::join(lt, rt));
        }
        r
    }

    /// Detaches this node, promoting a replacement chosen from its
    /// subtrees.
    pub fn delete_root(self) -> (r: Link<V>)
        ensures
            link_view(r) == self@.del_root(),
    {
        let ghost t = self@;
        let Node { left, right, .. } = self;
        match (left, right) {
            (None, None) => None,
            (Some(l), None) => {
                proof {
                    assert(link_view(Some(l)) is Node);
                }
                Some(l)
            }
            (None, Some(r2)) => {
                proof {
                    assert(link_view(Some(r2)) is Node);
                }
                Some(r2)
            }
            (Some(l), Some(r2)) => {
                proof {
                    assert(link_view(Some(l)) is Node && link_view(Some(r2)) is Node);
                }
                Some(Self::combine_two_subtrees(*l, *r2))
            }
        }
    }

    /// Deletes `key` from the tree hanging off `link`, keeping the
    /// descendants of the deleted node.
    fn delete_link(link: &mut Link<V>, key: u64)
        ensures
            link_view(*final(link)) == link_view(*old(link)).del(key),
        decreases *old(link),
    {
        match link.take() {
            None => {}
            Some(mut n) => {
                if key < n.key {
                    Self::delete_link(&mut n.left, key);
                    *link = Some(n);
                } else if key > n.key {
                    Self::delete_link(&mut n.right, key);
                    *link = Some(n);
                } else {
                    *link = (*n).delete_root();
                }
            }
        }
    }

    /// Deletes `key` below this node (consuming it), returning the new
    /// root; the descendants of the deleted node stay reachable.
    pub fn delete(self, key: u64) -> (r: Link<V>)
        ensures
            link_view(r) == self@.del(key),
    {
        let ghost t = self@;
        let mut link: Link<V> = Some(Box::new(self));
        proof {
            assert(link_view(link) == t);
        }
        Self::delete_link(&mut link, key);
        link
    }

    /// Discards the whole branch rooted at `key` in the tree hanging off
    /// `link`.
    fn prune_link(link: &mut Link<V>, key: u64)
        ensures
            link_view(*final(link)) == link_view(*old(link)).pruned(key),
        decreases *old(link),
    {
        match link.take() {
            None => {}
            Some(mut n) => {
                if key < n.key {
                    Self::prune_link(&mut n.left, key);
                    *link = Some(n);
                } else if key > n.key {
                    Self::prune_link(&mut n.right, key);
                    *link = Some(n);
                }
            }
        }
    }

    /// Discards the branch rooted at `key` below this node; the node
    /// itself is never removed.
    pub fn delete_tree(&mut self, key: u64)
        ensures
            old(self).key != key ==> final(self)@ == old(self)@.pruned(key),
            old(self).key == key ==> final(self)@ == old(self)@,
    {
        if key < self.key {
            Self::prune_link(&mut self.left, key);
        } else if key > self.key {
            Self::prune_link(&mut self.right, key);
        }
    }

    /// Detaches the whole branch rooted at `key` in the tree hanging off
    /// `link` and hands it back.
    fn excise_link(link: &mut Link<V>, key: u64) -> (r: Link<V>)
        ensures
            link_view(*final(link)) == link_view(*old(link)).pruned(key),
            link_view(r) == link_view(*old(link)).branch(key),
        decreases *old(link),
    {
        match link.take() {
            None => None,
            Some(mut n) => {
                if key < n.key {
                    let r = Self::excise_link(&mut n.left, key);
                    *link = Some(n);
                    r
                } else if key > n.key {
                    let r = Self::excise_link(&mut n.right, key);
                    *link = Some(n);
                    r
                } else {
                    Some(n)
                }
            }
        }
    }

    /// Detaches the branch rooted at `key` below this node and hands it
    /// back; the node itself is never excised.
    pub fn remove_tree(&mut self, key: u64) -> (r: Link<V>)
        ensures
            old(self).key != key ==> final(self)@ == old(self)@.pruned(key)
                && link_view(r) == old(self)@.branch(key),
            old(self).key == key ==> final(self)@ == old(self)@ && r is None,
    {
        if key < self.key {
            Self::excise_link(&mut self.left, key)
        } else if key > self.key {
            Self::excise_link(&mut self.right, key)
        } else {
            None
        }
    }

    /// Appends the keys of the tree hanging off `root` in root-left-right
    /// order.
    pub fn prev_order(root: &Link<V>, buf: &mut Vec<u64>)
        ensures
            final(buf)@ == old(buf)@ + entry_keys(link_view(*root).preorder()),
        decreases root,
    {
        match root {
            None => {
                proof {
                    assert(final(buf)@ =~= old(buf)@ + entry_keys(link_view(*root).preorder()));
                }
            }
            Some(n) => {
                buf.push(n.key);
                Self::prev_order(&n.left, buf);
                Self::prev_order(&n.right, buf);
                proof {
                    lemma_entry_keys_single(((n.key, n.value)));
                    assert(final(buf)@ =~= old(buf)@ + entry_keys(link_view(*root).preorder()));
                }
            }
        }
    }

    /// Appends the keys of the tree hanging off `root` in left-root-right
    /// order.
    pub fn in_order(root: &Link<V>, buf: &mut Vec<u64>)
        ensures
            final(buf)@ == old(buf)@ + entry_keys(link_view(*root).inorder()),
        decreases root,
    {
        match root {
            None => {
                proof {
                    assert(final(buf)@ =~= old(buf)@ + entry_keys(link_view(*root).inorder()));
                }
            }
            Some(n) => {
                Self::in_order(&n.left, buf);
                buf.push(n.key);
                Self::in_order(&n.right, buf);
                proof {
                    lemma_entry_keys_single(((n.key, n.value)));
                    assert(final(buf)@ =~= old(buf)@ + entry_keys(link_view(*root).inorder()));
                }
            }
        }
    }

    /// Appends the keys of the tree hanging off `root` in left-right-root
    /// order.
    pub fn post_order(root: &Link<V>, buf: &mut Vec<u64>)
        ensures
            final(buf)@ == old(buf)@ + entry_keys(link_view(*root).postorder()),
        decreases root,
    {
        match root {
            None => {
                proof {
                    assert(final(buf)@ =~= old(buf)@ + entry_keys(link_view(*root).postorder()));
                }
            }
            Some(n) => {
                Self::post_order(&n.left, buf);
                Self::post_order(&n.right, buf);
                buf.push(n.key);
                proof {
                    lemma_entry_keys_single(((n.key, n.value)));
                    assert(final(buf)@ =~= old(buf)@ + entry_keys(link_view(*root).postorder()));
                }
            }
        }
    }

    /// Appends the keys of the tree hanging off `root` breadth first: root
    /// first, each level left to right, driven by a queue of pending nodes.
    pub fn level_order(root: &Link<V>, buf: &mut Vec<u64>)
        ensures
            final(buf)@ == old(buf)@ + entry_keys(link_view(*root).levelorder()),
    {
        let ghost t0 = link_view(*root);
        let ghost target = old(buf)@ + entry_keys(t0.levelorder());
        let mut queue: Vec<&Node<V>> = Vec::new();
        match root {
            None => {
                proof {
                    assert(seq![t0].drop_first() =~= Seq::<Tree<V>>::empty());
                    assert(level_seq(seq![t0]) == level_seq(Seq::<Tree<V>>::empty()));
                    assert(level_seq(Seq::<Tree<V>>::empty()) =~= Seq::<(u64, V)>::empty());
                }
            }
            Some(n) => {
                queue.push(&**n);
            }
        }
        let mut i: usize = 0;
        proof {
            assert(views_of(queue@.skip(i as int)) =~= if t0 is Nil {
                Seq::<Tree<V>>::empty()
            } else {
                seq![t0]
            });
            if !(t0 is Nil) {
                assert(level_seq(views_of(queue@.skip(i as int))) == level_seq(seq![t0]));
            } else {
                assert(level_seq(views_of(queue@.skip(i as int))) == Seq::<(u64, V)>::empty());
            }
            assert(buf@ + entry_keys(level_seq(views_of(queue@.skip(i as int)))) =~= target);
        }
        while i < queue.len()
            invariant
                i <= queue.len(),
                buf@ + entry_keys(level_seq(views_of(queue@.skip(i as int)))) == target,
            decreases forest_size(views_of(queue@.skip(i as int))),
        {
            let ghost rem = views_of(queue@.skip(i as int));
            let ghost q0 = queue@;
            let n = queue[i];
            proof {
                assert(rem[0] == n.as_tree());
            }
            buf.push(n.key);
            match &n.left {
                Some(l) => queue.push(&**l),
                None => {}
            }
            match &n.right {
                Some(r) => queue.push(&**r),
                None => {}
            }
            i = i + 1;
            proof {
                let c = children_of(rem[0]);
                if n.left is Some && n.right is Some {
                    assert(c =~= seq![link_view(n.left), link_view(n.right)]);
                } else if n.left is Some {
                    assert(c =~= seq![link_view(n.left)]);
                } else if n.right is Some {
                    assert(c =~= seq![link_view(n.right)]);
                } else {
                    assert(c =~= Seq::<Tree<V>>::empty());
                }
                assert(views_of(queue@.skip(i as int)) =~= rem.drop_first() + c);
                assert(level_seq(rem) == seq![(n.key, n.value)] + level_seq(rem.drop_first() + c));
                crate::model::lemma_forest_size_concat(rem.drop_first(), c);
                crate::model::lemma_children_size(rem[0]);
                assert(forest_size(rem) == rem[0].size() + forest_size(rem.drop_first()));
                lemma_entry_keys_single(((n.key, n.value)));
                assert(buf@ + entry_keys(level_seq(views_of(queue@.skip(i as int)))) =~= target);
            }
        }
        proof {
            assert(queue@.skip(i as int) =~= Seq::<&Node<V>>::empty());
            assert(views_of(Seq::<&Node<V>>::empty()) =~= Seq::<Tree<V>>::empty());
            assert(level_seq(Seq::<Tree<V>>::empty()) == Seq::<(u64, V)>::empty());
            assert(final(buf)@ =~= old(buf)@ + entry_keys(link_view(*root).levelorder()));
        }
    }

    /// The pair with the greatest key below this node.
    pub fn max_pair(&self) -> (r: (u64, &V))
        ensures
            r.0 == self@.max_entry().0,
            *r.1 == self@.max_entry().1,
        decreases self,
    {
        match &self.right {
            Some(right) => {
                let r = right.max_pair();
                proof {
                    assert(link_view(self.right) == right.as_tree());
                }
                r
            }
            None => (self.key, &self.value),
        }
    }
}

} // verus!
