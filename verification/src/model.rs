//! The mathematical model of the binary search tree.
//!
//! Every executable engine is specified against the spec functions in this
//! module: a tree is interpreted as a value of [`Tree`], and each operation
//! of an engine promises that the view of its result is the corresponding
//! model function applied to the view of its input.

use vstd::prelude::*;

verus! {

/// A binary tree of key-value entries, used as the abstract view of the
/// executable engines.  Nothing constructs it at run time.
pub enum Tree<V> {
    Nil,
    Node { key: u64, value: V, left: Box<Tree<V>>, right: Box<Tree<V>> },
}

impl<V> Tree<V> {
    /// Number of entries in the tree.
    pub open spec fn size(self) -> nat
        decreases self,
    {
        match self {
            Tree::Nil => 0,
            Tree::Node { left, right, .. } => 1 + left.size() + right.size(),
        }
    }

    /// Whether any node of the tree carries key `k` (no search-order
    /// assumption: the whole tree is considered).
    pub open spec fn contains_key(self, k: u64) -> bool
        decreases self,
    {
        match self {
            Tree::Nil => false,
            Tree::Node { key, left, right, .. } =>
                k == key || left.contains_key(k) || right.contains_key(k),
        }
    }

    /// Whether some node of the tree carries exactly the entry `(k, v)`.
    pub open spec fn has_entry(self, k: u64, v: V) -> bool
        decreases self,
    {
        match self {
            Tree::Nil => false,
            Tree::Node { key, value, left, right } =>
                (k == key && v == value) || left.has_entry(k, v) || right.has_entry(k, v),
        }
    }

    /// The value reached by binary search for `k`, if any.
    pub open spec fn lookup(self, k: u64) -> Option<V>
        decreases self,
    {
        match self {
            Tree::Nil => None,
            Tree::Node { key, value, left, right } =>
                if k < key {
                    left.lookup(k)
                } else if k > key {
                    right.lookup(k)
                } else {
                    Some(value)
                },
        }
    }

    /// The search-tree ordering invariant: at every node, all keys of the
    /// left subtree are smaller and all keys of the right subtree larger
    /// than the node's key.
    pub open spec fn wf(self) -> bool
        decreases self,
    {
        match self {
            Tree::Nil => true,
            Tree::Node { key, left, right, .. } => {
                &&& left.wf()
                &&& right.wf()
                &&& forall|k: u64| left.contains_key(k) ==> k < key
                &&& forall|k: u64| right.contains_key(k) ==> k > key
            },
        }
    }

    /// The tree after inserting `(k, v)`: an existing node with key `k` has
    /// its value overwritten, otherwise a fresh leaf is grown.
    pub open spec fn put(self, k: u64, v: V) -> Tree<V>
        decreases self,
    {
        match self {
            Tree::Nil => Tree::Node { key: k, value: v, left: Box::new(Tree::Nil), right: Box::new(Tree::Nil) },
            Tree::Node { key, value, left, right } =>
                if k < key {
                    Tree::Node { key, value, left: Box::new(left.put(k, v)), right }
                } else if k > key {
                    Tree::Node { key, value, left, right: Box::new(right.put(k, v)) }
                } else {
                    Tree::Node { key, value: v, left, right }
                },
        }
    }

    /// Splits a non-empty tree into the tree without its leftmost node and
    /// the entry of that leftmost node.
    pub open spec fn split_min(self) -> (Tree<V>, (u64, V))
        decreases self,
    {
        match self {
            Tree::Nil => (Tree::Nil, arbitrary()),
            Tree::Node { key, value, left, right } =>
                if *left is Nil {
                    (*right, (key, value))
                } else {
                    let (rest, m) = left.split_min();
                    (Tree::Node { key, value, left: Box::new(rest), right }, m)
                },
        }
    }

    /// Joins the two subtrees of a deleted node: the minimum of the right
    /// subtree (when both sides are present) is promoted to the root.
    pub open spec fn join(left: Tree<V>, right: Tree<V>) -> Tree<V> {
        if left is Nil {
            right
        } else if right is Nil {
            left
        } else {
            let (rest, m) = right.split_min();
            Tree::Node { key: m.0, value: m.1, left: Box::new(left), right: Box::new(rest) }
        }
    }

    /// The tree after removing its root node while keeping all descendants.
    pub open spec fn del_root(self) -> Tree<V> {
        match self {
            Tree::Nil => Tree::Nil,
            Tree::Node { left, right, .. } => Tree::join(*left, *right),
        }
    }

    /// The tree after deleting key `k` (a no-op when `k` is absent); the
    /// descendants of the deleted node are preserved.
    pub open spec fn del(self, k: u64) -> Tree<V>
        decreases self,
    {
        match self {
            Tree::Nil => Tree::Nil,
            Tree::Node { key, value, left, right } =>
                if k < key {
                    Tree::Node { key, value, left: Box::new(left.del(k)), right }
                } else if k > key {
                    Tree::Node { key, value, left, right: Box::new(right.del(k)) }
                } else {
                    Tree::join(*left, *right)
                },
        }
    }

    /// The tree after discarding the whole branch rooted at key `k`
    /// (a no-op when binary search does not reach `k`).
    pub open spec fn pruned(self, k: u64) -> Tree<V>
        decreases self,
    {
        match self {
            Tree::Nil => Tree::Nil,
            Tree::Node { key, value, left, right } =>
                if k < key {
                    Tree::Node { key, value, left: Box::new(left.pruned(k)), right }
                } else if k > key {
                    Tree::Node { key, value, left, right: Box::new(right.pruned(k)) }
                } else {
                    Tree::Nil
                },
        }
    }

    /// The branch rooted at key `k`, in its original shape; `Nil` when
    /// binary search does not reach `k`.
    pub open spec fn branch(self, k: u64) -> Tree<V>
        decreases self,
    {
        match self {
            Tree::Nil => Tree::Nil,
            Tree::Node { key, left, right, .. } =>
                if k < key {
                    left.branch(k)
                } else if k > key {
                    right.branch(k)
                } else {
                    self
                },
        }
    }

    /// The entry of the leftmost node (meaningless on `Nil`).
    pub open spec fn min_entry(self) -> (u64, V)
        decreases self,
    {
        match self {
            Tree::Nil => arbitrary(),
            Tree::Node { key, value, left, .. } =>
                if *left is Nil {
                    (key, value)
                } else {
                    left.min_entry()
                },
        }
    }

    /// The entry of the rightmost node (meaningless on `Nil`).
    pub open spec fn max_entry(self) -> (u64, V)
        decreases self,
    {
        match self {
            Tree::Nil => arbitrary(),
            Tree::Node { key, value, right, .. } =>
                if *right is Nil {
                    (key, value)
                } else {
                    right.max_entry()
                },
        }
    }

    /// Entries in root-left-right order.
    pub open spec fn preorder(self) -> Seq<(u64, V)>
        decreases self,
    {
        match self {
            Tree::Nil => Seq::empty(),
            Tree::Node { key, value, left, right } =>
                seq![(key, value)] + left.preorder() + right.preorder(),
        }
    }

    /// Entries in left-root-right order; ascending by key on a well-formed
    /// tree.
    pub open spec fn inorder(self) -> Seq<(u64, V)>
        decreases self,
    {
        match self {
            Tree::Nil => Seq::empty(),
            Tree::Node { key, value, left, right } =>
                left.inorder() + seq![(key, value)] + right.inorder(),
        }
    }

    /// Entries in left-right-root order.
    pub open spec fn postorder(self) -> Seq<(u64, V)>
        decreases self,
    {
        match self {
            Tree::Nil => Seq::empty(),
            Tree::Node { key, value, left, right } =>
                left.postorder() + right.postorder() + seq![(key, value)],
        }
    }

    /// Entries in breadth-first order: root first, then each level left to
    /// right.
    pub open spec fn levelorder(self) -> Seq<(u64, V)> {
        level_seq(seq![self])
    }
}


/// The non-empty subtrees directly below the root of `t`, left to right.
pub open spec fn children_of<V>(t: Tree<V>) -> Seq<Tree<V>> {
    match t {
        Tree::Nil => Seq::empty(),
        Tree::Node { left, right, .. } =>
            (if *left is Nil { Seq::empty() } else { seq![*left] })
                + (if *right is Nil { Seq::empty() } else { seq![*right] }),
    }
}

/// Total number of entries in a queue of trees.
pub open spec fn forest_size<V>(q: Seq<Tree<V>>) -> nat
    decreases q.len(),
{
    if q.len() == 0 {
        0
    } else {
        q[0].size() + forest_size(q.drop_first())
    }
}

/// `forest_size` adds up over concatenation.
pub proof fn lemma_forest_size_concat<V>(a: Seq<Tree<V>>, b: Seq<Tree<V>>)
    ensures
        forest_size(a + b) == forest_size(a) + forest_size(b),
    decreases a.len(),
{
    if a.len() == 0 {
        assert(a + b =~= b);
    } else {
        assert((a + b).drop_first() =~= a.drop_first() + b);
        lemma_forest_size_concat(a.drop_first(), b);
    }
}

/// The children of a node carry one entry fewer than the node's tree.
pub proof fn lemma_children_size<V>(t: Tree<V>)
    requires
        t is Node,
    ensures
        forest_size(children_of(t)) + 1 == t.size(),
{
    match t {
        Tree::Nil => {}
        Tree::Node { left, right, .. } => {
            assert(forest_size(Seq::<Tree<V>>::empty()) == 0);
            if *left is Nil {
                assert(left.size() == 0);
            } else {
                assert(seq![*left].drop_first() =~= Seq::<Tree<V>>::empty());
                assert(forest_size(seq![*left]) == left.size() + forest_size(
                    seq![*left].drop_first(),
                ));
            }
            if *right is Nil {
                assert(right.size() == 0);
            } else {
                assert(seq![*right].drop_first() =~= Seq::<Tree<V>>::empty());
                assert(forest_size(seq![*right]) == right.size() + forest_size(
                    seq![*right].drop_first(),
                ));
            }
            lemma_forest_size_concat(
                if *left is Nil { Seq::empty() } else { seq![*left] },
                if *right is Nil { Seq::empty() } else { seq![*right] },
            );
        }
    }
}

/// The entries of a queue of trees in breadth-first order: the front tree's
/// root first, its children queued at the back.
pub open spec fn level_seq<V>(q: Seq<Tree<V>>) -> Seq<(u64, V)>
    decreases forest_size(q), q.len(),
    via level_seq_decreases::<V>
{
    if q.len() == 0 {
        Seq::empty()
    } else {
        match q[0] {
            Tree::Nil => level_seq(q.drop_first()),
            Tree::Node { key, value, .. } =>
                seq![(key, value)] + level_seq(q.drop_first() + children_of(q[0])),
        }
    }
}

#[via_fn]
proof fn level_seq_decreases<V>(q: Seq<Tree<V>>)
{
    if q.len() > 0 {
        match q[0] {
            Tree::Nil => {
                assert(forest_size(q) == q[0].size() + forest_size(q.drop_first()));
            }
            Tree::Node { .. } => {
                lemma_forest_size_concat(q.drop_first(), children_of(q[0]));
                lemma_children_size(q[0]);
                assert(forest_size(q) == q[0].size() + forest_size(q.drop_first()));
            }
        }
    }
}

/// The keys of a sequence of entries, in the same order.
pub open spec fn entry_keys<V>(s: Seq<(u64, V)>) -> Seq<u64> {
    s.map_values(|p: (u64, V)| p.0)
}

/// A node that carries an entry also carries its key.
pub broadcast proof fn lemma_has_entry_contains<V>(t: Tree<V>, k: u64, v: V)
    ensures
        #[trigger] t.has_entry(k, v) ==> t.contains_key(k),
    decreases t,
{
    match t {
        Tree::Nil => {}
        Tree::Node { left, right, .. } => {
            lemma_has_entry_contains(*left, k, v);
            lemma_has_entry_contains(*right, k, v);
        }
    }
}

/// Taking keys commutes with concatenation.
pub broadcast proof fn lemma_entry_keys_concat<V>(a: Seq<(u64, V)>, b: Seq<(u64, V)>)
    ensures
        #[trigger] entry_keys(a + b) == entry_keys(a) + entry_keys(b),
{
    assert(entry_keys(a + b) =~= entry_keys(a) + entry_keys(b));
}

/// The key sequence of a single entry.
pub proof fn lemma_entry_keys_single<V>(p: (u64, V))
    ensures
        entry_keys(seq![p]) == seq![p.0],
{
    assert(entry_keys(seq![p]) =~= seq![p.0]);
}

/// Per-key form of the lookup bridge: binary search agrees with the
/// structural presence predicates.
proof fn lemma_lookup_at<V>(t: Tree<V>, k2: u64, v2: V)
    requires
        t.wf(),
    ensures
        t.contains_key(k2) <==> t.lookup(k2) is Some,
        t.has_entry(k2, v2) <==> t.lookup(k2) == Some(v2),
    decreases t,
{
    broadcast use lemma_has_entry_contains;

    match t {
        Tree::Nil => {}
        Tree::Node { key, value, left, right } => {
            lemma_lookup_at(*left, k2, v2);
            lemma_lookup_at(*right, k2, v2);
            if left.contains_key(k2) {
                assert(k2 < key);
            }
            if right.contains_key(k2) {
                assert(k2 > key);
            }
        }
    }
}

/// On a well-formed tree, binary search finds exactly the entries that the
/// tree carries.
pub proof fn lemma_lookup_entries<V>(t: Tree<V>)
    requires
        t.wf(),
    ensures
        forall|k: u64| #[trigger] t.contains_key(k) <==> t.lookup(k) is Some,
        forall|k: u64, v: V| #[trigger] t.has_entry(k, v) <==> t.lookup(k) == Some(v),
{
    assert forall|k: u64| #[trigger] t.contains_key(k) <==> t.lookup(k) is Some by {
        lemma_lookup_at(t, k, arbitrary::<V>());
    }
    assert forall|k: u64, v: V| #[trigger] t.has_entry(k, v) <==> t.lookup(k) == Some(v) by {
        lemma_lookup_at(t, k, v);
    }
}

/// Per-key form of what `put` does to presence.
proof fn lemma_put_at<V>(t: Tree<V>, k: u64, v: V, k2: u64, v2: V)
    requires
        t.wf(),
    ensures
        t.put(k, v).contains_key(k2) <==> (k2 == k || t.contains_key(k2)),
        t.put(k, v).has_entry(k2, v2) <==> (if k2 == k { v2 == v } else { t.has_entry(k2, v2) }),
    decreases t,
{
    broadcast use lemma_has_entry_contains;

    match t {
        Tree::Nil => {
            assert(!Tree::<V>::Nil.contains_key(k2));
            assert(!Tree::<V>::Nil.has_entry(k2, v2));
        }
        Tree::Node { key, value, left, right } => {
            if k < key {
                lemma_put_at(*left, k, v, k2, v2);
            } else if k > key {
                lemma_put_at(*right, k, v, k2, v2);
            }
            if left.contains_key(k2) {
                assert(k2 < key);
            }
            if right.contains_key(k2) {
                assert(k2 > key);
            }
            if left.has_entry(k2, v2) {
                assert(left.contains_key(k2));
            }
            if right.has_entry(k2, v2) {
                assert(right.contains_key(k2));
            }
        }
    }
}

/// The ordering invariant and node count after `put`.
proof fn lemma_put_wf_size<V>(t: Tree<V>, k: u64, v: V)
    requires
        t.wf(),
    ensures
        t.put(k, v).wf(),
        t.put(k, v).size() == if t.contains_key(k) { t.size() } else { t.size() + 1 },
    decreases t,
{
    match t {
        Tree::Nil => {}
        Tree::Node { key, value, left, right } => {
            if k < key {
                lemma_put_wf_size(*left, k, v);
                assert forall|x: u64| #[trigger] left.put(k, v).contains_key(x) implies x < key by {
                    lemma_put_at(*left, k, v, x, arbitrary::<V>());
                }
                if right.contains_key(k) {
                    assert(k > key);
                }
                assert(t.contains_key(k) == left.contains_key(k));
            } else if k > key {
                lemma_put_wf_size(*right, k, v);
                assert forall|x: u64| #[trigger] right.put(k, v).contains_key(x) implies x > key by {
                    lemma_put_at(*right, k, v, x, arbitrary::<V>());
                }
                if left.contains_key(k) {
                    assert(k < key);
                }
                assert(t.contains_key(k) == right.contains_key(k));
            }
        }
    }
}

/// What `put` does: the ordering invariant is kept, the entry `(k, v)` is
/// present afterwards, every other entry is untouched, and the node count
/// grows exactly when `k` was absent.
pub proof fn lemma_put<V>(t: Tree<V>, k: u64, v: V)
    requires
        t.wf(),
    ensures
        t.put(k, v).wf(),
        forall|k2: u64| #[trigger] t.put(k, v).contains_key(k2) <==> (k2 == k || t.contains_key(k2)),
        forall|k2: u64, v2: V| #[trigger] t.put(k, v).has_entry(k2, v2)
            <==> (if k2 == k { v2 == v } else { t.has_entry(k2, v2) }),
        t.put(k, v).size() == if t.contains_key(k) { t.size() } else { t.size() + 1 },
{
    lemma_put_wf_size(t, k, v);
    assert forall|k2: u64| #[trigger] t.put(k, v).contains_key(k2) <==> (k2 == k || t.contains_key(k2)) by {
        lemma_put_at(t, k, v, k2, arbitrary::<V>());
    }
    assert forall|k2: u64, v2: V| #[trigger] t.put(k, v).has_entry(k2, v2)
        <==> (if k2 == k { v2 == v } else { t.has_entry(k2, v2) }) by {
        lemma_put_at(t, k, v, k2, v2);
    }
}

/// Per-key form of what `split_min` leaves behind.
proof fn lemma_split_min_at<V>(t: Tree<V>, k2: u64, v2: V)
    requires
        t.wf(),
        t is Node,
    ensures
        t.split_min().0.contains_key(k2) <==> (t.contains_key(k2) && k2 != t.split_min().1.0),
        t.split_min().0.has_entry(k2, v2) <==> (t.has_entry(k2, v2) && k2 != t.split_min().1.0),
        t.has_entry(t.split_min().1.0, t.split_min().1.1),
        forall|x: u64| #[trigger] t.contains_key(x) ==> t.split_min().1.0 <= x,
    decreases t,
{
    broadcast use lemma_has_entry_contains;

    match t {
        Tree::Nil => {}
        Tree::Node { key, value, left, right } => {
            if *left is Nil {
                assert(t.split_min() == ((*right, (key, value))));
                assert(!left.contains_key(k2));
                assert(!left.has_entry(k2, v2));
                assert forall|x: u64| #[trigger] t.contains_key(x) implies t.split_min().1.0 <= x by {
                    assert(!left.contains_key(x));
                    if right.contains_key(x) {
                        assert(x > key);
                    }
                }
                if right.contains_key(k2) {
                    assert(k2 > key);
                }
            } else {
                lemma_split_min_at(*left, k2, v2);
                let m = left.split_min().1;
                assert(t.split_min() == ((
                    Tree::Node { key, value, left: Box::new(left.split_min().0), right },
                    m,
                )));
                assert(left.has_entry(m.0, m.1));
                assert(left.contains_key(m.0));
                assert(m.0 < key);
                assert forall|x: u64| #[trigger] t.contains_key(x) implies t.split_min().1.0 <= x by {
                    if x == key {
                    } else if left.contains_key(x) {
                    } else if right.contains_key(x) {
                        assert(x > key);
                    }
                }
                if left.contains_key(k2) {
                    assert(k2 < key);
                }
                if right.contains_key(k2) {
                    assert(k2 > key);
                }
                if left.has_entry(k2, v2) {
                    assert(left.contains_key(k2));
                }
                if right.has_entry(k2, v2) {
                    assert(right.contains_key(k2));
                }
            }
        }
    }
}

/// The ordering invariant and node count after `split_min`.
proof fn lemma_split_min_wf_size<V>(t: Tree<V>)
    requires
        t.wf(),
        t is Node,
    ensures
        t.split_min().0.wf(),
        t.split_min().0.size() + 1 == t.size(),
    decreases t,
{
    match t {
        Tree::Nil => {}
        Tree::Node { key, value, left, right } => {
            if *left is Nil {
                assert(t.split_min() == ((*right, (key, value))));
                assert(left.size() == 0);
            } else {
                lemma_split_min_wf_size(*left);
                assert(t.split_min() == ((
                    Tree::Node { key, value, left: Box::new(left.split_min().0), right },
                    left.split_min().1,
                )));
                assert forall|x: u64| #[trigger] left.split_min().0.contains_key(x) implies x < key by {
                    lemma_split_min_at(*left, x, arbitrary::<V>());
                }
            }
        }
    }
}

/// What `split_min` does on a non-empty well-formed tree: it takes out
/// exactly one entry, the one with the least key.
pub proof fn lemma_split_min<V>(t: Tree<V>)
    requires
        t.wf(),
        t is Node,
    ensures
        t.split_min().0.wf(),
        t.has_entry(t.split_min().1.0, t.split_min().1.1),
        t.contains_key(t.split_min().1.0),
        forall|k2: u64| #[trigger] t.contains_key(k2) ==> t.split_min().1.0 <= k2,
        forall|k2: u64| #[trigger] t.split_min().0.contains_key(k2)
            <==> (t.contains_key(k2) && k2 != t.split_min().1.0),
        forall|k2: u64, v2: V| #[trigger] t.split_min().0.has_entry(k2, v2)
            <==> (t.has_entry(k2, v2) && k2 != t.split_min().1.0),
        t.split_min().0.size() + 1 == t.size(),
{
    broadcast use lemma_has_entry_contains;

    lemma_split_min_wf_size(t);
    lemma_split_min_at(t, 0, arbitrary::<V>());
    assert forall|k2: u64| #[trigger] t.split_min().0.contains_key(k2)
        <==> (t.contains_key(k2) && k2 != t.split_min().1.0) by {
        lemma_split_min_at(t, k2, arbitrary::<V>());
    }
    assert forall|k2: u64, v2: V| #[trigger] t.split_min().0.has_entry(k2, v2)
        <==> (t.has_entry(k2, v2) && k2 != t.split_min().1.0) by {
        lemma_split_min_at(t, k2, v2);
    }
}

/// What `join` does when every key on the left is below every key on the
/// right: the union of the entries, in a well-formed tree.
pub proof fn lemma_join<V>(l: Tree<V>, r: Tree<V>)
    requires
        l.wf(),
        r.wf(),
        forall|ka: u64, kb: u64| #[trigger] l.contains_key(ka) && #[trigger] r.contains_key(kb) ==> ka < kb,
    ensures
        Tree::join(l, r).wf(),
        forall|k2: u64| #[trigger] Tree::join(l, r).contains_key(k2)
            <==> (l.contains_key(k2) || r.contains_key(k2)),
        forall|k2: u64, v2: V| #[trigger] Tree::join(l, r).has_entry(k2, v2)
            <==> (l.has_entry(k2, v2) || r.has_entry(k2, v2)),
        Tree::join(l, r).size() == l.size() + r.size(),
{
    broadcast use lemma_has_entry_contains;

    if l is Nil {
    } else if r is Nil {
    } else {
        lemma_split_min(r);
        let m = r.split_min().1;
        let rest = r.split_min().0;
        assert(Tree::join(l, r) == (Tree::Node {
            key: m.0,
            value: m.1,
            left: Box::new(l),
            right: Box::new(rest),
        }));
        assert(r.contains_key(m.0));
        assert forall|x: u64| #[trigger] l.contains_key(x) implies x < m.0 by {}
        assert forall|x: u64| #[trigger] rest.contains_key(x) implies x > m.0 by {}
        assert forall|k2: u64| #[trigger] Tree::join(l, r).contains_key(k2)
            <==> (l.contains_key(k2) || r.contains_key(k2)) by {
            assert(rest.contains_key(k2) <==> (r.contains_key(k2) && k2 != m.0));
        }
        assert forall|k2: u64, v2: V| #[trigger] Tree::join(l, r).has_entry(k2, v2)
            <==> (l.has_entry(k2, v2) || r.has_entry(k2, v2)) by {
            assert(rest.has_entry(k2, v2) <==> (r.has_entry(k2, v2) && k2 != m.0));
            assert(r.has_entry(m.0, m.1));
            if l.has_entry(k2, v2) {
                assert(l.contains_key(k2));
            }
            if r.has_entry(k2, v2) {
                assert(r.contains_key(k2));
                if k2 == m.0 {
                    lemma_lookup_at(r, k2, v2);
                    lemma_lookup_at(r, m.0, m.1);
                }
            }
        }
    }
}

/// Per-key form of what `del` does to presence.
proof fn lemma_del_at<V>(t: Tree<V>, k: u64, k2: u64, v2: V)
    requires
        t.wf(),
    ensures
        t.del(k).contains_key(k2) <==> (t.contains_key(k2) && k2 != k),
        t.del(k).has_entry(k2, v2) <==> (t.has_entry(k2, v2) && k2 != k),
    decreases t,
{
    broadcast use lemma_has_entry_contains;

    match t {
        Tree::Nil => {}
        Tree::Node { key, value, left, right } => {
            if k < key {
                lemma_del_at(*left, k, k2, v2);
            } else if k > key {
                lemma_del_at(*right, k, k2, v2);
            } else {
                assert forall|ka: u64, kb: u64|
                    #[trigger] left.contains_key(ka) && #[trigger] right.contains_key(kb)
                    implies ka < kb by {}
                lemma_join(*left, *right);
            }
            if left.contains_key(k2) {
                assert(k2 < key);
            }
            if right.contains_key(k2) {
                assert(k2 > key);
            }
            if left.contains_key(k) {
                assert(k < key);
            }
            if right.contains_key(k) {
                assert(k > key);
            }
        }
    }
}

/// The ordering invariant and node count after `del`.
proof fn lemma_del_wf_size<V>(t: Tree<V>, k: u64)
    requires
        t.wf(),
    ensures
        t.del(k).wf(),
        t.contains_key(k) ==> t.del(k).size() + 1 == t.size(),
        !t.contains_key(k) ==> t.del(k) == t,
    decreases t,
{
    match t {
        Tree::Nil => {}
        Tree::Node { key, value, left, right } => {
            if k < key {
                lemma_del_wf_size(*left, k);
                assert forall|x: u64| #[trigger] left.del(k).contains_key(x) implies x < key by {
                    lemma_del_at(*left, k, x, arbitrary::<V>());
                }
                if right.contains_key(k) {
                    assert(k > key);
                }
                assert(t.contains_key(k) == left.contains_key(k));
            } else if k > key {
                lemma_del_wf_size(*right, k);
                assert forall|x: u64| #[trigger] right.del(k).contains_key(x) implies x > key by {
                    lemma_del_at(*right, k, x, arbitrary::<V>());
                }
                if left.contains_key(k) {
                    assert(k < key);
                }
                assert(t.contains_key(k) == right.contains_key(k));
            } else {
                assert forall|ka: u64, kb: u64|
                    #[trigger] left.contains_key(ka) && #[trigger] right.contains_key(kb)
                    implies ka < kb by {}
                lemma_join(*left, *right);
            }
        }
    }
}

/// What `del` does: key `k` is gone, every other entry is untouched, a
/// tree without `k` comes back unchanged, and the node count shrinks
/// exactly when `k` was present.
pub proof fn lemma_del<V>(t: Tree<V>, k: u64)
    requires
        t.wf(),
    ensures
        t.del(k).wf(),
        forall|k2: u64| #[trigger] t.del(k).contains_key(k2) <==> (t.contains_key(k2) && k2 != k),
        forall|k2: u64, v2: V| #[trigger] t.del(k).has_entry(k2, v2)
            <==> (t.has_entry(k2, v2) && k2 != k),
        t.contains_key(k) ==> t.del(k).size() + 1 == t.size(),
        !t.contains_key(k) ==> t.del(k) == t,
{
    lemma_del_wf_size(t, k);
    assert forall|k2: u64| #[trigger] t.del(k).contains_key(k2) <==> (t.contains_key(k2) && k2 != k) by {
        lemma_del_at(t, k, k2, arbitrary::<V>());
    }
    assert forall|k2: u64, v2: V| #[trigger] t.del(k).has_entry(k2, v2)
        <==> (t.has_entry(k2, v2) && k2 != k) by {
        lemma_del_at(t, k, k2, v2);
    }
}

/// Per-key form of how `pruned` and `branch` part the entries.
proof fn lemma_excision_at<V>(t: Tree<V>, k: u64, k2: u64, v2: V)
    requires
        t.wf(),
    ensures
        t.contains_key(k2) <==> (t.pruned(k).contains_key(k2) || t.branch(k).contains_key(k2)),
        !(t.pruned(k).contains_key(k2) && t.branch(k).contains_key(k2)),
        t.has_entry(k2, v2) <==> (t.pruned(k).has_entry(k2, v2) || t.branch(k).has_entry(k2, v2)),
    decreases t,
{
    broadcast use lemma_has_entry_contains;

    match t {
        Tree::Nil => {}
        Tree::Node { key, value, left, right } => {
            if k < key {
                lemma_excision_at(*left, k, k2, v2);
                if left.branch(k).contains_key(k2) {
                    lemma_branch_contains(*left, k, k2);
                }
            } else if k > key {
                lemma_excision_at(*right, k, k2, v2);
                if right.branch(k).contains_key(k2) {
                    lemma_branch_contains(*right, k, k2);
                }
            }
            if left.contains_key(k2) {
                assert(k2 < key);
            }
            if right.contains_key(k2) {
                assert(k2 > key);
            }
        }
    }
}

/// `branch` yields a subtree, so its keys are keys of the whole tree.
proof fn lemma_branch_contains<V>(t: Tree<V>, k: u64, k2: u64)
    requires
        t.branch(k).contains_key(k2),
    ensures
        t.contains_key(k2),
    decreases t,
{
    match t {
        Tree::Nil => {}
        Tree::Node { key, left, right, .. } => {
            if k < key {
                lemma_branch_contains(*left, k, k2);
            } else if k > key {
                lemma_branch_contains(*right, k, k2);
            }
        }
    }
}

/// Well-formedness, node counts, and rootedness for `pruned` and `branch`.
proof fn lemma_excision_wf_size<V>(t: Tree<V>, k: u64)
    requires
        t.wf(),
    ensures
        t.pruned(k).wf(),
        t.branch(k).wf(),
        t.pruned(k).size() + t.branch(k).size() == t.size(),
        t.contains_key(k) ==> (t.branch(k) matches Tree::Node { key, .. } && key == k),
        !t.contains_key(k) ==> t.branch(k) is Nil && t.pruned(k) == t,
    decreases t,
{
    match t {
        Tree::Nil => {}
        Tree::Node { key, value, left, right } => {
            if k < key {
                lemma_excision_wf_size(*left, k);
                assert forall|x: u64| #[trigger] left.pruned(k).contains_key(x) implies x < key by {
                    lemma_excision_at(*left, k, x, arbitrary::<V>());
                }
                if right.contains_key(k) {
                    assert(k > key);
                }
                assert(t.contains_key(k) == left.contains_key(k));
            } else if k > key {
                lemma_excision_wf_size(*right, k);
                assert forall|x: u64| #[trigger] right.pruned(k).contains_key(x) implies x > key by {
                    lemma_excision_at(*right, k, x, arbitrary::<V>());
                }
                if left.contains_key(k) {
                    assert(k < key);
                }
                assert(t.contains_key(k) == right.contains_key(k));
            }
        }
    }
}

/// How `pruned` and `branch` part a tree: together they carry exactly the
/// original entries, no key is on both sides, and when `k` is present the
/// excised branch is rooted at `k`.
pub proof fn lemma_excision_partition<V>(t: Tree<V>, k: u64)
    requires
        t.wf(),
    ensures
        t.pruned(k).wf(),
        t.branch(k).wf(),
        forall|k2: u64| #[trigger] t.contains_key(k2)
            <==> (t.pruned(k).contains_key(k2) || t.branch(k).contains_key(k2)),
        forall|k2: u64| !(#[trigger] t.pruned(k).contains_key(k2) && t.branch(k).contains_key(k2)),
        forall|k2: u64, v2: V| #[trigger] t.has_entry(k2, v2)
            <==> (t.pruned(k).has_entry(k2, v2) || t.branch(k).has_entry(k2, v2)),
        t.contains_key(k) ==> (t.branch(k) matches Tree::Node { key, .. } && key == k),
        !t.contains_key(k) ==> t.branch(k) is Nil && t.pruned(k) == t,
        t.pruned(k).size() + t.branch(k).size() == t.size(),
    decreases t,
{
    lemma_excision_wf_size(t, k);
    assert forall|k2: u64| #[trigger] t.contains_key(k2)
        <==> (t.pruned(k).contains_key(k2) || t.branch(k).contains_key(k2)) by {
        lemma_excision_at(t, k, k2, arbitrary::<V>());
    }
    assert forall|k2: u64| !(#[trigger] t.pruned(k).contains_key(k2) && t.branch(k).contains_key(k2)) by {
        lemma_excision_at(t, k, k2, arbitrary::<V>());
    }
    assert forall|k2: u64, v2: V| #[trigger] t.has_entry(k2, v2)
        <==> (t.pruned(k).has_entry(k2, v2) || t.branch(k).has_entry(k2, v2)) by {
        lemma_excision_at(t, k, k2, v2);
    }
}

/// The leftmost entry of a non-empty well-formed tree is an entry of the
/// tree and carries its least key.
pub proof fn lemma_min_entry<V>(t: Tree<V>)
    requires
        t.wf(),
        t is Node,
    ensures
        t.has_entry(t.min_entry().0, t.min_entry().1),
        t.contains_key(t.min_entry().0),
        forall|k2: u64| #[trigger] t.contains_key(k2) ==> t.min_entry().0 <= k2,
    decreases t,
{
    broadcast use lemma_has_entry_contains;

    match t {
        Tree::Nil => {}
        Tree::Node { key, value, left, right } => {
            if !(*left is Nil) {
                lemma_min_entry(*left);
                assert(left.min_entry().0 < key);
            }
            assert forall|k2: u64| #[trigger] t.contains_key(k2) implies t.min_entry().0 <= k2 by {
                if left.contains_key(k2) {
                    assert(k2 < key);
                } else if right.contains_key(k2) {
                    assert(k2 > key);
                }
            }
        }
    }
}

/// The rightmost entry of a non-empty well-formed tree is an entry of the
/// tree and carries its greatest key.
pub proof fn lemma_max_entry<V>(t: Tree<V>)
    requires
        t.wf(),
        t is Node,
    ensures
        t.has_entry(t.max_entry().0, t.max_entry().1),
        t.contains_key(t.max_entry().0),
        forall|k2: u64| #[trigger] t.contains_key(k2) ==> t.max_entry().0 >= k2,
    decreases t,
{
    broadcast use lemma_has_entry_contains;

    match t {
        Tree::Nil => {}
        Tree::Node { key, value, left, right } => {
            if !(*right is Nil) {
                lemma_max_entry(*right);
                assert(right.max_entry().0 > key);
            }
            assert forall|k2: u64| #[trigger] t.contains_key(k2) implies t.max_entry().0 >= k2 by {
                if left.contains_key(k2) {
                    assert(k2 < key);
                } else if right.contains_key(k2) {
                    assert(k2 > key);
                }
            }
        }
    }
}


/// Every pair listed by `preorder` is an entry of the tree, and the listing
/// is as long as the tree is large.
pub proof fn lemma_preorder_entries<V>(t: Tree<V>)
    ensures
        t.preorder().len() == t.size(),
        forall|i: int| 0 <= i < t.preorder().len()
            ==> #[trigger] t.has_entry(t.preorder()[i].0, t.preorder()[i].1),
    decreases t,
{
    match t {
        Tree::Nil => {}
        Tree::Node { key, value, left, right } => {
            lemma_preorder_entries(*left);
            lemma_preorder_entries(*right);
            let lp = left.preorder();
            let rp = right.preorder();
            assert(t.preorder() == seq![(key, value)] + lp + rp);
            assert forall|i: int| 0 <= i < t.preorder().len()
                implies #[trigger] t.has_entry(t.preorder()[i].0, t.preorder()[i].1) by {
                if i == 0 {
                    assert(t.preorder()[i] == (key, value));
                } else if i < 1 + lp.len() {
                    assert(t.preorder()[i] == lp[i - 1]);
                    assert(left.has_entry(lp[i - 1].0, lp[i - 1].1));
                } else {
                    assert(t.preorder()[i] == rp[i - 1 - lp.len()]);
                    assert(right.has_entry(rp[i - 1 - lp.len()].0, rp[i - 1 - lp.len()].1));
                }
            }
        }
    }
}

/// Every pair listed by `inorder` is an entry of the tree, and the listing
/// is as long as the tree is large.
pub proof fn lemma_inorder_entries<V>(t: Tree<V>)
    ensures
        t.inorder().len() == t.size(),
        forall|i: int| 0 <= i < t.inorder().len()
            ==> #[trigger] t.has_entry(t.inorder()[i].0, t.inorder()[i].1),
    decreases t,
{
    match t {
        Tree::Nil => {}
        Tree::Node { key, value, left, right } => {
            lemma_inorder_entries(*left);
            lemma_inorder_entries(*right);
            let lp = left.inorder();
            let rp = right.inorder();
            assert(t.inorder() == lp + seq![(key, value)] + rp);
            assert forall|i: int| 0 <= i < t.inorder().len()
                implies #[trigger] t.has_entry(t.inorder()[i].0, t.inorder()[i].1) by {
                if i < lp.len() {
                    assert(t.inorder()[i] == lp[i]);
                    assert(left.has_entry(lp[i].0, lp[i].1));
                } else if i == lp.len() {
                    assert(t.inorder()[i] == (key, value));
                } else {
                    assert(t.inorder()[i] == rp[i - 1 - lp.len()]);
                    assert(right.has_entry(rp[i - 1 - lp.len()].0, rp[i - 1 - lp.len()].1));
                }
            }
        }
    }
}

/// Every pair listed by `postorder` is an entry of the tree, and the
/// listing is as long as the tree is large.
pub proof fn lemma_postorder_entries<V>(t: Tree<V>)
    ensures
        t.postorder().len() == t.size(),
        forall|i: int| 0 <= i < t.postorder().len()
            ==> #[trigger] t.has_entry(t.postorder()[i].0, t.postorder()[i].1),
    decreases t,
{
    match t {
        Tree::Nil => {}
        Tree::Node { key, value, left, right } => {
            lemma_postorder_entries(*left);
            lemma_postorder_entries(*right);
            let lp = left.postorder();
            let rp = right.postorder();
            assert(t.postorder() == lp + rp + seq![(key, value)]);
            assert forall|i: int| 0 <= i < t.postorder().len()
                implies #[trigger] t.has_entry(t.postorder()[i].0, t.postorder()[i].1) by {
                if i < lp.len() {
                    assert(t.postorder()[i] == lp[i]);
                    assert(left.has_entry(lp[i].0, lp[i].1));
                } else if i < lp.len() + rp.len() {
                    assert(t.postorder()[i] == rp[i - lp.len()]);
                    assert(right.has_entry(rp[i - lp.len()].0, rp[i - lp.len()].1));
                } else {
                    assert(t.postorder()[i] == (key, value));
                }
            }
        }
    }
}

/// Every pair listed breadth-first from the queue `q` is an entry of some
/// tree whose entries all belong to `t`.
proof fn lemma_level_seq_entries<V>(q: Seq<Tree<V>>, t: Tree<V>)
    requires
        forall|j: int, k: u64, v: V| 0 <= j < q.len() && #[trigger] q[j].has_entry(k, v)
            ==> t.has_entry(k, v),
    ensures
        forall|i: int| 0 <= i < level_seq(q).len()
            ==> #[trigger] t.has_entry(level_seq(q)[i].0, level_seq(q)[i].1),
    decreases forest_size(q), q.len(),
{
    if q.len() == 0 {
    } else {
        match q[0] {
            Tree::Nil => {
                assert(forest_size(q) == q[0].size() + forest_size(q.drop_first()));
                assert forall|j: int, k: u64, v: V|
                    0 <= j < q.drop_first().len() && #[trigger] q.drop_first()[j].has_entry(k, v)
                    implies t.has_entry(k, v) by {
                    assert(q[j + 1].has_entry(k, v));
                }
                lemma_level_seq_entries(q.drop_first(), t);
                assert(level_seq(q) == level_seq(q.drop_first()));
            }
            Tree::Node { key, value, left, right } => {
                let q2 = q.drop_first() + children_of(q[0]);
                lemma_forest_size_concat(q.drop_first(), children_of(q[0]));
                lemma_children_size(q[0]);
                assert(forest_size(q) == q[0].size() + forest_size(q.drop_first()));
                assert forall|j: int, k: u64, v: V|
                    0 <= j < q2.len() && #[trigger] q2[j].has_entry(k, v)
                    implies t.has_entry(k, v) by {
                    if j < q.drop_first().len() {
                        assert(q2[j] == q[j + 1]);
                        assert(q[j + 1].has_entry(k, v));
                    } else {
                        let c = children_of(q[0]);
                        let jj = j - q.drop_first().len();
                        assert(q2[j] == c[jj]);
                        assert(c[jj] == *left || c[jj] == *right);
                        assert(q[0].has_entry(k, v));
                    }
                }
                lemma_level_seq_entries(q2, t);
                assert(level_seq(q) == seq![(key, value)] + level_seq(q2));
                assert forall|i: int| 0 <= i < level_seq(q).len()
                    implies #[trigger] t.has_entry(level_seq(q)[i].0, level_seq(q)[i].1) by {
                    if i == 0 {
                        assert(level_seq(q)[i] == (key, value));
                        assert(q[0].has_entry(key, value));
                    } else {
                        assert(level_seq(q)[i] == level_seq(q2)[i - 1]);
                        assert(t.has_entry(level_seq(q2)[i - 1].0, level_seq(q2)[i - 1].1));
                    }
                }
            }
        }
    }
}

/// Every pair listed by `levelorder` is an entry of the tree.
pub proof fn lemma_levelorder_entries<V>(t: Tree<V>)
    ensures
        forall|i: int| 0 <= i < t.levelorder().len()
            ==> #[trigger] t.has_entry(t.levelorder()[i].0, t.levelorder()[i].1),
{
    assert forall|j: int, k: u64, v: V| 0 <= j < seq![t].len() && #[trigger] seq![t][j].has_entry(k, v)
        implies t.has_entry(k, v) by {
        assert(seq![t][j] == t);
    }
    lemma_level_seq_entries(seq![t], t);
}

/// The defining property of a search tree: an inorder walk lists the keys
/// in strictly ascending order.
pub proof fn lemma_inorder_ascending<V>(t: Tree<V>)
    requires
        t.wf(),
    ensures
        forall|i: int, j: int| 0 <= i < j < t.inorder().len()
            ==> #[trigger] t.inorder()[i].0 < #[trigger] t.inorder()[j].0,
    decreases t,
{
    broadcast use lemma_has_entry_contains;

    match t {
        Tree::Nil => {}
        Tree::Node { key, value, left, right } => {
            lemma_inorder_ascending(*left);
            lemma_inorder_ascending(*right);
            lemma_inorder_entries(*left);
            lemma_inorder_entries(*right);
            let lp = left.inorder();
            let rp = right.inorder();
            assert(t.inorder() == lp + seq![(key, value)] + rp);
            assert forall|i: int, j: int| 0 <= i < j < t.inorder().len()
                implies #[trigger] t.inorder()[i].0 < #[trigger] t.inorder()[j].0 by {
                if i < lp.len() {
                    assert(t.inorder()[i] == lp[i]);
                    assert(left.has_entry(lp[i].0, lp[i].1));
                    assert(left.contains_key(lp[i].0));
                    assert(lp[i].0 < key);
                } else if i == lp.len() {
                    assert(t.inorder()[i] == (key, value));
                } else {
                    assert(t.inorder()[i] == rp[i - 1 - lp.len()]);
                    assert(right.has_entry(rp[i - 1 - lp.len()].0, rp[i - 1 - lp.len()].1));
                    assert(right.contains_key(rp[i - 1 - lp.len()].0));
                }
                if j < lp.len() {
                    assert(t.inorder()[j] == lp[j]);
                } else if j == lp.len() {
                    assert(t.inorder()[j] == (key, value));
                } else {
                    assert(t.inorder()[j] == rp[j - 1 - lp.len()]);
                    assert(right.has_entry(rp[j - 1 - lp.len()].0, rp[j - 1 - lp.len()].1));
                    assert(right.contains_key(rp[j - 1 - lp.len()].0));
                    assert(rp[j - 1 - lp.len()].0 > key);
                }
            }
        }
    }
}

/// Inserting at a key that is already present keeps the node count and the
/// key set, and replaces only that key's value.
pub proof fn lemma_put_overwrite<V>(t: Tree<V>, k: u64, v: V)
    requires
        t.wf(),
        t.contains_key(k),
    ensures
        t.put(k, v).size() == t.size(),
        t.put(k, v).has_entry(k, v),
        forall|k2: u64| #[trigger] t.put(k, v).contains_key(k2) <==> t.contains_key(k2),
        forall|k2: u64, v2: V| k2 != k
            ==> (#[trigger] t.put(k, v).has_entry(k2, v2) <==> t.has_entry(k2, v2)),
{
    lemma_put(t, k, v);
    assert forall|k2: u64, v2: V| k2 != k
        implies (#[trigger] t.put(k, v).has_entry(k2, v2) <==> t.has_entry(k2, v2)) by {
        assert(t.put(k, v).has_entry(k2, v2) <==> (if k2 == k { v2 == v } else { t.has_entry(k2, v2) }));
    }
}

/// Deleting a key leaves every other key reachable and removes that key.
pub proof fn lemma_del_keeps_rest<V>(t: Tree<V>, k: u64)
    requires
        t.wf(),
    ensures
        !t.del(k).contains_key(k),
        forall|k2: u64| k2 != k
            ==> (#[trigger] t.del(k).contains_key(k2) <==> t.contains_key(k2)),
        forall|k2: u64, v2: V| k2 != k
            ==> (#[trigger] t.del(k).has_entry(k2, v2) <==> t.has_entry(k2, v2)),
{
    lemma_del(t, k);
}

/// After pruning the branch at `k`, neither `k` nor any key of that branch
/// is reachable.
pub proof fn lemma_pruned_removes_branch<V>(t: Tree<V>, k: u64)
    requires
        t.wf(),
    ensures
        forall|k2: u64| #[trigger] t.branch(k).contains_key(k2) ==> !t.pruned(k).contains_key(k2),
        t.contains_key(k) ==> !t.pruned(k).contains_key(k),
{
    lemma_excision_partition(t, k);
    if t.contains_key(k) {
        assert(t.branch(k) matches Tree::Node { key, .. } && key == k);
        assert(t.branch(k).contains_key(k));
    }
}

} // verus!
