//! Nodes of the iterative engine, and the saved-path machinery that its
//! loops use in place of the call stack.

use vstd::prelude::*;
use crate::model::Tree;

verus! {

pub type Link<V> = Option<Box<Node<V>>>;

pub struct Node<V> {
    pub key: u64,
    pub value: V,
    pub left: Link<V>,
    pub right: Link<V>,
}

/// The model tree hanging off an optional child link.
pub open spec fn link_view<V>(l: Link<V>) -> Tree<V>
    decreases l,
{
    match l {
        None => Tree::Nil,
        Some(n) => Tree::Node {
            key: n.key,
            value: n.value,
            left: Box::new(link_view(n.left)),
            right: Box::new(link_view(n.right)),
        },
    }
}

impl<V> Node<V> {
    /// The model tree rooted at this node.
    pub open spec fn as_tree(self) -> Tree<V> {
        Tree::Node {
            key: self.key,
            value: self.value,
            left: Box::new(link_view(self.left)),
            right: Box::new(link_view(self.right)),
        }
    }
}

impl<V> View for Node<V> {
    type V = Tree<V>;

    open spec fn view(&self) -> Tree<V> {
        self.as_tree()
    }
}

/// The model trees of a queue of borrowed nodes.
pub open spec fn views_of<V>(q: Seq<&Node<V>>) -> Seq<Tree<V>> {
    q.map_values(|n: &Node<V>| n.as_tree())
}

/// One node of the path walked down so far: its entry, which side was
/// taken, and the child that was left behind.
pub(crate) struct PathFrame<V> {
    pub key: u64,
    pub value: V,
    pub went_left: bool,
    pub other: Link<V>,
}

/// Puts one saved node back above the subtree `t`.
pub(crate) open spec fn attach<V>(f: PathFrame<V>, t: Tree<V>) -> Tree<V> {
    if f.went_left {
        Tree::Node {
            key: f.key,
            value: f.value,
            left: Box::new(t),
            right: Box::new(link_view(f.other)),
        }
    } else {
        Tree::Node {
            key: f.key,
            value: f.value,
            left: Box::new(link_view(f.other)),
            right: Box::new(t),
        }
    }
}

/// Puts a whole saved path back above the subtree `t`, innermost frame
/// first.
pub(crate) open spec fn rebuild<V>(path: Seq<PathFrame<V>>, t: Tree<V>) -> Tree<V>
    decreases path.len(),
{
    if path.len() == 0 {
        t
    } else {
        rebuild(path.drop_last(), attach(path.last(), t))
    }
}

impl<V> Node<V> {
    pub fn new(key: u64, value: V) -> (n: Self)
        ensures
            n@ == (Tree::Node {
                key,
                value,
                left: Box::new(Tree::<V>::Nil),
                right: Box::new(Tree::<V>::Nil),
            }),
    {
        Node { key, value, left: None, right: None }
    }

    /// Reattaches the saved path around `cur`, innermost frame first.
    pub(crate) fn reassemble(path: Vec<PathFrame<V>>, cur: Link<V>) -> (r: Link<V>)
        ensures
            link_view(r) == rebuild(path@, link_view(cur)),
    {
        let ghost target = rebuild(path@, link_view(cur));
        let mut path = path;
        let mut cur = cur;
        while path.len() > 0
            invariant
                rebuild(path@, link_view(cur)) == target,
            decreases path.len(),
        {
            let ghost p0 = path@;
            let f = path.pop().unwrap();
            proof {
                assert(p0.last() == f);
                assert(path@ =~= p0.drop_last());
            }
            let node = if f.went_left {
                Node { key: f.key, value: f.value, left: cur, right: f.other }
            } else {
                Node { key: f.key, value: f.value, left: f.other, right: cur }
            };
            let ghost before = link_view(cur);
            cur = Some(Box::new(node));
            proof {
                assert(link_view(cur) == attach(f, before));
            }
        }
        cur
    }

    /// Takes the tree apart into the tree without its leftmost node and
    /// that node, whose children are detached; the left spine is walked
    /// with an explicit stack.
    pub fn remove_min(self) -> (r: (Link<V>, Box<Node<V>>))
        ensures
            link_view(r.0) == self@.split_min().0,
            r.1.key == self@.split_min().1.0,
            r.1.value == self@.split_min().1.1,
    {
        let ghost t0 = self@;
        let mut path: Vec<PathFrame<V>> = Vec::new();
        let mut cur: Box<Node<V>> = Box::new(self);
        proof {
            assert(link_view(Some(cur)) == t0);
        }
        while cur.left.is_some()
            invariant
                link_view(Some(cur)) is Node,
                rebuild(path@, link_view(Some(cur)).split_min().0) == t0.split_min().0,
                link_view(Some(cur)).split_min().1 == t0.split_min().1,
            decreases link_view(Some(cur)).size(),
        {
            let ghost p0 = path@;
            let ghost sub = link_view(Some(cur));
            let b = cur;
            let Node { key, value, left, right } = *b;
            let lb = left.unwrap();
            let f = PathFrame { key, value, went_left: true, other: right };
            proof {
                assert(link_view(Some(lb)) is Node);
                assert(sub.split_min().0 == attach(f, link_view(Some(lb)).split_min().0));
                assert(sub.split_min().1 == link_view(Some(lb)).split_min().1);
            }
            path.push(f);
            cur = lb;
            proof {
                assert(path@.last() == f);
                assert(path@.drop_last() =~= p0);
                assert(rebuild(path@, link_view(Some(cur)).split_min().0) == rebuild(
                    p0,
                    attach(f, link_view(Some(cur)).split_min().0),
                ));
            }
        }
        proof {
            assert(link_view(cur.left) == Tree::<V>::Nil);
            assert(link_view(Some(cur)).split_min() == ((
                link_view(cur.right),
                (cur.key, cur.value),
            )));
        }
        let b = cur;
        let Node { key, value, left: _, right } = *b;
        let rest = Self::reassemble(path, right);
        (rest, Box::new(Node { key, value, left: None, right: None }))
    }

    /// Merges two subtrees whose key ranges are ordered: the least node of
    /// the right subtree becomes the root over both.
    pub fn combine_two_subtrees(left: Node<V>, right: Node<V>) -> (r: Box<Node<V>>)
        ensures
            r@ == Tree::join(left@, right@),
    {
        let ghost lt = left@;
        let ghost rt = right@;
        let (remain, min) = right.remove_min();
        let Node { key, value, .. } = *min;
        let r = Box::new(Node { key, value, left: Some(Box::new(left)), right: remain });
        proof {
            assert(lt is Node && rt is Node);
            assert(r@ == Tree::join(lt, rt));
        }
        r
    }

    /// Detaches this node, promoting a replacement chosen from its
    /// subtrees.
    pub fn delete_root(self) -> (r: Link<V>)
        ensures
            link_view(r) == self@.del_root(),
    {
        let ghost t = self@;
        let Node { left, right, .. } = self;
        match (left, right) {
            (None, None) => None,
            (Some(l), None) => {
                proof {
                    assert(link_view(Some(l)) is Node);
                }
                Some(l)
            }
            (None, Some(r2)) => {
                proof {
                    assert(link_view(Some(r2)) is Node);
                }
                Some(r2)
            }
            (Some(l), Some(r2)) => {
                proof {
                    assert(link_view(Some(l)) is Node && link_view(Some(r2)) is Node);
                }
                Some(Self::combine_two_subtrees(*l, *r2))
            }
        }
    }
}

} // verus!
