use an_ok_bstree::bstree_no_recursion;
use an_ok_bstree::bstree_recursion;
use an_ok_bstree::iterator::TraverseIter;

fn drain_chars(mut it: TraverseIter<char>) -> Vec<(u64, char)> {
    let mut res: Vec<(u64, char)> = Vec::new();
    while let Some(p) = it.next() {
        res.push(p);
    }
    res
}

const KEYS: [u64; 12] = [8, 5, 3, 2, 4, 6, 7, 15, 12, 17, 10, 14];
const VALS: [char; 12] = ['h', 'e', 'c', 'b', 'd', 'f', 'g', 'o', 'l', 'q', 'j', 'n'];

fn both_engines() -> (bstree_recursion::BSTree<char>, bstree_no_recursion::BSTree<char>) {
    let mut a = bstree_recursion::BSTree::new();
    let mut b = bstree_no_recursion::BSTree::new();
    for i in 0..KEYS.len() {
        a.insert(KEYS[i], VALS[i]);
        b.insert(KEYS[i], VALS[i]);
    }
    (a, b)
}

#[test]
fn engines_agree_on_queries() {
    let (a, b) = both_engines();
    for k in 0u64..25 {
        assert_eq!(a.contains(&k), b.contains(&k));
        assert_eq!(a.get(&k), b.get(&k));
        assert_eq!(a.get_pair(&k), b.get_pair(&k));
        assert_eq!(a.successor(&k), b.successor(&k));
        assert_eq!(a.predecessor(&k), b.predecessor(&k));
    }
    assert_eq!(a.min_pair(), b.min_pair());
    assert_eq!(a.max_pair(), b.max_pair());
    assert_eq!(a.is_empty(), b.is_empty());
}

#[test]
fn engines_agree_on_traversals() {
    let (a, b) = both_engines();
    assert_eq!(drain_chars(a.preorder_iter()), drain_chars(b.preorder_iter()));
    assert_eq!(drain_chars(a.inorder_iter()), drain_chars(b.inorder_iter()));
    assert_eq!(drain_chars(a.postorder_iter()), drain_chars(b.postorder_iter()));
    assert_eq!(drain_chars(a.levelorder_iter()), drain_chars(b.levelorder_iter()));
}

#[test]
fn engines_agree_after_mutation() {
    let (mut a, mut b) = both_engines();
    a.delete(12);
    b.delete(12);
    a.delete(8);
    b.delete(8);
    a.delete_tree(3);
    b.delete_tree(3);
    let ra = a.remove_tree(15);
    let rb = b.remove_tree(15);
    assert_eq!(drain_chars(a.inorder_iter()), drain_chars(b.inorder_iter()));
    assert_eq!(drain_chars(a.levelorder_iter()), drain_chars(b.levelorder_iter()));
    assert_eq!(drain_chars(ra.inorder_iter()), drain_chars(rb.inorder_iter()));
    // against a reference sorted-list model of the surviving keys
    assert_eq!(
        drain_chars(a.inorder_iter()),
        vec![(5, 'e'), (6, 'f'), (7, 'g'), (10, 'j')]
    );
}

#[test]
fn inorder_is_ascending() {
    let (a, b) = both_engines();
    for res in [drain_chars(a.inorder_iter()), drain_chars(b.inorder_iter())] {
        assert_eq!(res.len(), KEYS.len());
        for w in res.windows(2) {
            assert!(w[0].0 < w[1].0);
        }
    }
}

#[test]
fn insert_overwrite_keeps_keys() {
    let (mut a, _) = both_engines();
    let before: Vec<u64> = drain_chars(a.inorder_iter()).into_iter().map(|p| p.0).collect();
    a.insert(6, 'z');
    let after = drain_chars(a.inorder_iter());
    let after_keys: Vec<u64> = after.iter().map(|p| p.0).collect();
    assert_eq!(before, after_keys);
    assert_eq!(a.get(&6), Some(&'z'));
}

#[test]
fn delete_two_children_keeps_descendants() {
    // key 5 has the two children 3 and 6 in the sample tree
    let (mut a, mut b) = both_engines();
    a.delete(5);
    b.delete(5);
    assert!(!a.contains(&5));
    assert!(!b.contains(&5));
    for k in KEYS {
        if k != 5 {
            assert!(a.contains(&k));
            assert!(b.contains(&k));
        }
    }
}

#[test]
fn remove_tree_partitions_keys() {
    let (mut a, _) = both_engines();
    let rm = a.remove_tree(5);
    let kept: Vec<u64> = drain_chars(a.inorder_iter()).into_iter().map(|p| p.0).collect();
    let taken: Vec<u64> = drain_chars(rm.inorder_iter()).into_iter().map(|p| p.0).collect();
    for k in &taken {
        assert!(!kept.contains(k));
    }
    let mut union: Vec<u64> = kept.clone();
    union.extend(&taken);
    union.sort();
    let mut orig = KEYS.to_vec();
    orig.sort();
    assert_eq!(union, orig);
    // the excised tree is rooted at the requested key
    assert_eq!(drain_chars(rm.levelorder_iter())[0].0, 5);
}

#[test]
fn boundary_neighbours_iterative() {
    let (_, b) = both_engines();
    assert_eq!(b.successor(&17), None);
    assert_eq!(b.predecessor(&2), None);
    // a key that is absent still gets its bracketing neighbours
    assert_eq!(b.successor(&9), Some((10, &'j')));
    assert_eq!(b.predecessor(&9), Some((8, &'h')));
    assert_eq!(b.successor(&11), Some((12, &'l')));
    assert_eq!(b.predecessor(&13), Some((12, &'l')));
}

#[test]
fn empty_tree_iterative() {
    let mut t: bstree_no_recursion::BSTree<char> = bstree_no_recursion::BSTree::new();
    assert!(t.is_empty());
    assert_eq!(t.min_pair(), None);
    assert_eq!(t.max_pair(), None);
    assert_eq!(t.successor(&3), None);
    assert_eq!(t.predecessor(&3), None);
    t.delete(1);
    t.delete_tree(1);
    assert!(t.remove_tree(1).is_empty());
    assert!(t.is_empty());
    assert_eq!(drain_chars(t.inorder_iter()), vec![]);
    t.insert(1, 'a');
    assert!(!t.is_empty());
    assert_eq!(t.get_or(&1, &'z'), &'a');
    assert_eq!(t.get_or(&2, &'z'), &'z');
}
