use flat_tree::{Node, Tree};

fn small() -> Tree<usize, char> {
    // a
    // ├── b
    // │   └── c
    // └── d
    let mut tree = Tree::new();
    tree.push('a');
    tree.push('b');
    tree.push('c');
    tree.up();
    tree.up();
    tree.push('d');
    tree
}

fn values(nodes: &[Node<char>]) -> Vec<char> {
    nodes.iter().map(|n| n.value).collect()
}

#[test]
fn push_returns_positions_in_order() {
    let mut tree: Tree<usize, i32> = Tree::new();
    assert_eq!(tree.push(10), 0);
    assert_eq!(tree.push(20), 1);
    tree.up();
    assert_eq!(tree.push(30), 2);
    let order: Vec<i32> = tree.iter().map(|n| n.value).collect();
    assert_eq!(order, vec![10, 20, 30]);
}

#[test]
fn up_returns_new_current_node() {
    let mut tree: Tree<usize, i32> = Tree::new();
    assert_eq!(tree.up(), None);
    tree.push(0);
    tree.push(1);
    tree.push(2);
    assert_eq!(tree.up(), Some(1));
    assert_eq!(tree.up(), Some(0));
    assert_eq!(tree.up(), None);
    assert_eq!(tree.up(), None);
    assert_eq!(tree.len(), 3);
}

#[test]
fn push_after_leaving_every_node_starts_a_root() {
    let mut tree: Tree<usize, i32> = Tree::new();
    tree.push(0);
    tree.push(1);
    tree.up();
    tree.up();
    let r = tree.push(2);
    assert_eq!(tree.get(r).unwrap().parent::<usize>(), r);
    assert_eq!(tree.get(0).unwrap().num_descendants(), 1);
    assert_eq!(tree.get(0).unwrap().parent::<usize>(), 0);
    assert_eq!(tree.get(1).unwrap().parent::<usize>(), 0);
    let mut walk = tree.parents(r);
    assert!(walk.next().is_none());
    let mut kids = tree.children(0);
    assert_eq!(kids.next().map(|(k, _)| k), Some(1));
    assert!(kids.next().is_none());
}

#[test]
fn descendents_are_the_subtree_block() {
    let tree = small();
    assert_eq!(values(tree.descendents(0)), vec!['b', 'c', 'd']);
    assert_eq!(values(tree.descendents(1)), vec!['c']);
    assert_eq!(values(tree.descendents(2)), Vec::<char>::new());
    assert_eq!(values(tree.descendents(3)), Vec::<char>::new());
}

#[test]
fn out_of_range_ids_give_nothing() {
    let tree = small();
    assert!(tree.get(4).is_none());
    assert!(tree.get(usize::MAX).is_none());
    assert!(tree.descendents(4).is_empty());
    assert!(tree.descendents(usize::MAX).is_empty());
    assert!(tree.parents(usize::MAX).next().is_none());
    assert!(tree.children(4).next().is_none());
    assert!(tree.children(usize::MAX).next().is_none());
}

#[test]
fn empty_tree() {
    let tree: Tree<usize, u8> = Tree::default();
    assert!(tree.is_empty());
    assert_eq!(tree.len(), 0);
    assert!(tree.all().is_empty());
    assert!(tree.get(0).is_none());
    assert!(tree.children(0).next().is_none());
}

#[test]
fn values_change_in_place() {
    let mut tree = small();
    *tree.get_mut(1).unwrap() = 'B';
    *tree.first_mut().unwrap() = 'A';
    *tree.last_mut().unwrap() = 'D';
    assert!(tree.get_mut(9).is_none());
    assert_eq!(values(tree.all()), vec!['A', 'B', 'c', 'D']);
    assert_eq!(tree.get(1).unwrap().num_descendants(), 1);
    assert_eq!(tree.get(3).unwrap().parent::<usize>(), 0);
}

#[test]
fn first_mut_and_last_mut_on_empty_tree() {
    let mut tree: Tree<usize, u8> = Tree::new();
    assert!(tree.first_mut().is_none());
    assert!(tree.last_mut().is_none());
}

#[test]
fn children_equal_nodes_whose_parent_matches() {
    let tree = small();
    for id in 0..tree.len() {
        let mut walk = tree.children(id);
        let mut jumped = Vec::new();
        while let Some((k, _)) = walk.next() {
            jumped.push(k);
        }
        let filtered: Vec<usize> = (0..tree.len())
            .filter(|&j| j != id && tree.get(j).unwrap().parent::<usize>() == id)
            .collect();
        assert_eq!(jumped, filtered);
    }
}

#[test]
fn descendant_counts_match_ancestor_chains() {
    let tree = small();
    for i in 0..tree.len() {
        let mut count = 0;
        for j in 0..tree.len() {
            let mut walk = tree.parents(j);
            while let Some((k, _)) = walk.next() {
                if k == i {
                    count += 1;
                }
            }
        }
        assert_eq!(tree.get(i).unwrap().num_descendants(), count);
    }
}

#[test]
fn clone_keeps_nodes() {
    let tree = small();
    let copy = tree.clone();
    assert_eq!(values(copy.all()), vec!['a', 'b', 'c', 'd']);
    assert_eq!(copy.get(0), tree.get(0));
}
