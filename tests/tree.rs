use flat_tree::Tree;

// Example tree used for tests. It contains multiple roots.
//
// 0
// ├── 1
// │   └── 2
// ├── 3
// │   ├── 4
// │   │   └── 5
// │   └── 6
// ├── 7
// │   ├── 8
// │   │   ├── 9
// │   │   └── 10
// │   └── 11
// │       ├── 12
// │       └── 13
// └── 14
// 15
// ├── 16
// │   └── 17
// └── 18

fn build() -> Tree<usize, i32> {
    let mut tree = Tree::with_capacity(15);
    tree.push(0);
    tree.push(1);
    tree.push(2);
    tree.up();
    tree.up();
    tree.push(3);
    tree.push(4);
    tree.push(5);
    tree.up();
    tree.up();
    tree.push(6);
    tree.up();
    tree.up();
    tree.push(7);
    tree.push(8);
    tree.push(9);
    tree.up();
    tree.push(10);
    tree.up();
    tree.up();
    tree.push(11);
    tree.push(12);
    tree.up();
    tree.push(13);
    tree.up();
    tree.up();
    tree.up();
    tree.push(14);
    tree.up();
    tree.up(); // Up beyond the first root.
    tree.push(15);
    tree.push(16);
    tree.push(17);
    tree.up();
    tree.up();
    tree.push(18);
    tree
}

fn parent_values(tree: &Tree<usize, i32>, id: usize) -> Vec<i32> {
    let mut walk = tree.parents(id);
    let mut out = Vec::new();
    while let Some((_, node)) = walk.next() {
        out.push(node.value);
    }
    out
}

fn child_values(tree: &Tree<usize, i32>, id: usize) -> Vec<i32> {
    let mut walk = tree.children(id);
    let mut out = Vec::new();
    while let Some((_, node)) = walk.next() {
        out.push(node.value);
    }
    out
}

/// Basic checks on tree creation (length etc.)
#[test]
fn create() {
    let tree = build();
    assert_eq!(tree.len(), 19);
    assert_eq!(tree.get(18).unwrap().value, 18);
    assert!(tree.get(19).is_none());
}

/// Iterating over the nodes in pre-order.
#[test]
fn iter() {
    let tree = build();
    let data: Vec<i32> = tree.into_iter().map(|node| node.value).collect();

    assert_eq!(data, (0..19).collect::<Vec<i32>>());
}

/// The number of descendants of each node.
#[test]
fn num_descendants() {
    let tree = build();

    assert!(tree
        .iter()
        .map(|node| node.num_descendants())
        .eq([14, 1, 0, 3, 1, 0, 0, 6, 2, 0, 0, 2, 0, 0, 0, 3, 1, 0, 0,]));
}

/// Walks upwards give the right sequences.
#[test]
fn parents() {
    let tree = build();

    assert_eq!(parent_values(&tree, 0), Vec::<i32>::new());
    assert_eq!(parent_values(&tree, 1), vec![0]);
    assert_eq!(parent_values(&tree, 2), vec![1, 0]);
    assert_eq!(parent_values(&tree, 3), vec![0]);
    assert_eq!(parent_values(&tree, 4), vec![3, 0]);
    assert_eq!(parent_values(&tree, 5), vec![4, 3, 0]);
    assert_eq!(parent_values(&tree, 6), vec![3, 0]);
    assert_eq!(parent_values(&tree, 7), vec![0]);
    assert_eq!(parent_values(&tree, 8), vec![7, 0]);
    assert_eq!(parent_values(&tree, 9), vec![8, 7, 0]);
    assert_eq!(parent_values(&tree, 10), vec![8, 7, 0]);
    assert_eq!(parent_values(&tree, 11), vec![7, 0]);
    assert_eq!(parent_values(&tree, 12), vec![11, 7, 0]);
    assert_eq!(parent_values(&tree, 13), vec![11, 7, 0]);
    assert_eq!(parent_values(&tree, 14), vec![0]);
    assert_eq!(parent_values(&tree, 15), Vec::<i32>::new());
    assert_eq!(parent_values(&tree, 16), vec![15]);
    assert_eq!(parent_values(&tree, 17), vec![16, 15]);
    assert_eq!(parent_values(&tree, 18), vec![15]);
    assert_eq!(parent_values(&tree, 19), Vec::<i32>::new());
}

/// Walks over the children give the right sequences.
#[test]
fn children() {
    let tree = build();

    assert_eq!(child_values(&tree, 0), vec![1, 3, 7, 14]);
    assert_eq!(child_values(&tree, 1), vec![2]);
    assert_eq!(child_values(&tree, 2), Vec::<i32>::new());
    assert_eq!(child_values(&tree, 3), vec![4, 6]);
    assert_eq!(child_values(&tree, 4), vec![5]);
    assert_eq!(child_values(&tree, 5), Vec::<i32>::new());
    assert_eq!(child_values(&tree, 6), Vec::<i32>::new());
    assert_eq!(child_values(&tree, 7), vec![8, 11]);
    assert_eq!(child_values(&tree, 8), vec![9, 10]);
    assert_eq!(child_values(&tree, 9), Vec::<i32>::new());
    assert_eq!(child_values(&tree, 10), Vec::<i32>::new());
    assert_eq!(child_values(&tree, 11), vec![12, 13]);
    assert_eq!(child_values(&tree, 12), Vec::<i32>::new());
    assert_eq!(child_values(&tree, 13), Vec::<i32>::new());
    assert_eq!(child_values(&tree, 14), Vec::<i32>::new());
    assert_eq!(child_values(&tree, 15), vec![16, 18]);
    assert_eq!(child_values(&tree, 16), vec![17]);
    assert_eq!(child_values(&tree, 17), Vec::<i32>::new());
    assert_eq!(child_values(&tree, 18), Vec::<i32>::new());
    assert_eq!(child_values(&tree, 19), Vec::<i32>::new());
}

/// First and last nodes.
#[test]
fn first_last() {
    let tree = build();
    assert_eq!(tree.first().unwrap().value, 0);
    assert_eq!(tree.last().unwrap().value, 18);

    let empty = Tree::<usize, i32>::new();
    assert!(empty.first().is_none());
    assert!(empty.last().is_none());
}
