use overlay_core::tree::{KeNode, KeTree, TreeIter, TreeIterMut};

fn sample() -> KeTree {
    let node = |chunk: &str, children: Vec<usize>| KeNode {
        chunk: chunk.to_string(),
        children,
    };
    KeTree {
        nodes: vec![
            node("", vec![1, 2]),
            node("a", vec![3]),
            node("b", vec![]),
            node("c", vec![]),
        ],
    }
}

#[test]
fn tree_iter_visits_in_preorder() {
    let tree = sample();
    let mut it = TreeIter::new(&tree.nodes[0].children);
    let mut seen = Vec::new();
    while let Some(n) = it.next(&tree) {
        seen.push(n);
    }
    assert_eq!(seen, vec![1, 3, 2]);
    assert_eq!(it.next(&tree), None);
}

#[test]
fn tree_iter_reports_depths() {
    let tree = sample();
    let mut it = TreeIter::new(&tree.nodes[0].children).with_depth();
    let mut seen = Vec::new();
    while let Some(p) = it.next(&tree) {
        seen.push(p);
    }
    assert_eq!(seen, vec![(1, 1), (2, 3), (1, 2)]);
}

#[test]
fn tree_iter_mut_visits_in_preorder() {
    let mut tree = sample();
    let mut it = TreeIterMut::new(&tree.nodes[0].children);
    let mut seen = Vec::new();
    while let Some(n) = it.next(&tree) {
        seen.push(n);
    }
    for n in &seen {
        tree.nodes[*n].chunk.push('!');
    }
    assert_eq!(seen, vec![1, 3, 2]);
    assert_eq!(tree.nodes[3].chunk, "c!");
}
