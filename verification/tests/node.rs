use dogged::radix::{BITS_PER_LEVEL, BRANCH_FACTOR};
use dogged::{Defect, Index, Node, Shift};
use std::sync::Arc;

fn leaf(first: usize) -> Arc<Node<usize>> {
    Arc::new(Node::Leaf { elements: (first..first + BRANCH_FACTOR).collect() })
}

fn branch(children: Vec<Arc<Node<usize>>>) -> Node<usize> {
    let mut slots: [Option<Arc<Node<usize>>>; 32] = std::array::from_fn(|_| None);
    for (k, child) in children.into_iter().enumerate() {
        slots[k] = Some(child);
    }
    Node::Branch { children: slots }
}

#[test]
fn index_selects_child_and_leaf_position() {
    assert_eq!(Index(1000).child(Shift(5)), 31);
    assert_eq!(Index(1000).leaf_child(), 8);
    assert_eq!(Index(1024).child(Shift(10)), 1);
    assert_eq!(Index(1024).child(Shift(5)), 0);
    assert_eq!(Index(1024 + 33).child(Shift(5)), 1);
    assert_eq!(Index(31).child(Shift(5)), 0);
    assert_eq!(Index(usize::MAX).leaf_child(), 31);
}

#[test]
fn shift_steps_by_one_level() {
    assert_eq!(BITS_PER_LEVEL, 5);
    assert_eq!(Shift(10).dec().0, 5);
    assert_eq!(Shift(10).inc().0, 15);
    assert_eq!(Shift(0).capacity(), 32);
    assert_eq!(Shift(5).capacity(), 1024);
    assert_eq!(Shift(10).capacity(), 32768);
}

#[test]
fn index_and_shift_compare_with_numbers() {
    assert!(Index(3) == 3);
    assert!(Index(3) != 4);
    assert!(Index(3) < 4);
    assert!(Shift(5) > 0);
    assert!(Shift(0) == 0);
}

#[test]
fn ladder_is_a_dense_node_of_one_leaf() {
    let tail: Vec<usize> = (100..132).collect();
    let ladder = Node::branch_ladder(Shift(10), tail);
    let mut path = vec![];
    assert_eq!(ladder.validate(&mut path, Shift(10), Index(32)), Ok(()));
    assert!(path.is_empty());
    for i in 0..32 {
        assert_eq!(*ladder.get(Shift(10), Index(i)), 100 + i);
    }
    match &*ladder {
        Node::Branch { children } => {
            assert!(children[0].is_some());
            assert!(children[1..].iter().all(|c| c.is_none()));
        }
        Node::Leaf { .. } => panic!("a ladder of two levels starts with a branch"),
    }
}

#[test]
fn ladder_of_no_level_is_the_leaf() {
    let ladder = Node::branch_ladder(Shift(0), (0..32).collect::<Vec<usize>>());
    assert!(matches!(&*ladder, Node::Leaf { elements } if elements.len() == 32));
}

#[test]
fn node_push_tail_fills_the_frontier() {
    let mut node = branch(vec![leaf(0), leaf(32)]);
    node.push_tail(Shift(5), Index(64), (64..96).collect());
    let mut path = vec![];
    assert_eq!(node.validate(&mut path, Shift(5), Index(96)), Ok(()));
    for i in 0..96 {
        assert_eq!(*node.get(Shift(5), Index(i)), i);
    }
}

#[test]
fn node_push_tail_builds_a_ladder_where_a_child_is_missing() {
    let first = Arc::new(branch((0..32).map(|k| leaf(k * 32)).collect()));
    let mut node = branch(vec![first]);
    node.push_tail(Shift(10), Index(1024), (1024..1056).collect());
    let mut path = vec![];
    assert_eq!(node.validate(&mut path, Shift(10), Index(1056)), Ok(()));
    assert_eq!(*node.get(Shift(10), Index(1055)), 1055);
    assert_eq!(*node.get(Shift(10), Index(1023)), 1023);
}

#[test]
fn node_push_tail_copies_a_shared_child() {
    let shared = Arc::new(branch(vec![leaf(0)]));
    let mut node = branch(vec![shared.clone()]);
    node.push_tail(Shift(10), Index(32), (32..64).collect());
    let mut path = vec![];
    assert_eq!(shared.validate(&mut path, Shift(5), Index(32)), Ok(()));
    assert_eq!(node.validate(&mut path, Shift(10), Index(64)), Ok(()));
    assert_eq!(*node.get(Shift(10), Index(40)), 40);
}

#[test]
fn node_get_mut_writes_one_element() {
    let mut node = branch(vec![leaf(0), leaf(32)]);
    *node.get_mut(Shift(5), Index(33)) = 7;
    for i in 0..64 {
        let expected = if i == 33 { 7 } else { i };
        assert_eq!(*node.get(Shift(5), Index(i)), expected);
    }
}

#[test]
fn node_get_mut_copies_a_shared_leaf() {
    let shared = leaf(0);
    let mut node = branch(vec![shared.clone(), leaf(32)]);
    *node.get_mut(Shift(5), Index(3)) = 99;
    assert_eq!(*node.get(Shift(5), Index(3)), 99);
    assert_eq!(*shared.get(Shift(0), Index(3)), 3);
}

#[test]
fn validate_finds_a_branch_at_leaf_level() {
    let node = branch(vec![]);
    let mut path = vec![];
    assert_eq!(node.validate(&mut path, Shift(0), Index(0)), Err(Defect::BranchAtLeafLevel));
}

#[test]
fn validate_finds_a_leaf_above_leaf_level() {
    let mut path = vec![];
    assert_eq!(
        leaf(0).validate(&mut path, Shift(5), Index(32)),
        Err(Defect::LeafAboveLeafLevel { shift: 5 })
    );
}

#[test]
fn validate_finds_a_short_leaf() {
    let short = Node::Leaf { elements: vec![1usize, 2, 3] };
    let mut path = vec![];
    assert_eq!(short.validate(&mut path, Shift(0), Index(3)), Err(Defect::ShortLeaf { len: 3 }));
}

#[test]
fn validate_finds_a_missing_child() {
    let node = branch(vec![leaf(0)]);
    let mut path = vec![];
    assert_eq!(
        node.validate(&mut path, Shift(5), Index(64)),
        Err(Defect::MissingChild { child: 1 })
    );
    assert!(path.is_empty());
}

#[test]
fn validate_finds_an_extra_child() {
    let node = branch(vec![leaf(0), leaf(32)]);
    let mut path = vec![];
    assert_eq!(
        node.validate(&mut path, Shift(5), Index(32)),
        Err(Defect::ExtraChild { child: 1 })
    );
}

#[test]
fn validate_finds_an_overfull_node() {
    let node = branch((0..32).map(|k| leaf(k * 32)).collect());
    let mut path = vec![];
    assert_eq!(node.validate(&mut path, Shift(5), Index(1024)), Ok(()));
    assert_eq!(node.validate(&mut path, Shift(5), Index(1025)), Err(Defect::Overfull));
}

#[test]
fn validate_leaves_the_way_to_the_defect_in_path() {
    let inner = Arc::new(branch(vec![leaf(0), Arc::new(Node::Leaf { elements: vec![5usize] })]));
    let node = branch(vec![Arc::new(branch((0..32).map(|k| leaf(k * 32)).collect())), inner]);
    let mut path = vec![9];
    assert_eq!(
        node.validate(&mut path, Shift(10), Index(1024 + 64)),
        Err(Defect::ShortLeaf { len: 1 })
    );
    assert_eq!(path, vec![9, 1, 1]);
}

#[test]
fn validate_takes_an_empty_branch_for_dense() {
    let node = branch(vec![]);
    let mut path = vec![];
    assert_eq!(node.validate(&mut path, Shift(5), Index(0)), Ok(()));
}
