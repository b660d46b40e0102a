use dogged::vec::{DVec, Store};

#[test]
fn set() {
    let mut store = Store::new();
    let mut a = DVec::with(&mut store, vec![1, 2, 3]);
    let b = a.clone(&mut store);
    a.set(&mut store, 0, 10);
    a.set(&mut store, 1, 20);
    a.set(&mut store, 2, 30);

    assert_eq!(a.depth(&store), 0);
    assert_eq!(b.depth(&store), 3);

    assert_eq!(a.get(&mut store, 0), 10);
    assert_eq!(a.get(&mut store, 1), 20);
    assert_eq!(a.get(&mut store, 2), 30);

    assert_eq!(a.depth(&store), 0);
    assert_eq!(b.depth(&store), 3);

    assert_eq!(b.get(&mut store, 0), 1);
    assert_eq!(b.get(&mut store, 1), 2);
    assert_eq!(b.get(&mut store, 2), 3);

    assert_eq!(a.depth(&store), 3);
    assert_eq!(b.depth(&store), 0);

    assert_eq!(a.get(&mut store, 0), 10);
    assert_eq!(a.get(&mut store, 1), 20);
    assert_eq!(a.get(&mut store, 2), 30);

    assert_eq!(a.depth(&store), 0);
    assert_eq!(b.depth(&store), 3);
}

#[test]
fn push() {
    let mut store = Store::new();
    let mut a = DVec::with(&mut store, vec![1]);
    let b = a.clone(&mut store);
    a.push(&mut store, 20);
    a.push(&mut store, 30);

    assert_eq!(a.get(&mut store, 0), 1);
    assert_eq!(a.get(&mut store, 1), 20);
    assert_eq!(a.get(&mut store, 2), 30);
    assert_eq!(a.len(&mut store), 3);

    assert_eq!(b.get(&mut store, 0), 1);
    assert_eq!(b.len(&mut store), 1);

    assert_eq!(a.get(&mut store, 0), 1);
    assert_eq!(a.get(&mut store, 1), 20);
    assert_eq!(a.get(&mut store, 2), 30);
    assert_eq!(a.len(&mut store), 3);
}

#[test]
fn new_version_is_empty() {
    let mut store: Store<u8> = Store::new();
    let a = DVec::new(&mut store);
    assert_eq!(a.len(&mut store), 0);
    assert_eq!(a.depth(&store), 0);
}

#[test]
fn pushes_from_empty_give_length_and_elements() {
    let mut store = Store::new();
    let mut a = DVec::new(&mut store);
    for i in 0..100 {
        a.push(&mut store, i * 2);
    }
    assert_eq!(a.len(&mut store), 100);
    for i in 0..100 {
        assert_eq!(a.get(&mut store, i), i * 2);
    }
}

#[test]
fn unique_root_is_edited_in_place() {
    let mut store = Store::new();
    let mut a = DVec::with(&mut store, vec![1, 2, 3]);
    let other = DVec::with(&mut store, vec![7]);
    a.push(&mut store, 4);
    a.set(&mut store, 0, 10);
    assert_eq!(a.depth(&store), 0);
    assert_eq!(a.read(&mut store, |data| data.to_vec()), vec![10, 2, 3, 4]);
    let b = a.clone(&mut store);
    a.push(&mut store, 5);
    assert_eq!(b.depth(&store), 1);
    assert_eq!(a.depth(&store), 0);
    assert_eq!(b.read(&mut store, |data| data.to_vec()), vec![10, 2, 3, 4]);
    assert_eq!(a.read(&mut store, |data| data.to_vec()), vec![10, 2, 3, 4, 5]);
    assert_eq!(other.read(&mut store, |data| data.to_vec()), vec![7]);
}

#[test]
fn released_handle_lets_the_other_edit_in_place() {
    let mut store = Store::new();
    let mut a = DVec::with(&mut store, vec![1]);
    let b = a.clone(&mut store);
    b.release(&mut store);
    a.push(&mut store, 2);
    let c = a.clone(&mut store);
    assert_eq!(c.depth(&store), 0);
    assert_eq!(a.depth(&store), 0);
    assert_eq!(a.read(&mut store, |data| data.to_vec()), vec![1, 2]);
}

#[test]
fn shared_version_keeps_its_array_through_edits_of_the_other() {
    let mut store = Store::new();
    let mut a = DVec::with(&mut store, (0..10).collect::<Vec<usize>>());
    let b = a.clone(&mut store);
    for i in 0..5 {
        let old = a.get(&mut store, i);
        a.set(&mut store, i, old + 1);
    }
    for k in 0..7 {
        a.push(&mut store, 100 + k);
    }
    assert_eq!(b.len(&mut store), 10);
    for i in 0..10 {
        assert_eq!(b.get(&mut store, i), i);
    }
    assert_eq!(a.len(&mut store), 17);
    for i in 0..5 {
        assert_eq!(a.get(&mut store, i), i + 1);
    }
    for i in 5..10 {
        assert_eq!(a.get(&mut store, i), i);
    }
    for k in 0..7 {
        assert_eq!(a.get(&mut store, 10 + k), 100 + k);
    }
}

#[test]
fn read_rotates_the_chain() {
    let mut store = Store::new();
    let mut a = DVec::with(&mut store, vec!['a']);
    let b = a.clone(&mut store);
    a.push(&mut store, 'b');
    let c = a.clone(&mut store);
    a.push(&mut store, 'c');
    a.push(&mut store, 'd');
    assert_eq!(a.depth(&store), 0);
    assert_eq!(c.depth(&store), 2);
    assert_eq!(b.depth(&store), 3);

    assert_eq!(b.read(&mut store, |data| data.to_vec()), vec!['a']);
    assert_eq!(b.depth(&store), 0);
    assert_eq!(c.depth(&store), 1);
    assert_eq!(a.depth(&store), 3);

    assert_eq!(c.len(&mut store), 2);
    assert_eq!(c.depth(&store), 0);
    assert_eq!(b.depth(&store), 1);
    assert_eq!(a.depth(&store), 2);
    assert_eq!(a.read(&mut store, |data| data.to_vec()), vec!['a', 'b', 'c', 'd']);
}

#[test]
fn read_adds_the_depths_of_versions_that_meet_in_the_root() {
    let mut store = Store::new();
    let root = DVec::with(&mut store, vec![0]);
    let mut left = root.clone(&mut store);
    let mut right = root.clone(&mut store);
    left.push(&mut store, 1);
    left.push(&mut store, 2);
    assert_eq!(root.len(&mut store), 1);
    right.set(&mut store, 0, 9);
    assert_eq!(root.len(&mut store), 1);
    assert_eq!(root.depth(&store), 0);
    assert_eq!(left.depth(&store), 2);
    assert_eq!(right.depth(&store), 1);

    assert_eq!(left.get(&mut store, 2), 2);
    assert_eq!(left.depth(&store), 0);
    assert_eq!(root.depth(&store), 2);
    assert_eq!(right.depth(&store), 3);
    assert_eq!(right.get(&mut store, 0), 9);
}

#[test]
fn unique_version_off_the_root_is_edited_in_place() {
    let mut store = Store::new();
    let mut a = DVec::with(&mut store, vec![1, 2, 3]);
    let b = a.clone(&mut store);
    a.set(&mut store, 0, 10);
    assert_eq!(b.get(&mut store, 0), 1);
    assert_eq!(a.depth(&store), 1);

    // `a` has one handle and no cell is an edit against it, so the edit is
    // made in place; `b`, now an edit against `a`, takes part in it.
    a.set(&mut store, 1, 20);
    assert_eq!(a.depth(&store), 0);
    assert_eq!(b.depth(&store), 1);
    assert_eq!(a.read(&mut store, |data| data.to_vec()), vec![10, 20, 3]);
    assert_eq!(b.read(&mut store, |data| data.to_vec()), vec![1, 20, 3]);
}

#[test]
fn read_hands_the_array_to_the_callback() {
    let mut store = Store::new();
    let mut a = DVec::with(&mut store, vec![3, 4, 5]);
    let b = a.clone(&mut store);
    a.set(&mut store, 2, 6);
    let sum: i32 = b.read(&mut store, |data| data.iter().sum());
    assert_eq!(sum, 12);
    let sum: i32 = a.read(&mut store, |data| data.iter().sum());
    assert_eq!(sum, 13);
}

#[test]
fn families_of_one_store_do_not_touch() {
    let mut store = Store::new();
    let mut a = DVec::with(&mut store, vec![1]);
    let mut x = DVec::with(&mut store, vec![100]);
    let a0 = a.clone(&mut store);
    let x0 = x.clone(&mut store);
    a.push(&mut store, 2);
    x.set(&mut store, 0, 200);
    assert_eq!(a0.read(&mut store, |data| data.to_vec()), vec![1]);
    assert_eq!(x0.read(&mut store, |data| data.to_vec()), vec![100]);
    assert_eq!(a.read(&mut store, |data| data.to_vec()), vec![1, 2]);
    assert_eq!(x.read(&mut store, |data| data.to_vec()), vec![200]);
    assert_eq!(a.depth(&store), 0);
    assert_eq!(x.depth(&store), 0);
}

#[test]
fn store_counts_handles_and_knows_unique_cells() {
    let mut store = Store::new();
    let mut a = DVec::with(&mut store, vec![1]);
    assert_eq!(store.handle_count(&a), 1);
    assert!(store.is_unique(&a));
    let b = a.clone(&mut store);
    assert_eq!(store.handle_count(&a), 2);
    assert!(!store.is_unique(&b));
    a.push(&mut store, 2);
    assert_eq!(store.handle_count(&a), 1);
    assert_eq!(store.handle_count(&b), 1);
    // the cell of `b` is an edit against that of `a`
    assert!(!store.is_unique(&a));
    assert!(store.is_unique(&b));
    // with its last handle the cell of `b` goes, and the edit with it
    b.release(&mut store);
    assert!(store.is_unique(&a));
}

#[test]
fn released_version_is_reclaimed_and_edits_go_in_place_again() {
    let mut store = Store::new();
    let mut a = DVec::with(&mut store, vec![0]);
    let b = a.clone(&mut store);
    let mut b = b;
    b.push(&mut store, 1);
    b.release(&mut store);
    // the root that `b` left behind goes when `a` is read
    assert_eq!(a.depth(&store), 1);
    assert_eq!(a.len(&mut store), 1);
    assert_eq!(a.depth(&store), 0);
    assert!(store.is_unique(&a));
    for i in 0..10 {
        a.push(&mut store, i);
        assert!(store.is_unique(&a));
        assert_eq!(a.depth(&store), 0);
    }
    assert_eq!(a.len(&mut store), 11);
    let c = DVec::with(&mut store, vec![5]);
    assert_eq!(c.read(&mut store, |data| data.to_vec()), vec![5]);
    assert_eq!(a.get(&mut store, 10), 9);
}

#[test]
fn snapshot_taken_and_released_in_a_loop_leaves_one_cell() {
    let mut store = Store::new();
    let mut a = DVec::with(&mut store, vec![0usize]);
    for i in 1..50 {
        let snapshot = a.clone(&mut store);
        a.push(&mut store, i);
        assert_eq!(snapshot.len(&mut store), i);
        assert_eq!(a.depth(&store), 1);
        snapshot.release(&mut store);
        assert_eq!(a.len(&mut store), i + 1);
        assert!(store.is_unique(&a));
    }
}

#[test]
fn forks_and_releases_in_a_loop_keep_the_store_small() {
    let mut store = Store::new();
    let mut a = DVec::with(&mut store, vec![0usize]);
    let mut total = 0;
    for round in 1..200 {
        let snapshot = a.clone(&mut store);
        a.push(&mut store, round);
        total += snapshot.read(&mut store, |data| data.len());
        snapshot.release(&mut store);
        assert_eq!(a.len(&mut store), round + 1);
    }
    assert_eq!(total, (1..200).sum::<usize>());
    // every cell but two has been given up; new versions take those cells
    let mut others = vec![];
    for k in 0..3 {
        others.push(DVec::with(&mut store, vec![k]));
    }
    for (k, other) in others.iter().enumerate() {
        assert_eq!(other.read(&mut store, |data| data.to_vec()), vec![k]);
        assert_eq!(other.depth(&store), 0);
    }
    for i in 0..200 {
        assert_eq!(a.get(&mut store, i), i);
    }
}
