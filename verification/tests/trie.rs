use dogged::radix::BRANCH_FACTOR;
use dogged::DVec;

#[test]
fn push_matches_len() {
    const N: usize = 5000;
    let mut pv = DVec::new();
    for i in 0..N {
        pv.push(i);
    }
    assert_eq!(pv.len(), N);

    for i in 0..N {
        assert_eq!(*pv.get(i).unwrap(), i);
    }
}

#[test]
fn push_matches_len_cloned() {
    const N: usize = 5000;
    let mut pv = DVec::new();
    for i in 0..N {
        pv.push(i);
    }
    let pv0 = pv.clone();
    assert_eq!(pv.len(), N);
    assert_eq!(pv0.len(), N);

    for i in 0..N {
        pv.push(i);
    }

    assert_eq!(pv.len(), 2 * N);
    assert_eq!(pv0.len(), N);

    for i in 0..N {
        assert_eq!(*pv.get(i).unwrap(), i);
        assert_eq!(*pv0.get(i).unwrap(), i);
    }

    for i in 0..N {
        assert_eq!(*pv.get(i + N).unwrap(), i);
    }
}

#[test]
fn push_matches_mutate_in_place() {
    const N: usize = BRANCH_FACTOR * 4;
    let mut pv = DVec::new();
    for i in 0..N {
        pv.push(i);
    }
    let pv0 = pv.clone();
    assert_eq!(pv.len(), N);
    assert_eq!(pv0.len(), N);

    for i in 0..(N / 2) {
        *pv.get_mut(i).unwrap() += 1;
    }

    assert_eq!(pv.len(), N);
    assert_eq!(pv0.len(), N);

    for i in 0..(N / 2) {
        assert_eq!(*pv.get(i).unwrap(), i + 1);
        assert_eq!(*pv0.get(i).unwrap(), i);
    }

    // the second half ought to be untouched
    for i in N / 2..N {
        assert_eq!(*pv.get(i).unwrap(), i);
        assert_eq!(*pv0.get(i).unwrap(), i);
        assert!(std::ptr::eq(pv.get(i).unwrap(), pv0.get(i).unwrap()));
    }
}

#[test]
fn new_vector_is_empty() {
    let pv: DVec<u8> = DVec::new();
    assert_eq!(pv.len(), 0);
    assert!(pv.get(0).is_none());
    assert_eq!(pv.validate(), Ok(()));
}

#[test]
fn get_past_the_end_is_none() {
    let mut pv = DVec::new();
    for i in 0..40 {
        pv.push(i);
    }
    assert_eq!(pv.get(39), Some(&39));
    assert!(pv.get(40).is_none());
    assert!(pv.get(usize::MAX).is_none());
    assert!(pv.get_mut(40).is_none());
}

#[test]
fn get_mut_reaches_the_tail() {
    let mut pv = DVec::new();
    for i in 0..40 {
        pv.push(i);
    }
    *pv.get_mut(35).unwrap() = 1000;
    assert_eq!(pv.get(35), Some(&1000));
    assert_eq!(pv.get(34), Some(&34));
    assert_eq!(pv.get(3), Some(&3));
    assert_eq!(pv.len(), 40);
}

#[test]
fn trie_stays_dense_through_every_level() {
    let mut pv = DVec::new();
    for i in 0..(32 * 32 * 32 + 100) {
        pv.push(i);
        if i % 31 == 0 || i % 32 == 0 || i % 1024 == 1023 {
            assert_eq!(pv.validate(), Ok(()));
            assert_eq!(pv.len(), i + 1);
        }
    }
    assert_eq!(pv.get(0), Some(&0));
    assert_eq!(pv.get(1023), Some(&1023));
    assert_eq!(pv.get(1024), Some(&1024));
    assert_eq!(pv.get(32767), Some(&32767));
    assert_eq!(pv.get(32768), Some(&32768));
    assert_eq!(pv.get(32768 + 99), Some(&(32768 + 99)));
}

#[test]
fn clone_is_not_touched_by_writes_to_its_source() {
    let mut a = DVec::new();
    for i in 0..2000usize {
        a.push(i.to_string());
    }
    let b = a.clone();
    for i in 0..2000 {
        a.get_mut(i).unwrap().push('!');
    }
    a.push("more".to_string());
    assert_eq!(b.len(), 2000);
    for i in 0..2000 {
        assert_eq!(*b.get(i).unwrap(), i.to_string());
        assert_eq!(*a.get(i).unwrap(), format!("{}!", i));
    }
    assert_eq!(b.validate(), Ok(()));
    assert_eq!(a.validate(), Ok(()));
}

#[test]
fn source_is_not_touched_by_writes_to_the_clone() {
    let mut a = DVec::new();
    for i in 0..100 {
        a.push(i);
    }
    let mut b = a.clone();
    *b.get_mut(5).unwrap() = 500;
    *b.get_mut(99).unwrap() = 9900;
    b.push(100);
    assert_eq!(a.len(), 100);
    assert_eq!(a.get(5), Some(&5));
    assert_eq!(a.get(99), Some(&99));
    assert_eq!(b.get(5), Some(&500));
    assert_eq!(b.get(99), Some(&9900));
    assert_eq!(b.get(100), Some(&100));
}

#[test]
fn vectors_compare_by_their_elements() {
    let mut a = DVec::new();
    let mut b = DVec::new();
    for i in 0..70 {
        a.push(i);
        b.push(i);
    }
    assert!(a == b);
    b.push(70);
    assert!(a != b);
}
