use indexed_bst::bst::GBST;

// Keys in insertion order: Beetle first, so it becomes the root.
fn menagerie(capacity: usize) -> GBST<String, u32> {
    let names = [
        "Beetle", "Cardinal", "Giraffe", "Kangaroo", "Tiger", "Aardvark", "Dog",
    ];
    let mut bst: GBST<String, u32> = GBST::new(capacity);
    for (v, name) in names.iter().enumerate() {
        assert!(bst.insert(String::from(*name), v as u32));
    }
    bst
}

#[test]
fn size_counts_successful_inserts() {
    let mut bst: GBST<i32, i32> = GBST::new(127);
    let keys = [8, 3, 11, 3, 8, 20, -5, 20, 14];
    let mut successes = 0;
    for (v, k) in keys.iter().enumerate() {
        if bst.insert(*k, v as i32) {
            successes += 1;
        }
        assert_eq!(successes, bst.size());
    }
    assert_eq!(6, bst.size());
}

#[test]
fn duplicate_insert_keeps_first_value() {
    let mut bst: GBST<i32, i32> = GBST::new(127);
    assert!(bst.insert(10, 111));
    assert!(!bst.insert(10, 222));
    assert_eq!(1, bst.size());
    let at = bst.contains_key(&10).unwrap();
    assert_eq!(Some(&111), bst.get_val(at));
    assert_eq!(Some(&10), bst.get_key(at));
}

#[test]
fn inorder_is_ascending_and_sized() {
    let mut bst: GBST<i32, i32> = GBST::new(127);
    for k in [50, 20, 70, 10, 30, 60, 90, 25] {
        assert!(bst.insert(k, k));
    }
    let order = bst.inorder();
    assert_eq!(bst.size(), order.len());
    let mut keys: Vec<i32> = Vec::new();
    for i in &order {
        keys.push(*bst.get_key(*i).unwrap());
    }
    assert_eq!(vec![10, 20, 25, 30, 50, 60, 70, 90], keys);
}

#[test]
fn internal_inorder_appends() {
    let mut bst: GBST<u64, u64> = GBST::new(15);
    assert!(bst.insert(2, 0));
    assert!(bst.insert(1, 0));
    assert!(bst.insert(3, 0));
    let mut ordered: Vec<usize> = vec![99];
    bst.internal_inorder(&mut ordered);
    // root 2 at slot 0, left child 1 at slot 1, right child 3 at slot 2
    assert_eq!(vec![99, 1, 0, 2], ordered);
}

#[test]
fn is_empty_iff_size_zero() {
    let mut bst: GBST<u64, u64> = GBST::new(3);
    assert!(bst.is_empty() == (bst.size() == 0));
    assert!(bst.is_empty());
    bst.insert(1, 1);
    assert!(bst.is_empty() == (bst.size() == 0));
    assert!(!bst.is_empty());
}

#[test]
fn capacity_exhaustion_fails_without_change() {
    let mut bst: GBST<i32, i32> = GBST::new(1);
    assert!(bst.insert(5, 5));
    let before = bst.size();
    // either child of the root would need a slot past the capacity
    assert!(!bst.insert(3, 3));
    assert_eq!(before, bst.size());
    assert!(!bst.insert(7, 7));
    assert_eq!(before, bst.size());
    assert!(bst.contains_key(&3).is_none());
}

#[test]
fn zero_capacity_rejects_everything() {
    let mut bst: GBST<i32, i32> = GBST::new(0);
    assert!(!bst.insert(1, 1));
    assert_eq!(0, bst.size());
    assert!(bst.contains_key(&1).is_none());
    assert_eq!(None, bst.next());
}

#[test]
fn deep_chain_exhausts_capacity() {
    // descending keys pile up on the left spine: slots 0, 1, 3, 7, 15
    let mut bst: GBST<i32, i32> = GBST::new(16);
    for k in [50, 40, 30, 20, 10] {
        assert!(bst.insert(k, k));
    }
    // the next left slot would be 31, past capacity 16
    assert!(!bst.insert(5, 5));
    assert_eq!(5, bst.size());
}

#[test]
fn example_tree_layout() {
    // depth four: the fifth key on the rightmost path needs slot 30
    let bst = menagerie(31);
    assert_eq!(Some(&String::from("Beetle")), bst.get_key(0));
    let order = bst.inorder();
    assert_eq!(7, order.len());
    let mut keys: Vec<String> = Vec::new();
    for i in &order {
        keys.push(bst.get_key(*i).unwrap().clone());
    }
    assert_eq!(
        vec![
            String::from("Aardvark"),
            String::from("Beetle"),
            String::from("Cardinal"),
            String::from("Dog"),
            String::from("Giraffe"),
            String::from("Kangaroo"),
            String::from("Tiger"),
        ],
        keys
    );
    let tiger = bst.contains_key(&String::from("Tiger"));
    assert!(tiger.is_some());
    assert!(tiger.unwrap() != 0);
    assert_eq!(Some(&String::from("Tiger")), bst.get_key(tiger.unwrap()));
    assert!(bst.contains_key(&String::from("Z")).is_none());
}

#[test]
fn cursor_matches_eager_inorder() {
    let mut bst = menagerie(31);
    let order = bst.inorder();
    let mut emitted: Vec<usize> = Vec::new();
    loop {
        match bst.next() {
            Some(i) => emitted.push(i),
            None => break,
        }
    }
    assert_eq!(order, emitted);
    assert_eq!(7, emitted.len());
    // once exhausted, the cursor stays exhausted
    assert_eq!(None, bst.next());
    assert_eq!(None, bst.next());
    assert_eq!(None, bst.next());
}

#[test]
fn cursor_on_empty_tree() {
    let mut bst: GBST<u64, u64> = GBST::new(7);
    assert_eq!(None, bst.next());
    assert_eq!(None, bst.next());
    assert!(bst.iter().is_none());
}

#[test]
fn accessors_check_bounds() {
    let mut bst: GBST<u64, u64> = GBST::new(7);
    assert!(bst.insert(4, 44));
    assert_eq!(Some(&4), bst.get_key(0));
    assert_eq!(Some(&44), bst.get_val(0));
    assert_eq!(None, bst.get_key(1));
    assert_eq!(None, bst.get_val(2));
    assert_eq!(None, bst.get_key(7));
    assert_eq!(None, bst.get_key(usize::MAX));
    assert_eq!(7, bst.capacity());
}

#[test]
fn string_order_edges() {
    let mut bst: GBST<String, u32> = GBST::new(127);
    assert!(bst.insert(String::from("ab"), 1));
    assert!(bst.insert(String::from("a"), 2));
    assert!(bst.insert(String::from(""), 3));
    assert!(bst.insert(String::from("b"), 4));
    assert!(!bst.insert(String::from("ab"), 5));
    let order = bst.inorder();
    let mut keys: Vec<String> = Vec::new();
    for i in &order {
        keys.push(bst.get_key(*i).unwrap().clone());
    }
    assert_eq!(
        vec![
            String::from(""),
            String::from("a"),
            String::from("ab"),
            String::from("b"),
        ],
        keys
    );
    let at = bst.contains_key(&String::from("ab")).unwrap();
    assert_eq!(Some(&1), bst.get_val(at));
}

#[test]
fn negative_integer_keys() {
    let mut bst: GBST<i32, i32> = GBST::new(127);
    for k in [0, -10, 10, -20, 5] {
        assert!(bst.insert(k, 2 * k));
    }
    let order = bst.inorder();
    let mut keys: Vec<i32> = Vec::new();
    for i in &order {
        keys.push(*bst.get_key(*i).unwrap());
    }
    assert_eq!(vec![-20, -10, 0, 5, 10], keys);
    let at = bst.contains_key(&-20).unwrap();
    assert_eq!(Some(&-40), bst.get_val(at));
}
