use indexed_bst::bst::GBST;
use indexed_bst::bst::GPair;

#[test]
fn bst_is_empty() {
    let bst: GBST<i32, i32> = GBST::new(127);
    assert_eq!(true, bst.is_empty());
}

#[test]
fn bst_size() {
    let bst: GBST<i32, i32> = GBST::new(127);
    assert_eq!(0, bst.size());
}

#[test]
fn bst_insert() {
    let mut bst: GBST<i32, i32> = GBST::new(127);
    assert_eq!(0, bst.size());
    bst.insert(12, 12);
    assert_eq!(1, bst.size());
}

#[test]
fn contains_key() {
    let mut bst: GBST<String, i32> = GBST::new(127);

    bst.insert(String::from("Beetle"), 0);
    bst.insert(String::from("Cardinal"), 0);
    bst.insert(String::from("Giraffe"), 0);
    bst.insert(String::from("Kangaroo"), 0);
    bst.insert(String::from("Tiger"), 0);
    bst.insert(String::from("Aardvark"), 0);
    bst.insert(String::from("Dog"), 0);
    let x = bst.contains_key(&String::from("Tiger"));
    assert_eq!(true, x.is_some());
    let y = bst.get_key(x.unwrap()).unwrap();
    assert_eq!("Tiger", y.as_str());
}

#[test]
fn bst_iter() {
    let mut bst: GBST<String, i32> = GBST::new(127);

    bst.insert(String::from("Beetle"), 0);
    bst.insert(String::from("Cardinal"), 0);
    bst.insert(String::from("Giraffe"), 0);
    bst.insert(String::from("Kangaroo"), 0);
    bst.insert(String::from("Tiger"), 0);
    bst.insert(String::from("Aardvark"), 0);
    bst.insert(String::from("Dog"), 0);

    let mut seen: Vec<String> = Vec::new();
    loop {
        match bst.iter() {
            Some(x) => {
                seen.push(x.clone());
            }
            None => {
                println!();
                break;
            }
        }
    }
    assert_eq!(
        vec![
            String::from("Aardvark"),
            String::from("Beetle"),
            String::from("Cardinal"),
            String::from("Dog"),
            String::from("Giraffe"),
            String::from("Kangaroo"),
            String::from("Tiger"),
        ],
        seen
    );
}

#[test]
fn gbst_is_empty() {
    let bst: GBST<i32, i32> = GBST::new(127);
    assert_eq!(true, bst.is_empty());
}

#[test]
fn gbst_size() {
    let bst: GBST<i32, i32> = GBST::new(127);
    assert_eq!(0, bst.size());
}

#[test]
fn gbst_insert() {
    let mut bst: GBST<i32, i32> = GBST::new(127);
    assert_eq!(0, bst.size());
    bst.insert(12, 12);
    assert_eq!(1, bst.size());
}

#[test]
fn gbst_iter() {
    let mut bst: GBST<String, i32> = GBST::new(127);

    bst.insert(String::from("Beetle"), 0);
    bst.insert(String::from("Cardinal"), 0);
    bst.insert(String::from("Giraffe"), 0);
    bst.insert(String::from("Kangaroo"), 0);
    bst.insert(String::from("Tiger"), 0);
    bst.insert(String::from("Aardvark"), 0);
    bst.insert(String::from("Dog"), 0);

    println!("\n\nsize is: {}", bst.size());

    let mut count = 0;
    loop {
        match bst.iter() {
            Some(_) => {
                count += 1;
            }
            None => {
                println!();
                break;
            }
        }
    }
    assert_eq!(7, count);
}

#[test]
fn pair_new_then_insert() {
    // a pair can be built on its own before going into a tree
    let _p: GPair<u64, u64> = GPair::new(3, 4);
    let mut bst: GBST<u64, u64> = GBST::new(7);
    assert!(bst.insert(3, 4));
    let at = bst.contains_key(&3).unwrap();
    assert_eq!(Some(&4), bst.get_val(at));
}
