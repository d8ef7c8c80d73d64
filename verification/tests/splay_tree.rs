use intrusive_splay_tree::monsters::{Id, Monster, MonstersById};
use intrusive_splay_tree::SplayTree;

fn arena(data: &[(u32, u32)]) -> Vec<Monster> {
    let mut v = Vec::new();
    for &(id, health) in data {
        v.push(Monster { id: Id(id), health });
    }
    v
}

fn by_id_tree_of(elems: &Vec<Monster>) -> SplayTree<MonstersById, Monster> {
    let mut tree: SplayTree<MonstersById, Monster> = SplayTree::new();
    for i in 0..elems.len() {
        assert!(tree.insert(elems, i));
    }
    tree
}

fn keys_in_walk_order(tree: &SplayTree<MonstersById, Monster>, elems: &Vec<Monster>) -> Vec<u32> {
    tree.walk().into_iter().map(|i| elems[i].id.0).collect()
}

#[test]
fn empty_tree_has_nothing() {
    let elems = arena(&[]);
    let mut tree: SplayTree<MonstersById, Monster> = SplayTree::new();
    assert!(tree.is_empty());
    assert_eq!(tree.root(), None);
    assert_eq!(tree.find(&elems, &Id(7)), None);
    assert_eq!(tree.remove(&elems, &Id(7)), None);
    assert_eq!(tree.min(&elems), None);
    assert_eq!(tree.max(&elems), None);
    assert_eq!(tree.pop_min(&elems), None);
    assert_eq!(tree.pop_max(&elems), None);
    assert_eq!(tree.pop_root(&elems), None);
    assert!(tree.walk().is_empty());
}

#[test]
fn insert_then_find_each_key() {
    let elems = arena(&[(5, 50), (2, 20), (8, 80), (1, 10), (9, 90)]);
    let mut tree = by_id_tree_of(&elems);
    for i in 0..elems.len() {
        let got = tree.find(&elems, &Id(elems[i].id.0));
        assert_eq!(got, Some(i));
    }
    assert!(!tree.is_empty());
}

#[test]
fn find_absent_key_returns_none() {
    let elems = arena(&[(5, 50), (2, 20), (8, 80)]);
    let mut tree = by_id_tree_of(&elems);
    assert_eq!(tree.find(&elems, &Id(3)), None);
    assert_eq!(tree.find(&elems, &Id(0)), None);
    assert_eq!(tree.find(&elems, &Id(100)), None);
    // a failed find still leaves the content intact
    assert_eq!(keys_in_walk_order(&tree, &elems), vec![2, 5, 8]);
}

#[test]
fn find_splays_match_to_root() {
    let elems = arena(&[(5, 50), (2, 20), (8, 80), (1, 10), (9, 90)]);
    let mut tree = by_id_tree_of(&elems);
    for probe in [2u32, 9, 1, 5, 8] {
        let got = tree.find(&elems, &Id(probe));
        assert!(got.is_some());
        assert_eq!(tree.root(), got);
    }
}

#[test]
fn duplicate_insert_refused_and_content_unchanged() {
    let elems = arena(&[(5, 50), (2, 20), (8, 80), (5, 55)]);
    let mut tree: SplayTree<MonstersById, Monster> = SplayTree::new();
    assert!(tree.insert(&elems, 0));
    assert!(tree.insert(&elems, 1));
    assert!(tree.insert(&elems, 2));
    let before = keys_in_walk_order(&tree, &elems);
    // record 3 carries id 5, already present: refused
    assert!(!tree.insert(&elems, 3));
    assert_eq!(keys_in_walk_order(&tree, &elems), before);
}

#[test]
fn remove_present_then_find_none() {
    let elems = arena(&[(5, 50), (2, 20), (8, 80)]);
    let mut tree = by_id_tree_of(&elems);
    assert_eq!(tree.remove(&elems, &Id(5)), Some(0));
    assert_eq!(tree.find(&elems, &Id(5)), None);
    assert_eq!(keys_in_walk_order(&tree, &elems), vec![2, 8]);
}

#[test]
fn remove_absent_leaves_content() {
    let elems = arena(&[(5, 50), (2, 20), (8, 80)]);
    let mut tree = by_id_tree_of(&elems);
    assert_eq!(tree.remove(&elems, &Id(6)), None);
    assert_eq!(keys_in_walk_order(&tree, &elems), vec![2, 5, 8]);
}

#[test]
fn walk_is_sorted_by_key() {
    let elems = arena(&[(41, 1), (7, 2), (23, 3), (2, 4), (90, 5), (15, 6), (64, 7)]);
    let mut tree = by_id_tree_of(&elems);
    // restructure a few times on the way
    tree.find(&elems, &Id(23));
    tree.find(&elems, &Id(90));
    tree.remove(&elems, &Id(7));
    assert!(tree.insert(&elems, 1));
    let keys = keys_in_walk_order(&tree, &elems);
    assert_eq!(keys, vec![2, 7, 15, 23, 41, 64, 90]);
    for w in keys.windows(2) {
        assert!(w[0] <= w[1]);
    }
}

#[test]
fn pop_min_yields_nondecreasing_and_exhausts() {
    let elems = arena(&[(41, 1), (7, 2), (23, 3), (2, 4), (90, 5)]);
    let mut tree = by_id_tree_of(&elems);
    let mut popped = Vec::new();
    while let Some(i) = tree.pop_min(&elems) {
        popped.push(elems[i].id.0);
    }
    assert_eq!(popped, vec![2, 7, 23, 41, 90]);
    assert!(tree.is_empty());
}

#[test]
fn pop_max_yields_nonincreasing_and_exhausts() {
    let elems = arena(&[(41, 1), (7, 2), (23, 3), (2, 4), (90, 5)]);
    let mut tree = by_id_tree_of(&elems);
    let mut popped = Vec::new();
    while let Some(i) = tree.pop_max(&elems) {
        popped.push(elems[i].id.0);
    }
    assert_eq!(popped, vec![90, 41, 23, 7, 2]);
    assert!(tree.is_empty());
}

#[test]
fn root_agrees_with_pop_root() {
    let elems = arena(&[(5, 50), (2, 20), (8, 80), (1, 10)]);
    let mut tree = by_id_tree_of(&elems);
    loop {
        let reported = tree.root();
        let popped = tree.pop_root(&elems);
        assert_eq!(reported, popped);
        if popped.is_none() {
            break;
        }
    }
    assert!(tree.is_empty());
}

#[test]
fn min_and_max_splay_to_root() {
    let elems = arena(&[(5, 50), (2, 20), (8, 80), (1, 10), (9, 90)]);
    let mut tree = by_id_tree_of(&elems);
    let lo = tree.min(&elems);
    assert_eq!(lo, Some(3));
    assert_eq!(tree.root(), lo);
    let hi = tree.max(&elems);
    assert_eq!(hi, Some(4));
    assert_eq!(tree.root(), hi);
}

#[test]
fn insert_into_empty_then_remove() {
    let elems = arena(&[(7, 70)]);
    let mut tree: SplayTree<MonstersById, Monster> = SplayTree::new();
    assert!(tree.insert(&elems, 0));
    assert_eq!(tree.root(), Some(0));
    assert_eq!(tree.remove(&elems, &Id(7)), Some(0));
    assert!(tree.is_empty());
    // the record can be inserted again after removal
    assert!(tree.insert(&elems, 0));
    assert_eq!(tree.find(&elems, &Id(7)), Some(0));
}

#[test]
fn search_by_full_element() {
    // the element type itself is a probe, as every index requires
    let elems = arena(&[(5, 50), (2, 20)]);
    let mut tree = by_id_tree_of(&elems);
    let probe = Monster { id: Id(2), health: 0 };
    assert_eq!(tree.find(&elems, &probe), Some(1));
}

#[test]
fn default_tree_is_empty() {
    let elems = arena(&[(4, 40)]);
    let mut tree: SplayTree<MonstersById, Monster> = Default::default();
    assert!(tree.is_empty());
    assert!(tree.insert(&elems, 0));
    assert_eq!(tree.root(), Some(0));
}

#[test]
fn larger_tree_stays_consistent() {
    // a deterministic scramble: multiples of 17 modulo 53 hit every residue
    let mut data = Vec::new();
    for k in 0..53u32 {
        data.push(((k * 17) % 53, k));
    }
    let elems = arena(&data);
    let mut tree = by_id_tree_of(&elems);
    // walk is fully sorted
    let keys = keys_in_walk_order(&tree, &elems);
    assert_eq!(keys.len(), 53);
    for (expect, got) in (0u32..53).zip(keys.iter()) {
        assert_eq!(expect, *got);
    }
    // every key is found, and lands at the root
    for probe in 0..53u32 {
        let got = tree.find(&elems, &Id(probe));
        assert!(got.is_some());
        assert_eq!(tree.root(), got);
        assert_eq!(elems[got.unwrap()].id.0, probe);
    }
    // remove the odd keys; the even ones remain
    for probe in (1..53u32).step_by(2) {
        assert!(tree.remove(&elems, &Id(probe)).is_some());
    }
    let keys = keys_in_walk_order(&tree, &elems);
    assert_eq!(keys.len(), 27);
    for w in keys.windows(2) {
        assert!(w[0] < w[1]);
    }
    for probe in 0..53u32 {
        let got = tree.find(&elems, &Id(probe));
        assert_eq!(got.is_some(), probe % 2 == 0);
    }
    // popping the minimum drains the evens in ascending order
    let mut last = None;
    let mut count = 0;
    while let Some(i) = tree.pop_min(&elems) {
        let key = elems[i].id.0;
        if let Some(prev) = last {
            assert!(prev < key);
        }
        assert_eq!(key % 2, 0);
        last = Some(key);
        count += 1;
    }
    assert_eq!(count, 27);
    assert!(tree.is_empty());
}

#[test]
fn find_miss_splays_neighbour_to_root() {
    let elems = arena(&[(5, 50), (2, 20), (8, 80)]);
    let mut tree = by_id_tree_of(&elems);
    assert_eq!(tree.find(&elems, &Id(6)), None);
    // even a miss splays: the probe's in-order neighbour now sits at the root
    let root_key = elems[tree.root().unwrap()].id.0;
    assert!(root_key == 5 || root_key == 8);
    assert_eq!(tree.find(&elems, &Id(0)), None);
    assert_eq!(elems[tree.root().unwrap()].id.0, 2);
    assert_eq!(tree.find(&elems, &Id(100)), None);
    assert_eq!(elems[tree.root().unwrap()].id.0, 8);
}

#[test]
fn remove_miss_splays_neighbour_to_root() {
    let elems = arena(&[(5, 50), (2, 20), (8, 80)]);
    let mut tree = by_id_tree_of(&elems);
    assert_eq!(tree.remove(&elems, &Id(9)), None);
    assert_eq!(elems[tree.root().unwrap()].id.0, 8);
    assert_eq!(tree.remove(&elems, &Id(1)), None);
    assert_eq!(elems[tree.root().unwrap()].id.0, 2);
}

#[test]
fn pop_root_promotes_predecessor() {
    let elems = arena(&[(5, 50), (2, 20), (8, 80)]);
    let mut tree = by_id_tree_of(&elems);
    // put key 5 at the root, then pop it: its in-order predecessor takes over
    assert_eq!(tree.find(&elems, &Id(5)), Some(0));
    assert_eq!(tree.pop_root(&elems), Some(0));
    assert_eq!(elems[tree.root().unwrap()].id.0, 2);
    // put key 8 at the root, pop: predecessor is 2 again
    assert_eq!(tree.find(&elems, &Id(8)), Some(2));
    assert_eq!(tree.pop_root(&elems), Some(2));
    assert_eq!(elems[tree.root().unwrap()].id.0, 2);
}

#[test]
fn refused_insert_leaves_equal_record_at_root() {
    let elems = arena(&[(5, 50), (2, 20), (5, 55)]);
    let mut tree: SplayTree<MonstersById, Monster> = SplayTree::new();
    assert!(tree.insert(&elems, 0));
    assert!(tree.insert(&elems, 1));
    // key 5 is taken: the extant record with that key is splayed to the root
    assert!(!tree.insert(&elems, 2));
    assert_eq!(tree.root(), Some(0));
}

#[test]
fn extend_links_every_fresh_key() {
    let elems = arena(&[(5, 50), (2, 20), (8, 80), (1, 10)]);
    let mut tree: SplayTree<MonstersById, Monster> = SplayTree::new();
    tree.extend(&elems, &vec![0, 1, 2, 3]);
    assert_eq!(keys_in_walk_order(&tree, &elems), vec![1, 2, 5, 8]);
}

#[test]
fn extend_first_occurrence_wins() {
    // two records carry key 5 and one repeats a key already in the tree
    let elems = arena(&[(7, 70), (5, 50), (5, 55), (7, 77), (3, 30)]);
    let mut tree: SplayTree<MonstersById, Monster> = SplayTree::new();
    assert!(tree.insert(&elems, 0));
    tree.extend(&elems, &vec![1, 2, 3, 4]);
    // record 1 took key 5 first; records 2 (key 5) and 3 (key 7) were refused
    assert_eq!(tree.walk(), vec![4, 1, 0]);
    assert_eq!(tree.find(&elems, &Id(5)), Some(1));
    assert_eq!(tree.find(&elems, &Id(7)), Some(0));
    assert_eq!(tree.find(&elems, &Id(3)), Some(4));
}

#[test]
fn extend_of_nothing_changes_nothing() {
    let elems = arena(&[(5, 50)]);
    let mut tree = by_id_tree_of(&elems);
    tree.extend(&elems, &vec![]);
    assert_eq!(tree.walk(), vec![0]);
}
