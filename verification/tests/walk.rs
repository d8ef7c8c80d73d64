use intrusive_splay_tree::monsters::{Id, Monster, MonstersById};
use intrusive_splay_tree::{SplayTree, WalkControl};

fn arena(data: &[(u32, u32)]) -> Vec<Monster> {
    let mut v = Vec::new();
    for &(id, health) in data {
        v.push(Monster { id: Id(id), health });
    }
    v
}

fn by_id_tree_of(elems: &Vec<Monster>) -> SplayTree<MonstersById, Monster> {
    let mut tree: SplayTree<MonstersById, Monster> = SplayTree::new();
    for i in 0..elems.len() {
        assert!(tree.insert(elems, i));
    }
    tree
}

#[test]
fn walk_until_option_finds_a_match() {
    let elems = arena(&[(5, 50), (2, 20), (8, 80)]);
    let tree = by_id_tree_of(&elems);
    let found = tree.walk_until(|i: usize| {
        if elems[i].health >= 50 {
            Some(elems[i].id.0)
        } else {
            None
        }
    });
    // the walk runs in key order: id 5 (health 50) comes before id 8
    assert_eq!(found, Some(5));
}

#[test]
fn walk_until_option_without_match_returns_none() {
    let elems = arena(&[(5, 50), (2, 20), (8, 80)]);
    let tree = by_id_tree_of(&elems);
    let found = tree.walk_until(|i: usize| {
        if elems[i].health >= 999 {
            Some(elems[i].id.0)
        } else {
            None
        }
    });
    assert_eq!(found, None);
}

#[test]
fn walk_until_unit_never_breaks() {
    let elems = arena(&[(5, 50), (2, 20), (8, 80)]);
    let tree = by_id_tree_of(&elems);
    let out = tree.walk_until(|_i: usize| ());
    assert_eq!(out, None);
}

#[test]
fn walk_until_result_propagates_failure() {
    let elems = arena(&[(5, 50), (2, 20), (8, 80)]);
    let tree = by_id_tree_of(&elems);
    let out = tree.walk_until(|i: usize| {
        if elems[i].id.0 == 5 {
            Err(elems[i].id.0)
        } else {
            Ok(())
        }
    });
    assert_eq!(out, Some(5));
}

#[test]
fn should_break_follows_each_policy() {
    assert_eq!(().should_break(), None);
    assert_eq!(Some(3u32).should_break(), Some(3));
    assert_eq!(None::<u32>.should_break(), None);
    assert_eq!(Ok::<(), u32>(()).should_break(), None);
    assert_eq!(Err::<(), u32>(7).should_break(), Some(7));
}
