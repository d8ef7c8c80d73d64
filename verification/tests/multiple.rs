use intrusive_splay_tree::monsters::{Id, Monster, MonstersByHealth, MonstersById};
use intrusive_splay_tree::SplayTree;

#[test]
fn two_indices_over_same_records() {
    let elems = vec![
        Monster { id: Id(3), health: 10 },
        Monster { id: Id(1), health: 30 },
        Monster { id: Id(2), health: 20 },
    ];
    let mut by_id: SplayTree<MonstersById, Monster> = SplayTree::new();
    let mut by_health: SplayTree<MonstersByHealth, Monster> = SplayTree::new();
    for i in 0..elems.len() {
        assert!(by_id.insert(&elems, i));
        assert!(by_health.insert(&elems, i));
    }
    // each index orders the same records its own way
    let id_order: Vec<u32> = by_id.walk().into_iter().map(|i| elems[i].id.0).collect();
    let health_order: Vec<u32> = by_health.walk().into_iter().map(|i| elems[i].health).collect();
    assert_eq!(id_order, vec![1, 2, 3]);
    assert_eq!(health_order, vec![10, 20, 30]);
    // probes go through different key types per index
    assert_eq!(by_id.find(&elems, &Id(2)), Some(2));
    assert_eq!(by_health.find(&elems, &20u32), Some(2));
}

#[test]
fn removing_from_one_index_keeps_the_other() {
    // records (x=3, y=9) and (x=1, y=2): removing x=3 from the x-index
    // leaves the y-index still finding y=9's record
    let elems = vec![
        Monster { id: Id(3), health: 9 },
        Monster { id: Id(1), health: 2 },
    ];
    let mut x_index: SplayTree<MonstersById, Monster> = SplayTree::new();
    let mut y_index: SplayTree<MonstersByHealth, Monster> = SplayTree::new();
    for i in 0..elems.len() {
        assert!(x_index.insert(&elems, i));
        assert!(y_index.insert(&elems, i));
    }
    assert_eq!(x_index.remove(&elems, &Id(3)), Some(0));
    assert_eq!(x_index.find(&elems, &Id(3)), None);
    assert_eq!(y_index.find(&elems, &9u32), Some(0));
    assert_eq!(y_index.find(&elems, &2u32), Some(1));
    assert_eq!(y_index.walk(), vec![1, 0]);
}

#[test]
fn popping_one_index_never_drains_the_other() {
    let elems = vec![
        Monster { id: Id(5), health: 1 },
        Monster { id: Id(6), health: 2 },
    ];
    let mut by_id: SplayTree<MonstersById, Monster> = SplayTree::new();
    let mut by_health: SplayTree<MonstersByHealth, Monster> = SplayTree::new();
    for i in 0..elems.len() {
        assert!(by_id.insert(&elems, i));
        assert!(by_health.insert(&elems, i));
    }
    assert_eq!(by_id.pop_min(&elems), Some(0));
    assert_eq!(by_id.pop_min(&elems), Some(1));
    assert!(by_id.is_empty());
    assert!(!by_health.is_empty());
    assert_eq!(by_health.walk(), vec![0, 1]);
}
