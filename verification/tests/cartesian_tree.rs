use utility_belt::misc::cartesian_tree::{CartesianTree, Treap};
use std::collections::BTreeMap;

#[test]
fn test_build_small_tree() {
    let mut tree = CartesianTree::new();
    assert!(tree.is_empty());
    assert_eq!(tree.len(), 0);

    tree.insert(1, 'a', 14);
    tree.insert(2, 'b', 2);
    tree.insert(5, 'c', 6);
    tree.insert(6, 'd', 15);
    tree.insert(10, 'e', 1);
    tree.insert(14, 'f', 14);
    tree.insert(18, 'g', 11);
    tree.insert(19, 'h', 2);

    assert_eq!(tree.len(), 8);

    assert_eq!(tree.get(&1), Some((&'a', 14)));
    assert_eq!(tree.get(&2), Some((&'b', 2)));
    assert_eq!(tree.get(&5), Some((&'c', 6)));
    assert_eq!(tree.get(&6), Some((&'d', 15)));
    assert_eq!(tree.get(&10), Some((&'e', 1)));
    assert_eq!(tree.get(&14), Some((&'f', 14)));
    assert_eq!(tree.get(&18), Some((&'g', 11)));
    assert_eq!(tree.get(&19), Some((&'h', 2)));

    assert_eq!(tree.get(&11), None);

    assert_eq!(tree.index(1), Some(0));
    assert_eq!(tree.index(2), Some(1));
    assert_eq!(tree.index(5), Some(2));
    assert_eq!(tree.index(6), Some(3));
    assert_eq!(tree.index(10), Some(4));
    assert_eq!(tree.index(14), Some(5));
    assert_eq!(tree.index(18), Some(6));
    assert_eq!(tree.index(19), Some(7));
    assert_eq!(tree.index(11), None);

    assert_eq!(tree.get_index(0), Some((&1, &'a', 14)));
    assert_eq!(tree.get_index(1), Some((&2, &'b', 2)));
    assert_eq!(tree.get_index(2), Some((&5, &'c', 6)));
    assert_eq!(tree.get_index(3), Some((&6, &'d', 15)));
    assert_eq!(tree.get_index(4), Some((&10, &'e', 1)));
    assert_eq!(tree.get_index(5), Some((&14, &'f', 14)));
    assert_eq!(tree.get_index(6), Some((&18, &'g', 11)));
    assert_eq!(tree.get_index(7), Some((&19, &'h', 2)));
    assert_eq!(tree.get_index(8), None);

    tree.remove(&1);
    assert_eq!(tree.get(&1), None);
    tree.remove(&10);
    assert_eq!(tree.get(&10), None);

    tree.insert(2, 'z', 99);

    // The priority of an existing key is not changed.
    assert_eq!(tree.get(&2), Some((&'z', 2)));

    assert_eq!(tree.len(), 6);
}

#[test]
fn test_treap() {
    let mut treap = Treap::new();

    for i in 0..100 {
        treap.insert(i, i * i);
    }

    assert_eq!(treap.len(), 100);

    for i in 0..100 {
        assert_eq!(treap.get(&i), Some(&(i * i)));
    }

    for i in 0..100 {
        assert_eq!(treap.get_index(i), Some((&i, &(i * i))));
    }

    for i in 0..100 {
        assert_eq!(treap.index(i), Some(i));
    }

    assert_eq!(treap.remove(&3), Some(9));
    assert_eq!(treap.get(&3), None);
    assert_eq!(treap.get_index(3), Some((&4, &16)));
    assert_eq!(treap.len(), 99);

    for i in 0..10 {
        treap.remove_index(i);
    }

    assert_eq!(treap.len(), 89);
}

fn small_tree() -> CartesianTree<i32, char> {
    let mut tree = CartesianTree::new();
    let keys = [1, 2, 5, 6, 10, 14, 18, 19];
    let values = ['a', 'b', 'c', 'd', 'e', 'f', 'g', 'h'];
    let priorities = [14, 2, 6, 15, 1, 14, 11, 2];
    for i in 0..8 {
        tree.insert(keys[i], values[i], priorities[i]);
    }
    tree
}

fn entries(tree: &CartesianTree<i32, char>) -> Vec<(i32, char, u64)> {
    (0..tree.len())
        .map(|rank| {
            let (k, v, p) = tree.get_index(rank).unwrap();
            (*k, *v, p)
        })
        .collect()
}

#[test]
fn keys_come_in_increasing_order() {
    let mut tree = CartesianTree::new();
    for (i, key) in [50, 20, 80, 10, 30, 70, 90, 60, 40, 0].into_iter().enumerate() {
        tree.insert(key, 'x', (i * 37 % 11) as u64);
        assert!(tree.holds_invariants());
    }
    let keys: Vec<i32> = entries(&tree).into_iter().map(|e| e.0).collect();
    assert_eq!(keys, vec![0, 10, 20, 30, 40, 50, 60, 70, 80, 90]);
}

#[test]
fn heap_and_counts_hold_after_every_step() {
    let mut tree = small_tree();
    assert!(tree.holds_invariants());
    for key in [6, 1, 19, 10, 7, 2] {
        tree.remove(&key);
        assert!(tree.holds_invariants());
    }
    assert_eq!(tree.len(), 3);
    while !tree.is_empty() {
        tree.remove_index(tree.len() / 2);
        assert!(tree.holds_invariants());
    }
    assert!(CartesianTree::<i32, char>::default().holds_invariants());
}

#[test]
fn removing_a_root_with_children_of_equal_priority() {
    let mut tree = CartesianTree::new();
    tree.insert(5, 'r', 9);
    tree.insert(3, 'l', 4);
    tree.insert(8, 'h', 4);
    tree.insert(2, 'a', 1);
    tree.insert(9, 'b', 1);
    assert_eq!(tree.remove(&5), Some(('r', 9)));
    assert!(tree.holds_invariants());
    assert_eq!(entries(&tree), vec![(2, 'a', 1), (3, 'l', 4), (8, 'h', 4), (9, 'b', 1)]);
}

#[test]
fn rank_and_select_are_inverse() {
    let tree = small_tree();
    for key in [1, 2, 5, 6, 10, 14, 18, 19] {
        let rank = tree.index(key).unwrap();
        assert_eq!(*tree.get_index(rank).unwrap().0, key);
    }
    for rank in 0..tree.len() {
        let key = *tree.get_index(rank).unwrap().0;
        assert_eq!(tree.index(key), Some(rank));
    }
    assert_eq!(tree.get_index(tree.len()), None);
    assert_eq!(tree.index(3), None);
}

#[test]
fn inserting_a_present_key_keeps_its_priority() {
    let mut tree = small_tree();
    let before = entries(&tree);
    tree.insert(14, 'F', 1000);
    assert_eq!(tree.get(&14), Some((&'F', 14)));
    assert_eq!(tree.len(), before.len());
    let mut expected = before;
    expected[5] = (14, 'F', 14);
    assert_eq!(entries(&tree), expected);
    assert!(tree.holds_invariants());
}

#[test]
fn insert_and_remove_are_inverse() {
    let mut tree = small_tree();
    let before = entries(&tree);
    for (key, priority) in [(0, 0u64), (7, 100), (25, 7), (11, u64::MAX)] {
        assert_eq!(tree.get(&key), None);
        tree.insert(key, 'n', priority);
        assert_eq!(tree.len(), before.len() + 1);
        assert_eq!(tree.remove(&key), Some(('n', priority)));
        assert_eq!(entries(&tree), before);
        assert!(tree.holds_invariants());
    }
}

#[test]
fn removing_what_is_not_there() {
    let mut tree = small_tree();
    let before = entries(&tree);
    assert_eq!(tree.remove(&3), None);
    assert_eq!(tree.remove_index(8), None);
    assert_eq!(tree.remove_index(usize::MAX), None);
    assert_eq!(entries(&tree), before);
    let mut empty = CartesianTree::<i32, char>::new();
    assert_eq!(empty.remove(&1), None);
    assert_eq!(empty.remove_index(0), None);
    assert_eq!(empty.get(&1), None);
    assert_eq!(empty.get_index(0), None);
    assert_eq!(empty.index(1), None);
}

#[test]
fn remove_index_gives_the_entry_of_that_rank() {
    let mut tree = small_tree();
    assert_eq!(tree.remove_index(3), Some((6, 'd', 15)));
    assert_eq!(tree.remove_index(0), Some((1, 'a', 14)));
    assert_eq!(tree.remove_index(5), Some((19, 'h', 2)));
    assert_eq!(
        entries(&tree),
        vec![(2, 'b', 2), (5, 'c', 6), (10, 'e', 1), (14, 'f', 14), (18, 'g', 11)]
    );
    assert!(tree.holds_invariants());
}

#[test]
fn agrees_with_an_ordered_map() {
    // A fixed sequence of pseudo-random numbers.
    let mut state = 0x2545_f491_4f6c_dd1du64;
    let mut next = move || {
        state ^= state << 13;
        state ^= state >> 7;
        state ^= state << 17;
        state
    };
    let mut tree = CartesianTree::new();
    let mut model: BTreeMap<u16, (u64, u64)> = BTreeMap::new();
    for _ in 0..2000 {
        let key = (next() % 64) as u16;
        match next() % 4 {
            0 | 1 => {
                let value = next();
                // Few distinct priorities, so that many are equal.
                let priority = next() % 8;
                tree.insert(key, value, priority);
                let kept = model.get(&key).map_or(priority, |old| old.1);
                model.insert(key, (value, kept));
            }
            2 => {
                assert_eq!(tree.remove(&key), model.remove(&key));
            }
            _ => {
                let rank = (next() % 70) as usize;
                let expected = model.iter().nth(rank).map(|(k, v)| (*k, v.0, v.1));
                if let Some((k, _, _)) = expected {
                    model.remove(&k);
                }
                assert_eq!(tree.remove_index(rank), expected);
            }
        }
        assert_eq!(tree.len(), model.len());
        assert_eq!(tree.is_empty(), model.is_empty());
    }
    assert!(tree.holds_invariants());
    for (rank, (key, (value, priority))) in model.iter().enumerate() {
        assert_eq!(tree.get(key), Some((value, *priority)));
        assert_eq!(tree.index(*key), Some(rank));
        assert_eq!(tree.get_index(rank), Some((key, value, *priority)));
    }
}

#[test]
fn treap_draws_its_priorities() {
    let mut treap = Treap::default();
    for key in (0..200).rev() {
        treap.insert(key, key.to_string());
    }
    assert!(treap.holds_invariants());
    treap.insert(7, String::from("seven"));
    assert_eq!(treap.get(&7), Some(&String::from("seven")));
    assert_eq!(treap.len(), 200);
    assert_eq!(treap.remove(&7), Some(String::from("seven")));
    assert_eq!(treap.remove(&7), None);
    assert_eq!(treap.get_index(7), Some((&8, &String::from("8"))));
    assert!(treap.holds_invariants());
}
