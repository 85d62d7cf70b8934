use utility_belt::misc::implicit_treap::ImplicitTreap;
use rand::rngs::StdRng;
use rand::{Rng, SeedableRng};

fn new_rng() -> StdRng {
    StdRng::seed_from_u64(123)
}

fn contents(treap: &ImplicitTreap<i32>) -> Vec<i32> {
    (0..treap.len()).map(|i| treap[i]).collect()
}

#[test]
fn test_empty_treap() {
    let treap = ImplicitTreap::<i32>::new();
    assert_eq!(treap.len(), 0);
    assert!(treap.is_empty());
}

#[test]
fn test_push_back_and_indexing() {
    let mut treap = ImplicitTreap::new();
    let mut rng = new_rng();

    treap.push_back(1, rng.gen());
    treap.push_back(2, rng.gen());
    treap.push_back(3, rng.gen());

    assert_eq!(treap.len(), 3);
    assert!(!treap.is_empty());

    assert_eq!(treap[0], 1);
    assert_eq!(treap[1], 2);
    assert_eq!(treap[2], 3);
}

#[test]
fn test_pop_operations() {
    let mut treap = ImplicitTreap::new();
    let mut rng = new_rng();

    treap.push_back(1, rng.gen());
    treap.push_back(2, rng.gen());
    treap.push_back(3, rng.gen());

    assert_eq!(treap.pop_back(), Some(3));
    assert_eq!(treap.len(), 2);
    assert_eq!(treap.pop_front(), Some(1));
    assert_eq!(treap.len(), 1);
    assert_eq!(treap.pop_back(), Some(2));
    assert_eq!(treap.len(), 0);
}

#[test]
fn test_insert_operations() {
    let mut treap = ImplicitTreap::new();
    let mut rng = new_rng();

    treap.insert(0, 17, rng.gen());
    treap.insert(1, 18, rng.gen());
    treap.insert(2, 19, rng.gen());
    treap.insert(1, 20, rng.gen());

    assert_eq!(treap.len(), 4);
    assert_eq!(treap[0], 17);
    assert_eq!(treap[1], 20);
    assert_eq!(treap[2], 18);
    assert_eq!(treap[3], 19);
}

#[test]
fn test_remove_operations() {
    let mut treap = ImplicitTreap::new();
    let mut rng = new_rng();

    // Setup initial state
    treap.insert(0, 17, rng.gen());
    treap.insert(1, 20, rng.gen());
    treap.insert(2, 18, rng.gen());
    treap.insert(3, 19, rng.gen());

    // Test removing from different positions
    assert_eq!(treap.remove(1138), None);
    assert_eq!(treap.remove(0), Some(17));
    assert_eq!(treap.len(), 3);
    assert_eq!(treap[0], 20);

    assert_eq!(treap.remove(1), Some(18));
    assert_eq!(treap.len(), 2);
    assert_eq!(treap[0], 20);
    assert_eq!(treap[1], 19);

    treap.remove(1);
    assert_eq!(treap.len(), 1);
    assert_eq!(treap[0], 20);

    treap.remove(0);
    assert_eq!(treap.len(), 0);
}

#[test]
fn test_empty_treap_remove() {
    let mut treap = ImplicitTreap::<i32>::new();
    assert_eq!(treap.remove(0), None);
    assert_eq!(treap.remove(11), None);
}

#[test]
fn test_modification() {
    let mut treap = ImplicitTreap::new();
    let mut rng = new_rng();

    treap.insert(0, 17, rng.gen());
    *treap.index_mut(0) = 18;
    assert_eq!(treap[0], 18);
}

#[test]
fn remove_out_of_range_leaves_the_sequence() {
    let mut treap = ImplicitTreap::new();
    let mut rng = new_rng();
    for v in 0..20 {
        treap.push_back(v, rng.gen());
    }
    let before = contents(&treap);
    assert_eq!(treap.remove(20), None);
    assert_eq!(treap.remove(usize::MAX), None);
    assert_eq!(contents(&treap), before);
    assert_eq!(treap.len(), 20);
}

#[test]
fn insert_beyond_the_end_appends() {
    let mut treap = ImplicitTreap::new();
    treap.insert(7, 1, 5);
    treap.insert(7, 2, 9);
    treap.insert(usize::MAX, 3, 1);
    assert_eq!(contents(&treap), vec![1, 2, 3]);
}

#[test]
fn pop_from_empty_gives_nothing() {
    let mut treap = ImplicitTreap::<i32>::new();
    assert_eq!(treap.pop_back(), None);
    assert_eq!(treap.pop_front(), None);
    assert!(treap.is_empty());
}

#[test]
fn push_front_puts_first() {
    let mut treap = ImplicitTreap::new();
    treap.push_front(1, 3);
    treap.push_front(2, 3);
    treap.push_front(3, 3);
    assert_eq!(contents(&treap), vec![3, 2, 1]);
}

#[test]
fn behaves_as_a_vector_whatever_the_priorities() {
    let mut rng = new_rng();
    let mut treap = ImplicitTreap::new();
    let mut model: Vec<i32> = Vec::new();
    for step in 0..400 {
        let pos = if model.is_empty() { 0 } else { rng.gen_range(0..model.len() + 2) };
        if rng.gen_range(0..3) < 2 {
            // Equal priorities now and then, to meet the ties.
            let priority = if step % 5 == 0 { 7 } else { rng.gen() };
            treap.insert(pos, step, priority);
            let at = pos.min(model.len());
            model.insert(at, step);
        } else {
            let removed = treap.remove(pos);
            let expected = if pos < model.len() { Some(model.remove(pos)) } else { None };
            assert_eq!(removed, expected);
        }
        assert_eq!(treap.len(), model.len());
        assert!(treap.holds_invariants());
    }
    assert_eq!(contents(&treap), model);
}

#[test]
fn insert_gives_the_root_handle_and_slots_are_reused() {
    let mut treap = ImplicitTreap::new();
    let first = treap.insert(0, 10, 50);
    // A node of lower priority goes below the root.
    assert_eq!(treap.insert(1, 11, 40), first);
    // One of higher priority becomes the root.
    let top = treap.insert(2, 12, 60);
    assert_ne!(top, first);
    assert_eq!(treap.remove(2), Some(12));
    // The slot that was freed is taken again.
    assert_eq!(treap.insert(2, 13, 70), top);
    assert_eq!(contents(&treap), vec![10, 11, 13]);
}
