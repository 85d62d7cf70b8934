use utility_belt::misc::slab::Slab;
use thunderdome::Arena;

#[test]
fn handles_stay_valid_and_slots_are_reused() {
    let mut slab = Slab::new();
    let a = slab.insert("a");
    let b = slab.insert("b");
    let c = slab.insert("c");
    assert_eq!((a, b, c), (0, 1, 2));
    assert_eq!(slab.remove(b), "b");
    // The others are where they were.
    assert_eq!(*slab.get(a), "a");
    assert_eq!(*slab.get(c), "c");
    // The vacated slot is taken by the next value.
    let d = slab.insert("d");
    assert_eq!(d, b);
    assert_eq!(*slab.get(d), "d");
    *slab.get_mut(a) = "A";
    assert_eq!(*slab.get(a), "A");
    assert_eq!(slab.insert("e"), 3);
}

#[test]
fn holds_what_a_generational_arena_holds() {
    let mut state = 0x9e37_79b9_7f4a_7c15u64;
    let mut next = move || {
        state ^= state << 13;
        state ^= state >> 7;
        state ^= state << 17;
        state
    };
    let mut slab = Slab::new();
    let mut arena = Arena::new();
    // The values that are in both, each with its handle in either store.
    let mut live = Vec::new();
    for step in 0..3000u64 {
        match next() % 3 {
            0 | 1 => {
                live.push((slab.insert(step), arena.insert(step)));
            }
            _ => {
                if !live.is_empty() {
                    let (h, index) = live.swap_remove((next() % live.len() as u64) as usize);
                    assert_eq!(Some(slab.remove(h)), arena.remove(index));
                }
            }
        }
        if let Some(&(h, index)) = live.last() {
            *slab.get_mut(h) += 1;
            *arena.get_mut(index).unwrap() += 1;
        }
        assert_eq!(live.len(), arena.len());
    }
    for (h, index) in live {
        assert_eq!(Some(slab.get(h)), arena.get(index));
        // Both reuse the slots that were vacated, last vacated first.
        assert_eq!(h, index.slot() as usize);
    }
}
