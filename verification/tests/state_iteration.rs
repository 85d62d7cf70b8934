use std::collections::HashMap;
use utility_belt::misc::state_iteration;

#[test]
fn test_state_iteration() {
    let mut states = HashMap::default();
    states.insert(0, 1);

    let result = state_iteration(&states, |n, _| vec![n + 1, n + 1, n + 2], 0);
    assert_eq!(result.get(&1), Some(&2));
    assert_eq!(result.get(&2), Some(&1));
}

#[test]
fn counts_add_up_over_the_states() {
    let mut states: HashMap<u32, usize> = HashMap::new();
    states.insert(1, 3);
    states.insert(2, 5);
    states.insert(7, 0);
    // Every state goes to the next, and odd ones also to 3, by `step`.
    let result = state_iteration(
        &states,
        |n: &u32, step: &u32| if n % 2 == 1 { vec![n + step, 3] } else { vec![n + step] },
        1,
    );
    // 2 comes from 1, 3 from 1 and 2 and, not counted, 7; 8 from 7, which never occurred.
    let mut expected = HashMap::new();
    expected.insert(2, 3);
    expected.insert(3, 3 + 5);
    expected.insert(8, 0);
    assert_eq!(result, expected);
}

#[test]
fn no_states_make_no_states() {
    let states: HashMap<u8, usize> = HashMap::new();
    assert!(state_iteration(&states, |n: &u8, _: &()| vec![*n], ()).is_empty());
    let mut one: HashMap<u8, usize> = HashMap::new();
    one.insert(4, 9);
    assert!(state_iteration(&one, |_: &u8, _: &()| vec![], ()).is_empty());
}

#[test]
fn ways_through_a_small_machine() {
    // From each state one can stay or move on by one, up to 3.
    let step = |n: &u8, _: &()| if *n < 3 { vec![*n, n + 1] } else { vec![*n] };
    let mut states: HashMap<u8, usize> = HashMap::new();
    states.insert(0, 1);
    for _ in 0..5 {
        states = state_iteration(&states, step, ());
    }
    // After five steps: the binomial numbers, and at the end the ways to
    // get there in three, four or five steps.
    assert_eq!(states.get(&0), Some(&1));
    assert_eq!(states.get(&1), Some(&5));
    assert_eq!(states.get(&2), Some(&10));
    assert_eq!(states.get(&3), Some(&(1 + 3 + 6)));
}
