use std::cell::Cell;
use utility_belt::optimization::branch_and_bound::branch_and_bound;

#[test]
fn test_branch_and_bound() {
    let start = 0;

    // The states seen so far, one bit each.
    let seen = Cell::new(1u32);

    let successors = |n: &i32| {
        let mut result = Vec::new();

        if *n < 5 {
            if seen.get() & (1 << (n + 1)) == 0 {
                seen.set(seen.get() | (1 << (n + 1)));
                result.push(n + 1);
            }

            if *n != 0 && seen.get() & (1 << (n - 1)) == 0 {
                seen.set(seen.get() | (1 << (n - 1)));
                result.push(n - 1);
            }
        }

        result
    };

    let cost = |n: &i32| {
        if *n == 5 {
            Some(0)
        } else {
            None
        }
    };

    let bound = |n: &i32| 5 - n;

    assert_eq!(branch_and_bound(&start, successors, cost, bound), 5);
}

#[test]
fn finds_the_cheapest_leaf_of_a_tree() {
    // States are paths in a binary tree of depth 4; a leaf costs the number
    // that its path spells, read from the last step.
    let successors = |path: &Vec<u8>| {
        if path.len() < 4 {
            let mut zero = path.clone();
            zero.push(0);
            let mut one = path.clone();
            one.push(1);
            vec![one, zero]
        } else {
            vec![]
        }
    };
    let value = |path: &Vec<u8>| path.iter().rev().fold(0u32, |acc, bit| acc * 2 + *bit as u32);
    let cost = |path: &Vec<u8>| if path.len() == 4 { Some(value(path) ^ 0b0110) } else { None };
    // No bound to speak of: every leaf is looked at.
    let found = branch_and_bound(&vec![], successors, cost, |_| 0u32);
    assert_eq!(cost(&found), Some(0));
    assert_eq!(found, vec![0, 1, 1, 0]);
}

#[test]
fn without_a_solution_the_start_comes_back() {
    let successors = |n: &u8| if *n < 3 { vec![n + 1] } else { vec![] };
    assert_eq!(branch_and_bound(&0u8, successors, |_| None::<u8>, |_| 0u8), 0);
}

#[test]
fn of_equal_solutions_the_first_found_stays() {
    let successors = |n: &u8| if *n == 0 { vec![1, 2, 3] } else { vec![] };
    let cost = |n: &u8| if *n == 0 { None } else { Some(7u8) };
    // The last successor is looked at first.
    assert_eq!(branch_and_bound(&0u8, successors, cost, |_| 0u8), 3);
}

#[test]
fn a_state_whose_bound_does_not_beat_the_best_is_left_out() {
    let looked_at = Cell::new(0u32);
    let successors = |n: &u32| {
        looked_at.set(looked_at.get() + 1);
        match *n {
            0 => vec![10, 20],
            10 => vec![11],
            _ => vec![],
        }
    };
    let cost = |n: &u32| match *n {
        20 => Some(5u32),
        11 => Some(1),
        _ => None,
    };
    // The bound of 11 does not beat the 5 that 20 costs, so 11 is never
    // looked at, cheap as it is: the bound is not to be trusted.
    let bound = |n: &u32| if *n == 11 { 5 } else { 0 };
    assert_eq!(branch_and_bound(&0u32, successors, cost, bound), 20);
    assert_eq!(looked_at.get(), 2);
    // With a bound that holds, the cheaper one is found.
    assert_eq!(branch_and_bound(&0u32, successors, cost, |_| 0), 11);
}
