use std::cell::Cell;
use utility_belt::search::beam::BeamSearch;

#[test]
fn beam_test_beam_search() {
    // The states seen so far, one bit each.
    let seen = Cell::new(0u32);

    let successors = |n: &i32| {
        if n.abs() < 5 && seen.get() & (1 << ((5 + n) as u32)) == 0 {
            seen.set(seen.get() | (1 << ((5 + n) as u32)));
            vec![(n + 1, 2), (n - 1, 1)]
        } else {
            vec![]
        }
    };

    let mut bs = BeamSearch::new(1, vec![(0, 0)], successors);
    let mut visited_states = Vec::new();

    while let Some((cur, _score)) = bs.next() {
        visited_states.push(cur);
    }

    assert_eq!(visited_states, vec![0, 1, 2, 3, 4, 5]);
}

#[test]
fn a_wide_beam_keeps_every_state() {
    let successors = |n: &u32| if *n < 4 { vec![(2 * n, 0u8), (2 * n + 1, 0u8)] } else { vec![] };
    let mut bs = BeamSearch::new(100, vec![(1, 0)], successors);
    assert_eq!(bs.beam_size(), 100);
    let mut visited = Vec::new();
    while let Some((cur, _)) = bs.next() {
        visited.push(cur);
    }
    // Layer by layer, each layer from its last state.
    assert_eq!(visited, vec![1, 3, 2, 5, 4, 7, 6]);
    assert_eq!(bs.next(), None);
}

#[test]
fn the_best_of_each_layer_are_kept() {
    // Each state has three successors, scored by their own number.
    let successors = |n: &u32| {
        if *n < 100 {
            vec![(10 * n + 1, 10 * n + 1), (10 * n + 3, 10 * n + 3), (10 * n + 2, 10 * n + 2)]
        } else {
            vec![]
        }
    };
    let mut bs = BeamSearch::new(2, vec![(0, 0)], successors);
    let mut layers: Vec<Vec<u32>> = vec![vec![]];
    let mut digits = 1;
    while let Some((cur, score)) = bs.next() {
        assert_eq!(cur, score);
        if cur >= digits {
            digits *= 10;
            layers.push(vec![]);
        }
        layers.last_mut().unwrap().push(cur);
    }
    for layer in layers.iter_mut() {
        layer.sort();
    }
    // Of three or six states found, the two that score highest go on.
    assert_eq!(layers, vec![vec![0], vec![2, 3], vec![32, 33], vec![332, 333]]);
}

#[test]
fn a_search_without_a_start_ends_at_once() {
    let mut bs = BeamSearch::new(3, Vec::<(u8, u8)>::new(), |_: &u8| vec![(1u8, 1u8)]);
    assert_eq!(bs.next(), None);
    assert_eq!(bs.next(), None);
}
