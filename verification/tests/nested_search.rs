use ndarray::Array2;
use utility_belt::optimization::nested_search::{nested_search, playout};

// As a test case for nested search, we'll construct a small Latin square.
#[derive(Clone, PartialEq, Eq, Hash, Debug)]
struct State {
    possibilities: Array2<Vec<usize>>,
}

impl State {
    pub fn new(dimensionality: usize) -> Self {
        let possible_values = (0..dimensionality).collect::<Vec<_>>();
        let possibilities = Array2::from_elem((dimensionality, dimensionality), possible_values);

        Self { possibilities }
    }

    pub fn assign(&self, x: usize, y: usize, value: usize) -> Self {
        assert!(self.possibilities[[y, x]].contains(&value));

        let mut result = self.clone();

        for ((py, px), square) in self.possibilities.indexed_iter() {
            if py != y && px != x {
                continue;
            }

            result.possibilities[[py, px]] = square
                .iter()
                .filter(|v| **v != value)
                .cloned()
                .collect::<Vec<_>>();
        }

        result.possibilities[[y, x]] = vec![value];

        result
    }
}

#[test]
fn test_latin_squares() {
    let dimensionality = 6;

    let successors = |state: &State| {
        let mut coordinates = Vec::new();

        for (y, row) in state.possibilities.outer_iter().enumerate() {
            for (x, square) in row.iter().enumerate() {
                if square.is_empty() {
                    return vec![];
                }

                if square.len() > 1 {
                    coordinates.push((x, y));
                }
            }
        }

        coordinates
            .into_iter()
            .flat_map(|(x, y)| {
                state.possibilities[[y, x]]
                    .iter()
                    .map(move |v| state.assign(x, y, *v))
            })
            .collect()
    };

    let heuristic = |state: &State| {
        let mut coordinates = Vec::new();

        for (y, row) in state.possibilities.outer_iter().enumerate() {
            for (x, square) in row.iter().enumerate() {
                if square.is_empty() {
                    return None;
                }

                if square.len() > 1 {
                    coordinates.push((x, y));
                }
            }
        }

        coordinates
            .into_iter()
            .map(|(x, y)| (x, y, state.possibilities[[y, x]].len()))
            .min_by_key(|(_, _, len)| *len)
            .map(|(x, y, _)| (x, y))
            .map(|(x, y)| state.assign(x, y, state.possibilities[[y, x]][0]))
    };

    let score = |state: &State| {
        let mut score = 0isize;

        for row in state.possibilities.outer_iter() {
            let mut seen = vec![false; dimensionality];

            for square in row.iter() {
                if square.is_empty() {
                    score -= 1;
                    continue;
                }

                let value = square[0];

                if seen[value] {
                    score -= 1;
                    continue;
                }

                seen[value] = true;
            }
        }

        for col in state.possibilities.axis_iter(ndarray::Axis(1)) {
            let mut seen = vec![false; dimensionality];

            for square in col.iter() {
                if square.is_empty() {
                    score -= 1;
                    continue;
                }

                let value = square[0];

                if seen[value] {
                    score -= 1;
                    continue;
                }

                seen[value] = true;
            }
        }

        score
    };

    let start = State::new(dimensionality);
    let square = nested_search(1, &start, &successors, &heuristic, &score);

    assert_eq!(score(&square), 0);
}

#[test]
fn playing_out_follows_the_heuristic_to_its_end() {
    let halve = |n: &u32| if *n > 1 { Some(n / 2) } else { None };
    assert_eq!(playout(&100, &halve), 1);
    assert_eq!(playout(&1, &halve), 1);
    assert_eq!(playout(&0, &halve), 0);
}

#[test]
fn level_zero_plays_out() {
    let successors = |n: &u32| if *n > 0 { vec![n - 1] } else { vec![] };
    let down_by_three = |n: &u32| if *n >= 3 { Some(n - 3) } else { None };
    assert_eq!(nested_search(0, &10, &successors, &down_by_three, &|n: &u32| *n), 1);
}

#[test]
fn level_one_takes_the_successor_that_plays_out_best() {
    // From n the search can go to 2n or to 2n + 1, up to 100; played out,
    // a state is doubled as long as it stays below 100.
    let successors = |n: &u32| if *n < 50 { vec![2 * n, 2 * n + 1] } else { vec![] };
    let heuristic = |n: &u32| if *n < 50 { Some(2 * n) } else { None };
    let score = |n: &u32| *n;
    // From 3, 6 plays out to 96 and 7 only to 56, so the search goes to
    // 6, and likewise on to 12 and 24. From 24, 49 plays out to 98 and
    // beats 48, and of the successors of 49 it is 99 that scores higher.
    assert_eq!(nested_search(1, &3, &successors, &heuristic, &score), 99);
    // From 5 the odd successor plays out better each time.
    assert_eq!(nested_search(1, &5, &successors, &heuristic, &score), 95);
    // Of successors that play out equally, the first is taken.
    let flat = |_: &u32| 0u8;
    assert_eq!(nested_search(1, &3, &successors, &heuristic, &flat), 96);
    // One level up, each successor is rated by a search of level one.
    assert_eq!(nested_search(2, &5, &successors, &heuristic, &score), 95);
    assert_eq!(nested_search(1, &75, &successors, &heuristic, &score), 75);
}
