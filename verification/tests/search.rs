use utility_belt::search::bisect::{bisect, bsearch};
use utility_belt::search::brents::brents_algorithm;
use utility_belt::search::brfs::BrFS;
use utility_belt::search::dfs::DFS;
use std::collections::HashSet;

#[test]
fn test_brfs() {
    let mut seen = HashSet::new();
    seen.insert(6);

    let mut successors = |n: &i32| {
        let mut result = Vec::new();

        if n.abs() < 5 {
            if seen.insert((6 + n + 1) as usize) {
                result.push(n + 1);
            }

            if seen.insert((6 + n - 1) as usize) {
                result.push(n - 1);
            }
        }

        result
    };

    let mut brfs = BrFS::new(vec![0]);
    let mut visited = Vec::new();

    while let Some(cur) = brfs.next(&mut successors) {
        visited.push(cur);
    }

    assert_eq!(visited, vec![0, 1, -1, 2, -2, 3, -3, 4, -4, 5, -5]);
}

#[test]
fn test_dfs() {
    let mut seen = HashSet::new();
    seen.insert(6);

    let mut successors = |n: &i32| {
        let mut result = Vec::new();

        if n.abs() < 5 {
            if seen.insert((6 + n + 1) as usize) {
                result.push(n + 1);
            }

            if seen.insert((6 + n - 1) as usize) {
                result.push(n - 1);
            }
        }

        result
    };

    let mut dfs = DFS::new(0);
    let mut visited = Vec::new();

    while let Some(cur) = dfs.next(&mut successors) {
        visited.push(cur);
    }

    assert_eq!(visited, vec![0, -1, -2, -3, -4, -5, 1, 2, 3, 4, 5]);
}

#[test]
fn the_waiting_states_can_be_seen() {
    let mut dfs = DFS::new('a');
    assert_eq!(dfs.len(), 1);
    assert_eq!(dfs.next(|_| vec!['b', 'c']), Some('a'));
    assert_eq!(&dfs[..], &['b', 'c']);
    assert_eq!(dfs.next(|_| vec![]), Some('c'));
    assert_eq!(dfs.next(|_| vec!['d']), Some('b'));
    assert_eq!(dfs.next(|_| vec![]), Some('d'));
    assert_eq!(dfs.next(|_| vec!['x']), None);
    assert!(dfs.is_empty());

    let mut brfs = BrFS::new(vec!['a', 'b']);
    assert_eq!(brfs.len(), 2);
    assert_eq!(brfs.next(|_| vec!['c']), Some('a'));
    assert_eq!(brfs.iter().copied().collect::<Vec<_>>(), vec!['b', 'c']);
    assert_eq!(brfs.next(|_| vec![]), Some('b'));
    assert_eq!(brfs.next(|_| vec![]), Some('c'));
    assert_eq!(brfs.next(|_| vec!['x']), None);
    assert!(BrFS::<u8>::new(vec![]).is_empty());
}

#[test]
fn bisect_test() {
    let v = [1, 2, 3, 4, 5];

    assert_eq!(bisect(0, v.len() - 1, |&i| v[i] >= 1), None); // pred(lo) is true -> None
    assert_eq!(bisect(0, v.len() - 1, |&i| v[i] >= 2).unwrap(), 0);
    assert_eq!(bisect(0, v.len() - 1, |&i| v[i] >= 3).unwrap(), 1);
    assert_eq!(bisect(0, v.len() - 1, |&i| v[i] >= 4).unwrap(), 2);
    assert_eq!(bisect(0, v.len() - 1, |&i| v[i] >= 5).unwrap(), 3);
    assert_eq!(bisect(0, v.len() - 1, |&i| v[i] >= 6), None); // No switch from false to true -> None
}

#[test]
fn bisect_of_no_interval() {
    assert_eq!(bisect(3, 3, |&i| i >= 3), None);
    assert_eq!(bisect(5, 2, |&i| i >= 3), None);
    assert_eq!(bisect(usize::MAX - 1, usize::MAX, |&i| i == usize::MAX), Some(usize::MAX - 1));
    assert_eq!(bisect(0, usize::MAX, |&i| i > 1_000_000), Some(1_000_000));
}

#[test]
fn bsearch_finds_where_the_predicate_turns() {
    let midpoint = |lo: &i64, hi: &i64| if lo + 1 < *hi { Some(lo + (hi - lo) / 2) } else { None };
    assert_eq!(bsearch(midpoint, |x: &i64| x * x >= 1000, 0, 1000), Some((31, 32)));
    assert_eq!(bsearch(midpoint, |x: &i64| *x >= -7, -100, 100), Some((-8, -7)));
    // True of the lower end, or false of the upper end: nothing to find.
    assert_eq!(bsearch(midpoint, |x: &i64| *x >= 0, 0, 10), None);
    assert_eq!(bsearch(midpoint, |x: &i64| *x >= 50, 0, 10), None);
    // A midpoint that steps by one makes it a linear search.
    let step = |lo: &i64, hi: &i64| if lo + 1 < *hi { Some(lo + 1) } else { None };
    assert_eq!(bsearch(step, |x: &i64| *x >= 5, 0, 10), Some((4, 5)));
}

#[test]
fn test_brents_algorithm() {
    let successors = |n: &i32| {
        if *n == 25 {
            10
        } else {
            n + 1
        }
    };

    let (cycle_start, cycle_length) = brents_algorithm(successors, 0);

    assert_eq!(cycle_start, 10);
    assert_eq!(cycle_length, (10..=25).count());
}

#[test]
fn brent_finds_every_lead_and_length() {
    for lead in 0..12usize {
        for length in 1..12usize {
            let successor = |n: &usize| if *n + 1 == lead + length { lead } else { n + 1 };
            assert_eq!(brents_algorithm(successor, 0), (lead, length));
        }
    }
    // A state that leads to itself.
    assert_eq!(brents_algorithm(|n: &u8| *n, 7), (0, 1));
    assert_eq!(brents_algorithm(|n: &u32| n / 2, 1000), (10, 1));
}
