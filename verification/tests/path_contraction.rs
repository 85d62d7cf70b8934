use utility_belt::misc::path_contraction;

#[test]
fn test_path_contraction() {
    let start = 0;
    let iterations = 101;

    let result = path_contraction(&start, |n| (n + 1) % 10, iterations);
    assert_eq!(result, 1);
}

#[test]
fn path_contraction_agrees_with_stepping() {
    let successor = |n: &u64| (n * n + 1) % 1009;
    for iterations in 0..200usize {
        let mut expected = 3u64;
        for _ in 0..iterations {
            expected = successor(&expected);
        }
        assert_eq!(path_contraction(&3u64, successor, iterations), expected);
    }
}

#[test]
fn path_contraction_of_no_steps_is_the_start() {
    assert_eq!(path_contraction(&42, |n| n + 1, 0), 42);
    assert_eq!(path_contraction(&42, |n| n + 1, 1), 43);
}

#[test]
fn path_contraction_of_many_steps() {
    let result = path_contraction(&0u32, |n| (n + 1) % 7, 1_000_000_000);
    assert_eq!(result, (1_000_000_000u64 % 7) as u32);
}
