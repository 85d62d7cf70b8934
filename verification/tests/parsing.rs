use utility_belt::parsing::{keep_parsed, parse_capitals, parse_ints, parse_uints, parse_values, split_words};

#[test]
fn test_parse_values() {
    // Parse floats
    let floats: Vec<f64> = parse_values("1.5 2.7 3.14", char::is_whitespace);
    assert_eq!(floats, vec![1.5, 2.7, 3.14]);

    // Parse words
    let words: Vec<String> = parse_values::<String>("hello,world", |c| c == ',');
    assert_eq!(words, vec!["hello", "world"]);
}

#[test]
fn test_parse_ints() {
    assert_eq!(parse_ints("123"), vec![123]);
    assert_eq!(parse_ints("123 456"), vec![123, 456]);
    assert_eq!(parse_ints("123 456.789"), vec![123, 456, 789]);
    assert_eq!(parse_ints("123 456 -789"), vec![123, 456, -789]);
    assert_eq!(parse_ints("-123@456,-789"), vec![-123, 456, -789]);
    assert_eq!(parse_ints("123x-456x-789"), vec![123, -456, -789]);
    assert_eq!(parse_ints("123   456\n789"), vec![123, 456, 789]);
    assert_eq!(parse_ints("123   456\n789\n\n"), vec![123, 456, 789]);
    assert_eq!(parse_ints("12,34 -> 56,78"), vec![12, 34, 56, 78]);
}

#[test]
fn test_parse_uints() {
    assert_eq!(parse_uints("123"), vec![123]);
    assert_eq!(parse_uints("123 456"), vec![123, 456]);
    assert_eq!(parse_uints("123 456.789"), vec![123, 456, 789]);
    assert_eq!(parse_uints("123 456 -789"), vec![123, 456, 789]);
    assert_eq!(parse_uints("-123@456,-789"), vec![123, 456, 789]);
    assert_eq!(parse_uints("123x-456x-789"), vec![123, 456, 789]);
    assert_eq!(parse_uints("Point { x: 123, y: 456 }\n"), vec![123, 456]);
    assert_eq!(parse_uints("123   456\n789\n\n"), vec![123, 456, 789]);
}

#[test]
fn test_parse_capitals() {
    assert_eq!(
        parse_capitals("Valve AA has flow rate=0; tunnels lead to valves DD, II, BB"),
        vec!["V", "AA", "DD", "II", "BB"]
            .into_iter()
            .map(|x| x.to_string())
            .collect::<Vec<_>>()
    );
}

#[test]
fn ints_at_the_limits() {
    assert_eq!(
        parse_ints("9223372036854775807 -9223372036854775808"),
        vec![i64::MAX, i64::MIN]
    );
    // One beyond either limit is no 64-bit integer and is passed over.
    assert_eq!(parse_ints("9223372036854775808 1 -9223372036854775809 2"), vec![1, 2]);
    assert_eq!(parse_ints("000000000000000000000000012 -0"), vec![12, 0]);
}

#[test]
fn ints_that_do_not_read() {
    // A minus sign alone, two of them, or one in the middle of the digits.
    assert_eq!(parse_ints("- 1 -- 2 --3 4-5 6-"), vec![1, 2]);
    assert_eq!(parse_ints(""), Vec::<i64>::new());
    assert_eq!(parse_ints("no numbers"), Vec::<i64>::new());
}

#[test]
fn uints_at_the_limit() {
    assert_eq!(parse_uints("18446744073709551615"), vec![u64::MAX]);
    assert_eq!(parse_uints("18446744073709551616 7"), vec![7]);
    assert_eq!(parse_uints("99999999999999999999999999 0"), vec![0]);
}

#[test]
fn digits_beyond_ascii_separate() {
    // Only the digits 0 to 9 count.
    assert_eq!(parse_uints("1\u{0663}2"), vec![1, 2]);
    assert_eq!(parse_capitals("\u{00c9}COLE"), vec!["COLE".to_string()]);
}

#[test]
fn words_between_delimiters() {
    let (words, _) = split_words("  ab c  ", |c| c == ' ');
    let words: Vec<String> = words.into_iter().map(|w| w.into_iter().collect()).collect();
    assert_eq!(words, vec!["ab", "c"]);
    let (none, _) = split_words("", |c| c == ' ');
    assert!(none.is_empty());
    let (only, _) = split_words(",,,", |c| c == ',');
    assert!(only.is_empty());
}

#[test]
fn words_that_do_not_read_are_passed_over() {
    let values: Vec<u8> = parse_values("1 256 x 7", char::is_whitespace);
    assert_eq!(values, vec![1, 7]);
    assert_eq!(keep_parsed(vec![None, Some(1), None, Some(2), Some(3), None]), vec![1, 2, 3]);
    assert_eq!(keep_parsed(Vec::<Option<u8>>::new()), Vec::<u8>::new());
}
