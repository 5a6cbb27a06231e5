use kingfisher_bnb::parse::{parse_pair, parse_transaction};

#[test]
fn pair_of_two_numbers() {
    assert_eq!(parse_pair("3:4"), Some((3, 4)));
    assert_eq!(parse_pair("0:12"), Some((0, 12)));
}

#[test]
fn pair_with_plus_signs() {
    assert_eq!(parse_pair("+3:+4"), Some((3, 4)));
}

#[test]
fn pair_needs_exactly_one_colon() {
    assert_eq!(parse_pair("3:4:5"), None);
    assert_eq!(parse_pair("34"), None);
    assert_eq!(parse_pair(""), None);
    assert_eq!(parse_pair(":"), None);
}

#[test]
fn pair_needs_two_numbers() {
    assert_eq!(parse_pair("a:4"), None);
    assert_eq!(parse_pair("3:"), None);
    assert_eq!(parse_pair(" 3:4"), None);
    assert_eq!(parse_pair("-3:4"), None);
    assert_eq!(parse_pair("+:4"), None);
}

#[test]
fn pair_rejects_overflow() {
    assert_eq!(parse_pair("99999999999999999999999:1"), None);
    let max = format!("{}:1", usize::MAX);
    assert_eq!(parse_pair(&max), Some((usize::MAX, 1)));
}

#[test]
fn transaction_of_indices() {
    assert_eq!(parse_transaction("0 2 5"), vec![0, 2, 5]);
    assert_eq!(parse_transaction("  1\t3\n"), vec![1, 3]);
    assert_eq!(parse_transaction(""), Vec::<usize>::new());
}

#[test]
fn transaction_skips_other_fields() {
    assert_eq!(parse_transaction("+5 -3 x 7 8a"), vec![5, 7]);
}

#[test]
fn transaction_splits_at_unicode_whitespace() {
    assert_eq!(parse_transaction("1\u{00A0}2\u{3000}3"), vec![1, 2, 3]);
    assert_eq!(parse_transaction("4\u{2003}5"), vec![4, 5]);
}

#[test]
fn transaction_agrees_with_split_whitespace() {
    let lines = ["1 2 3", " 10\t20 ", "a b 3", "+4 x", "1\u{0085}2", "7\u{200B}8"];
    for line in lines.iter() {
        let expected: Vec<usize> = line.split_whitespace().filter_map(|s| s.parse().ok()).collect();
        assert_eq!(parse_transaction(line), expected, "line {:?}", line);
    }
}

#[test]
fn pair_written_in_decimal_reads_back() {
    for &(a, b) in [(0usize, 0usize), (7, 12), (1000, 3), (usize::MAX, usize::MAX)].iter() {
        assert_eq!(parse_pair(&format!("{}:{}", a, b)), Some((a, b)));
    }
}
