use grove::lists::{
    contains_usize, parse_among, parse_number_list, parse_positions, sort_ascending, sorted_unique,
    sorted_unique_desc,
};
use grove::order::sorted_order;
use grove::text::{decimal2_string, decimal_string, lowercase, parse_usize_chars, trimmed, uppercase};

fn chars(s: &str) -> Vec<char> {
    s.chars().collect()
}

#[test]
fn number_lists() {
    assert_eq!(parse_number_list(&chars("1, 3,x,,+4, 2 ")), vec![1, 3, 4, 2]);
    assert_eq!(parse_number_list(&chars("")), Vec::<usize>::new());
    assert_eq!(parse_positions(&chars("1,5,0,3"), 3), vec![0, 2]);
    assert_eq!(parse_among(&chars("2,4,9"), &[1, 2, 9]), vec![2, 9]);
    assert!(contains_usize(&[4, 7], 7));
    assert!(!contains_usize(&[], 7));
}

#[test]
fn sorting_numbers() {
    assert_eq!(sorted_unique(&[3, 1, 3, 2, 1]), vec![1, 2, 3]);
    assert_eq!(sorted_unique_desc(&[3, 1, 3, 2, 1]), vec![3, 2, 1]);
    assert_eq!(sort_ascending(&[3, 1, 3, 2]), vec![1, 2, 3, 3]);
    assert_eq!(sort_ascending(&[]), Vec::<usize>::new());
}

#[test]
fn names_sorted_by_code_point() {
    let names: Vec<String> = ["b", "a10", "a2", "A", "a"].iter().map(|s| s.to_string()).collect();
    let order = sorted_order(&names);
    let sorted: Vec<&str> = order.iter().map(|&i| names[i].as_str()).collect();
    assert_eq!(sorted, vec!["A", "a", "a10", "a2", "b"]);
}

#[test]
fn decimal_round_trip() {
    for n in [0usize, 7, 10, 99, 12345, usize::MAX] {
        let s = decimal_string(n);
        assert_eq!(s, n.to_string());
        assert_eq!(parse_usize_chars(&chars(&s)), Some(n));
    }
    assert_eq!(decimal2_string(3), "03");
    assert_eq!(decimal2_string(42), "42");
    assert_eq!(parse_usize_chars(&chars("18446744073709551616")), None);
    assert_eq!(parse_usize_chars(&chars("-1")), None);
    assert_eq!(trimmed("  a b \n"), "a b");
}

#[test]
fn case_mappings() {
    assert_eq!(lowercase("CanCEL 12"), "cancel 12");
    assert_eq!(uppercase("lpt1.txt"), "LPT1.TXT");
    assert_eq!(lowercase("ÉTÉ"), "été");
}
