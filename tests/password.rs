use advent::password::{
    check_line, count_valid, parse_line, validate_password_1, validate_password_2, PasswordInput,
    PasswordRule,
};

fn record(n1: usize, n2: usize, letter: char, password: &str) -> PasswordInput {
    PasswordInput {
        password: password.to_string(),
        policy_letter: letter,
        policy_num_1: n1,
        policy_num_2: n2,
    }
}

#[test]
fn parses_a_record_line() {
    let p = parse_line("1-3 a: abcde");
    assert_eq!(p.policy_num_1, 1);
    assert_eq!(p.policy_num_2, 3);
    assert_eq!(p.policy_letter, 'a');
    assert_eq!(p.password, "abcde");
    let q = parse_line("12-105 z: zz zz");
    assert_eq!((q.policy_num_1, q.policy_num_2), (12, 105));
    assert_eq!(q.password, "zz zz");
}

#[test]
fn rejects_malformed_lines() {
    assert!(check_line("1-3 a: abcde"));
    assert!(!check_line(""));
    assert!(!check_line("1-3 a:"));
    assert!(!check_line("1-3 a: "));
    assert!(!check_line("1 3 a: abc"));
    assert!(!check_line("-3 a: abc"));
    assert!(!check_line("1-3 ab: abc"));
    assert!(!check_line("1-3 a: ab\nc"));
    assert!(!check_line("99999999999999999999999-3 a: abc"));
}

#[test]
fn password_example_counts() {
    let input = vec![
        parse_line("1-3 a: abcde"),
        parse_line("1-3 b: cdefg"),
        parse_line("2-9 c: ccccccccc"),
    ];
    assert_eq!(count_valid(&input, PasswordRule::Range), 2);
    assert_eq!(count_valid(&input, PasswordRule::Position), 1);
    assert_eq!(count_valid(&[], PasswordRule::Range), 0);
}

#[test]
fn range_rule_bounds_are_inclusive() {
    assert!(validate_password_1(&record(2, 3, 'a', "aab")));
    assert!(validate_password_1(&record(2, 3, 'a', "aaab")));
    assert!(!validate_password_1(&record(2, 3, 'a', "ab")));
    assert!(!validate_password_1(&record(2, 3, 'a', "aaaa")));
}

#[test]
fn range_rule_widening_keeps_valid() {
    let narrow = record(2, 2, 'x', "xax");
    let wide = record(1, 5, 'x', "xax");
    assert!(validate_password_1(&narrow));
    assert!(validate_password_1(&wide));
}

#[test]
fn position_rule_is_exclusive_or() {
    assert!(validate_password_2(&record(1, 3, 'a', "abcde")));
    assert!(!validate_password_2(&record(1, 3, 'b', "cdefg")));
    assert!(!validate_password_2(&record(2, 9, 'c', "ccccccccc")));
}

#[test]
fn position_rule_symmetric_and_out_of_range() {
    let a = record(1, 10, 'a', "abc");
    let b = record(10, 1, 'a', "abc");
    assert!(validate_password_2(&a));
    assert!(validate_password_2(&b));
    assert!(!validate_password_2(&record(0, 10, 'a', "abc")));
    assert!(validate_password_2(&record(0, 1, 'a', "abc")));
    assert_eq!(
        validate_password_2(&record(2, 3, 'b', "abb")),
        validate_password_2(&record(3, 2, 'b', "abb"))
    );
}
