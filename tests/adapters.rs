use advent::adapters::{
    check_adapter_chain, check_adapter_sequence, count_arrangements_to, find_jolt_differences,
    find_num_arrangements, multiply_jolt_differences, parse_rating,
};
use std::collections::VecDeque;

fn load(text: &str) -> Vec<u32> {
    let mut input: Vec<u32> = text
        .split('\n')
        .filter(|line| !line.is_empty())
        .map(|line| parse_rating(line).unwrap())
        .collect();
    input.sort_unstable();
    input
}

const SMALL: &str = "16\n10\n15\n5\n1\n11\n7\n19\n6\n12\n4\n";

const BASIC: &str = "28\n33\n18\n42\n31\n14\n46\n20\n48\n47\n24\n23\n49\n45\n19\n38\n39\n11\n1\n32\n25\n35\n8\n17\n7\n9\n4\n2\n34\n10\n3\n";

#[test]
fn test_basic_input() {
    let input = load(BASIC);
    assert_eq!(input.len(), 31);

    let result = multiply_jolt_differences(&input);
    assert_eq!(result, 220);

    let num_arrangements = find_num_arrangements(&input);
    assert_eq!(num_arrangements, Some(19208));
}

#[test]
fn small_example_product_and_arrangements() {
    let input = load(SMALL);
    assert_eq!(input, vec![1, 4, 5, 6, 7, 10, 11, 12, 15, 16, 19]);
    assert_eq!(find_jolt_differences(&input), [7, 0, 5]);
    assert_eq!(multiply_jolt_differences(&input), 35);
    assert_eq!(find_num_arrangements(&input), Some(8));
}

#[test]
fn basic_example_differences() {
    let input = load(BASIC);
    assert_eq!(find_jolt_differences(&input), [22, 0, 10]);
}

#[test]
fn differences_count_steps_of_two() {
    assert_eq!(find_jolt_differences(&[2, 4, 5, 8]), [1, 2, 2]);
    assert_eq!(multiply_jolt_differences(&[2, 4, 5, 8]), 2);
}

#[test]
fn empty_chain_has_only_the_device_step() {
    assert_eq!(find_jolt_differences(&[]), [0, 0, 1]);
    assert_eq!(multiply_jolt_differences(&[]), 0);
}

#[test]
fn arrangements_of_a_single_adapter() {
    assert_eq!(find_num_arrangements(&[3]), Some(1));
    assert_eq!(find_num_arrangements(&[4]), Some(0));
}

#[test]
fn arrangements_of_consecutive_adapters() {
    // 1, 2, 3: {1,2,3}, {1,3}, {2,3}, {3}
    assert_eq!(find_num_arrangements(&[1, 2, 3]), Some(4));
    assert_eq!(find_num_arrangements(&[1, 2, 3, 4]), Some(7));
}

#[test]
fn arrangements_overflow_is_reported() {
    let input: Vec<u32> = (1..=200).collect();
    assert_eq!(find_num_arrangements(&input), None);
}

#[test]
fn count_to_uses_the_window() {
    let jolts = [1, 2, 3, 4];
    let mut window: VecDeque<u64> = VecDeque::new();
    window.push_back(4);
    window.push_back(2);
    window.push_back(1);
    // ways to 4 = ways to 3 + ways to 2 + ways to 1
    assert_eq!(count_arrangements_to(&jolts, 3, &window), Some(7));
    window.push_back(99);
    assert_eq!(count_arrangements_to(&jolts, 3, &window), Some(7));
    let far = [1, 2, 3, 9];
    assert_eq!(count_arrangements_to(&far, 3, &window), Some(0));
}

#[test]
fn chain_checks() {
    assert!(check_adapter_chain(&[1, 4, 5, 7]));
    assert!(!check_adapter_chain(&[1, 5]));
    assert!(!check_adapter_chain(&[0, 1]));
    assert!(check_adapter_sequence(&[1, 5]));
    assert!(!check_adapter_sequence(&[2, 2]));
    assert!(!check_adapter_sequence(&[3, 2]));
}

#[test]
fn rating_lines() {
    assert_eq!(parse_rating("42"), Some(42));
    assert_eq!(parse_rating("4294967295"), Some(4294967295));
    assert_eq!(parse_rating("4294967296"), None);
    assert_eq!(parse_rating(""), None);
    assert_eq!(parse_rating("4a"), None);
}
