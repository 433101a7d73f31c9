use advent::bags::{BagGraph, BagRule};

const EXAMPLE: &str = "light red bags contain 1 bright white bag, 2 muted yellow bags.
dark orange bags contain 3 bright white bags, 4 muted yellow bags.
bright white bags contain 1 shiny gold bag.
muted yellow bags contain 2 shiny gold bags, 9 faded blue bags.
shiny gold bags contain 1 dark olive bag, 2 vibrant plum bags.
dark olive bags contain 3 faded blue bags, 4 dotted black bags.
vibrant plum bags contain 5 faded blue bags, 6 dotted black bags.
faded blue bags contain no other bags.
dotted black bags contain no other bags.
";

const DEEP: &str = "shiny gold bags contain 2 dark red bags.
dark red bags contain 2 dark orange bags.
dark orange bags contain 2 dark yellow bags.
dark yellow bags contain 2 dark green bags.
dark green bags contain 2 dark blue bags.
dark blue bags contain 2 dark violet bags.
dark violet bags contain no other bags.
";

fn graph(text: &str) -> BagGraph {
    let lines: Vec<String> = text
        .split('\n')
        .filter(|line| !line.is_empty())
        .map(|line| line.to_string())
        .collect();
    assert!(BagGraph::check_lines(&lines));
    BagGraph::from_lines(&lines)
}

#[test]
fn example_parents_and_children() {
    let g = graph(EXAMPLE);
    let root = g.index_of("shiny gold").unwrap();
    assert_eq!(root, 4);
    assert_eq!(g.find_parents(root).len(), 4);
    assert_eq!(g.count_children(root), Some(32));
}

#[test]
fn deep_example_children() {
    let g = graph(DEEP);
    let root = g.index_of("shiny gold").unwrap();
    assert_eq!(g.count_children(root), Some(126));
    assert_eq!(g.find_parents(root).len(), 0);
}

#[test]
fn leaf_and_root_bags() {
    let g = graph(EXAMPLE);
    let leaf = g.index_of("faded blue").unwrap();
    assert_eq!(g.count_children(leaf), Some(0));
    let top = g.index_of("light red").unwrap();
    assert!(g.find_parents(top).is_empty());
}

#[test]
fn diamond_ancestry_is_counted_once() {
    let g = graph(
        "top bags contain 1 left bag, 1 right bag.
left bags contain 1 bottom bag.
right bags contain 1 bottom bag.
bottom bags contain no other bags.",
    );
    let bottom = g.index_of("bottom").unwrap();
    let parents = g.find_parents(bottom);
    assert_eq!(parents.len(), 3);
    assert!(parents.contains(&0));
    assert!(parents.contains(&1));
    assert!(parents.contains(&2));
    assert_eq!(g.count_children(0), Some(4));
}

#[test]
fn edges_are_linked_both_ways() {
    let g = graph(EXAMPLE);
    assert_eq!(g.bags[0].name, "light red");
    assert_eq!(g.bags[0].children, vec![(1, 2), (2, 3)]);
    assert_eq!(g.bags[4].parents, vec![2, 3]);
    assert_eq!(g.bags[7].parents, vec![3, 5, 6]);
}

#[test]
fn parses_rule_lines() {
    let rule = BagGraph::parse_rule("light red bags contain 1 bright white bag, 2 muted yellow bags.")
        .unwrap();
    assert_eq!(rule.name, "light red");
    assert_eq!(
        rule.contents,
        vec![(1, "bright white".to_string()), (2, "muted yellow".to_string())]
    );
    let empty = BagGraph::parse_rule("faded blue bags contain no other bags.").unwrap();
    assert_eq!(empty.name, "faded blue");
    assert!(empty.contents.is_empty());
}

#[test]
fn rejects_malformed_rule_lines() {
    assert!(BagGraph::parse_rule("").is_none());
    assert!(BagGraph::parse_rule("light red bags contain 1 bright white bag").is_none());
    assert!(BagGraph::parse_rule("light red bags hold 1 bright white bag.").is_none());
    assert!(BagGraph::parse_rule("light red bags contain bright white bag.").is_none());
    assert!(BagGraph::parse_rule("light red bags contain 1 bright white bag,2 dull bags.").is_none());
    assert!(BagGraph::parse_rule("Light red bags contain no other bags.").is_none());
    assert!(BagGraph::parse_rule(
        "light red bags contain 99999999999999999999999 bright white bags."
    )
    .is_none());
}

#[test]
fn undeclared_child_is_refused() {
    let lines = vec!["light red bags contain 1 bright white bag.".to_string()];
    assert!(!BagGraph::check_lines(&lines));
    let bad = vec!["light red bags contain 1 bright white".to_string()];
    assert!(!BagGraph::check_lines(&bad));
}

#[test]
fn from_rules_resolves_names() {
    let rules = vec![
        BagRule { name: "a".to_string(), contents: vec![(3, "b".to_string())] },
        BagRule { name: "b".to_string(), contents: vec![] },
    ];
    let g = BagGraph::from_rules(&rules).unwrap();
    assert_eq!(g.bags[0].children, vec![(3, 1)]);
    assert_eq!(g.bags[1].parents, vec![0]);
    assert_eq!(g.count_children(0), Some(3));
}

#[test]
fn overflowing_count_is_reported() {
    let g = graph(
        "a bags contain 18446744073709551615 b bags.
b bags contain 2 c bags.
c bags contain no other bags.",
    );
    assert_eq!(g.count_children(0), None);
    assert_eq!(g.count_children(1), Some(2));
}

#[test]
fn parents_listed_once_per_edge() {
    let g = graph(
        "a bags contain 1 b bag, 2 b bags.
b bags contain no other bags.
c bags contain 3 b bags.",
    );
    assert_eq!(g.bags[1].parents, vec![0, 0, 2]);
    assert_eq!(g.find_parents(1).len(), 2);
    assert_eq!(g.count_children(0), Some(3));
}

#[test]
fn parse_children_resolves_names() {
    let names = vec!["x".to_string(), "shiny gold".to_string(), "x".to_string()];
    let line = "a bags contain 1 shiny gold bag, 2 x bags.";
    let children = BagGraph::parse_children(line, 15, line.len() - 1, &names);
    assert_eq!(children, vec![(1, 1), (2, 2)]);
    let empty = "a bags contain no other bags.";
    assert!(BagGraph::parse_children(empty, 15, empty.len() - 1, &names).is_empty());
}
