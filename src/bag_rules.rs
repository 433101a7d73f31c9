//! The grammar of a bag rule: `<name> bags contain <contents>.`, where the
//! contents are `no other bags` or a list of `<count> <name> bag(s)` joined
//! by `, `.

use crate::bags::{
    last_named,
    lemma_last_named_bound,
    resolve_contents,
    resolved,
    rule_names,
    Bag,
    BagGraph,
    BagRule,
};
use crate::text::{digit_run, digits_value, is_digit, matches_at, scan_number};
use vstd::prelude::*;
use vstd::string::*;

verus! {

pub open spec fn is_name_char(c: char) -> bool {
    ('a' <= c && c <= 'z') || c == ' '
}

pub open spec fn is_contents_char(c: char) -> bool {
    is_name_char(c) || is_digit(c) || c == ','
}

/// Every character of `s` in `[from, to)` may stand in a bag's name.
pub open spec fn name_chars(s: Seq<char>, from: int, to: int) -> bool {
    forall|i: int| from <= i < to ==> is_name_char(#[trigger] s[i])
}

pub open spec fn contents_chars(s: Seq<char>, from: int, to: int) -> bool {
    forall|i: int| from <= i < to ==> is_contents_char(#[trigger] s[i])
}

pub open spec fn contain_word() -> Seq<char> {
    seq![' ', 'b', 'a', 'g', 's', ' ', 'c', 'o', 'n', 't', 'a', 'i', 'n', ' ']
}

pub open spec fn no_other_bags() -> Seq<char> {
    seq!['n', 'o', ' ', 'o', 't', 'h', 'e', 'r', ' ', 'b', 'a', 'g', 's']
}

pub open spec fn bags_word() -> Seq<char> {
    seq![' ', 'b', 'a', 'g', 's']
}

pub open spec fn bag_word() -> Seq<char> {
    seq![' ', 'b', 'a', 'g']
}

/// The line reads as a name of `p` characters, ` bags contain `, non-empty
/// contents, and a final `.`.
pub open spec fn splits_at(s: Seq<char>, p: int) -> bool {
    &&& 1 <= p
    &&& p + 15 < s.len()
    &&& name_chars(s, 0, p)
    &&& s.subrange(p, p + 14) == contain_word()
    &&& contents_chars(s, p + 14, s.len() - 1)
    &&& s[s.len() - 1] == '.'
}

/// The longest name length of at most `q` at which the line splits.
pub open spec fn largest_split_from(s: Seq<char>, q: int) -> Option<int>
    decreases q,
{
    if q < 1 {
        None
    } else if splits_at(s, q) {
        Some(q)
    } else {
        largest_split_from(s, q - 1)
    }
}

pub proof fn lemma_largest_split(s: Seq<char>, q: int)
    ensures
        largest_split_from(s, q) matches Some(p) ==> splits_at(s, p) && p <= q,
    decreases q,
{
    if q >= 1 && !splits_at(s, q) {
        lemma_largest_split(s, q - 1);
    }
}

/// Where the name of a rule line ends: the longest name that fits.
pub open spec fn rule_split(s: Seq<char>) -> Option<int> {
    largest_split_from(s, s.len() as int)
}

/// One item `<count> <name> bag` or `<count> <name> bags` in `[from, to)`.
pub open spec fn parse_item(s: Seq<char>, from: int, to: int) -> Option<(nat, Seq<char>)> {
    let n = digit_run(s, from) as int;
    let e = from + n;
    let plural = to >= 1 && s[to - 1] == 's';
    let name_end = if plural {
        to - 5
    } else {
        to - 4
    };
    let word = if plural {
        bags_word()
    } else {
        bag_word()
    };
    if n >= 1 && e < to && s[e] == ' ' && e + 1 < name_end && s.subrange(name_end, to) == word
        && name_chars(s, e + 1, name_end) {
        Some((digits_value(s.subrange(from, e)), s.subrange(e + 1, name_end)))
    } else {
        None
    }
}

/// The first comma in `[from, end)`, or `end`.
pub open spec fn first_comma(s: Seq<char>, from: int, end: int) -> int
    decreases end - from,
{
    if from >= end {
        end
    } else if s[from] == ',' {
        from
    } else {
        first_comma(s, from + 1, end)
    }
}

/// The items of `[from, end)`, split at each `, `.
pub open spec fn items_from(s: Seq<char>, from: int, end: int) -> Option<Seq<(nat, Seq<char>)>>
    decreases end - from,
{
    let c = first_comma(s, from, end);
    match parse_item(s, from, c) {
        None => None,
        Some(it) => if c >= end {
            Some(seq![it])
        } else if from <= c && c + 1 < end && s[c + 1] == ' ' {
            match items_from(s, c + 2, end) {
                Some(rest) => Some(seq![it] + rest),
                None => None,
            }
        } else {
            None
        },
    }
}

/// The contents in `[from, end)`: `no other bags`, or items joined by `, `.
pub open spec fn contents_of(s: Seq<char>, from: int, end: int) -> Option<Seq<(nat, Seq<char>)>> {
    if s.subrange(from, end) == no_other_bags() {
        Some(Seq::empty())
    } else {
        items_from(s, from, end)
    }
}

/// The contents of a rule line whose name has `p` characters.
pub open spec fn rule_contents(s: Seq<char>, p: int) -> Option<Seq<(nat, Seq<char>)>> {
    contents_of(s, p + 14, s.len() - 1)
}

/// The name and contents that a rule line states, counts as numbers.
pub open spec fn rule_of(s: Seq<char>) -> Option<(Seq<char>, Seq<(nat, Seq<char>)>)> {
    match rule_split(s) {
        Some(p) => match rule_contents(s, p) {
            Some(cs) => Some((s.subrange(0, p), cs)),
            None => None,
        },
        None => None,
    }
}

pub open spec fn counts_fit(cs: Seq<(nat, Seq<char>)>) -> bool {
    forall|k: int| 0 <= k < cs.len() ==> (#[trigger] cs[k]).0 <= usize::MAX
}

pub open spec fn contents_view(cs: Seq<(usize, String)>) -> Seq<(nat, Seq<char>)> {
    cs.map_values(|c: (usize, String)| (c.0 as nat, c.1@))
}

fn name_chars_in(s: &str, from: usize, to: usize) -> (r: bool)
    requires
        from <= to <= s@.len(),
    ensures
        r == name_chars(s@, from as int, to as int),
{
    let mut i: usize = from;
    while i < to
        invariant
            from <= i <= to <= s@.len(),
            forall|k: int| from <= k < i ==> is_name_char(#[trigger] s@[k]),
        decreases to - i,
    {
        let c = s.get_char(i);
        if !(('a' <= c && c <= 'z') || c == ' ') {
            return false;
        }
        i = i + 1;
    }
    true
}

fn contents_chars_in(s: &str, from: usize, to: usize) -> (r: bool)
    requires
        from <= to <= s@.len(),
    ensures
        r == contents_chars(s@, from as int, to as int),
{
    let mut i: usize = from;
    while i < to
        invariant
            from <= i <= to <= s@.len(),
            forall|k: int| from <= k < i ==> is_contents_char(#[trigger] s@[k]),
        decreases to - i,
    {
        let c = s.get_char(i);
        if !(('a' <= c && c <= 'z') || c == ' ' || ('0' <= c && c <= '9') || c == ',') {
            return false;
        }
        i = i + 1;
    }
    true
}

fn splits_at_exec(s: &str, p: usize) -> (r: bool)
    requires
        p <= s@.len(),
    ensures
        r == splits_at(s@, p as int),
{
    proof {
        reveal_strlit(" bags contain ");
        assert(" bags contain "@ =~= contain_word());
    }
    let len = s.unicode_len();
    p >= 1 && len > 15 && p < len - 15 && name_chars_in(s, 0, p) && matches_at(
        s,
        p,
        " bags contain ",
    ) && contents_chars_in(s, p + 14, len - 1) && s.get_char(len - 1) == '.'
}

fn find_split(s: &str) -> (r: Option<usize>)
    ensures
        match r {
            Some(p) => rule_split(s@) == Some(p as int),
            None => rule_split(s@) is None,
        },
{
    let mut q: usize = s.unicode_len();
    while q >= 1
        invariant
            q <= s@.len(),
            rule_split(s@) == largest_split_from(s@, q as int),
        decreases q,
    {
        if splits_at_exec(s, q) {
            return Some(q);
        }
        q = q - 1;
    }
    None
}

fn first_comma_exec(s: &str, from: usize, end: usize) -> (r: usize)
    requires
        from <= end <= s@.len(),
    ensures
        r == first_comma(s@, from as int, end as int),
        from <= r <= end,
{
    let mut i: usize = from;
    while i < end
        invariant
            from <= i <= end <= s@.len(),
            first_comma(s@, from as int, end as int) == first_comma(s@, i as int, end as int),
        decreases end - i,
    {
        if s.get_char(i) == ',' {
            return i;
        }
        i = i + 1;
    }
    i
}

/// Reads one item in `[from, to)`: its count (when it fits in a `usize`)
/// and the name of the bag.
fn parse_item_exec(s: &str, from: usize, to: usize) -> (r: Option<(Option<usize>, String)>)
    requires
        from <= to <= s@.len(),
    ensures
        match r {
            Some((v, name)) => parse_item(s@, from as int, to as int) matches Some(it) && it.1
                == name@ && match v {
                Some(c) => it.0 == c,
                None => it.0 > usize::MAX,
            },
            None => parse_item(s@, from as int, to as int) is None,
        },
{
    proof {
        reveal_strlit(" bags");
        reveal_strlit(" bag");
        assert(" bags"@ =~= bags_word());
        assert(" bag"@ =~= bag_word());
    }
    let (e, value) = scan_number(s, from);
    if e == from || e >= to || s.get_char(e) != ' ' {
        return None;
    }
    let plural = s.get_char(to - 1) == 's';
    let name_end: usize = if plural {
        if to < 5 {
            return None;
        }
        to - 5
    } else {
        if to < 4 {
            return None;
        }
        to - 4
    };
    if e + 1 >= name_end {
        return None;
    }
    let word_ok = if plural {
        matches_at(s, name_end, " bags")
    } else {
        matches_at(s, name_end, " bag")
    };
    if !word_ok || !name_chars_in(s, e + 1, name_end) {
        return None;
    }
    let name = String::from_str(s.substring_char(e + 1, name_end));
    Some((value, name))
}

/// `Some(pre + rest)` where `tail` is `Some(rest)`, else `None`.
pub open spec fn prepend(
    pre: Seq<(nat, Seq<char>)>,
    tail: Option<Seq<(nat, Seq<char>)>>,
) -> Option<Seq<(nat, Seq<char>)>> {
    match tail {
        Some(rest) => Some(pre + rest),
        None => None,
    }
}

/// Reads the items of `[from, end)`; `None` where the list is malformed or
/// a count does not fit in a `usize`.
fn parse_items(s: &str, from: usize, end: usize) -> (r: Option<Vec<(usize, String)>>)
    requires
        from <= end < s@.len(),
    ensures
        match r {
            Some(cs) => items_from(s@, from as int, end as int) == Some(contents_view(cs@)),
            None => match items_from(s@, from as int, end as int) {
                Some(cs) => !counts_fit(cs),
                None => true,
            },
        },
{
    let mut out: Vec<(usize, String)> = Vec::new();
    let mut pos: usize = from;
    while pos <= end
        invariant
            from <= pos <= end < s@.len(),
            items_from(s@, from as int, end as int) == prepend(
                contents_view(out@),
                items_from(s@, pos as int, end as int),
            ),
        decreases end - pos,
    {
        let c = first_comma_exec(s, pos, end);
        let ghost tail = items_from(s@, pos as int, end as int);
        let ghost done = contents_view(out@);
        let (value, name) = match parse_item_exec(s, pos, c) {
            Some(item) => item,
            None => {
                return None;
            },
        };
        let count = match value {
            Some(v) => v,
            None => {
                proof {
                    let whole = items_from(s@, from as int, end as int);
                    if whole is Some {
                        let rest = tail.unwrap();
                        assert(whole.unwrap()[done.len() as int] == rest[0]);
                    }
                }
                return None;
            },
        };
        out.push((count, name));
        proof {
            assert(contents_view(out@) =~= done + seq![(count as nat, name@)]);
        }
        if c == end {
            proof {
                assert(done + seq![(count as nat, name@)] =~= contents_view(out@));
            }
            return Some(out);
        }
        if c + 1 < end && s.get_char(c + 1) == ' ' {
            proof {
                let it = (count as nat, name@);
                match items_from(s@, c + 2, end as int) {
                    Some(rest) => {
                        assert(done + (seq![it] + rest) =~= contents_view(out@) + rest);
                    },
                    None => {},
                }
            }
            pos = c + 2;
        } else {
            return None;
        }
    }
    None
}

/// Reads the contents of a rule: `no other bags`, or items joined by
/// `, `. `None` where they are malformed or a count does not fit in a
/// `usize`.
fn parse_contents_of(s: &str, from: usize, end: usize) -> (r: Option<Vec<(usize, String)>>)
    requires
        from <= end < s@.len(),
    ensures
        match r {
            Some(cs) => contents_of(s@, from as int, end as int) == Some(contents_view(cs@)),
            None => match contents_of(s@, from as int, end as int) {
                Some(cs) => !counts_fit(cs),
                None => true,
            },
        },
{
    proof {
        reveal_strlit("no other bags");
        assert("no other bags"@ =~= no_other_bags());
    }
    if end - from == 13 && matches_at(s, from, "no other bags") {
        let v: Vec<(usize, String)> = Vec::new();
        proof {
            assert(contents_view(v@) =~= Seq::<(nat, Seq<char>)>::empty());
        }
        return Some(v);
    }
    parse_items(s, from, end)
}

/// Every line is a rule whose counts fit in a `usize`, and every bag that a
/// rule names among its contents has a line of its own.
pub open spec fn lines_well_formed(lines: Seq<String>) -> bool {
    &&& forall|i: int|
        0 <= i < lines.len() ==> ((#[trigger] rule_of(lines[i]@)) is Some && counts_fit(
            rule_of(lines[i]@).unwrap().1,
        ))
    &&& forall|i: int, k: int|
        0 <= i < lines.len() && 0 <= k < rule_of(lines[i]@).unwrap().1.len() ==> exists|j: int|
            0 <= j < lines.len() && (#[trigger] rule_of(lines[j]@)).unwrap().0 == (
            #[trigger] rule_of(lines[i]@).unwrap().1[k]).1
}

proof fn lemma_last_named_none(names: Seq<String>, name: Seq<char>, j: int)
    requires
        last_named(names, name) is None,
        0 <= j < names.len(),
    ensures
        names[j]@ != name,
    decreases names.len(),
{
    if j < names.len() - 1 {
        lemma_last_named_none(names.drop_last(), name, j);
    }
}

impl BagGraph {
    /// The names of the bags, in order.
    pub open spec fn names(&self) -> Seq<String> {
        self.bags@.map_values(|b: Bag| b.name)
    }

    /// Bag `i` is the rule that `line` states: its name, and its children
    /// with their counts, each the last bag that bears the child's name.
    pub open spec fn reads_as(&self, i: int, line: Seq<char>) -> bool {
        &&& rule_of(line) matches Some((name, cs))
        &&& self.bags@[i].name@ == name
        &&& self.bags@[i].children@.len() == cs.len()
        &&& forall|k: int|
            0 <= k < cs.len() ==> {
                &&& (#[trigger] self.bags@[i].children@[k]).0 == cs[k].0
                &&& last_named(self.names(), cs[k].1) == Some(self.bags@[i].children@[k].1 as int)
            }
    }

    /// Builds the graph of a list of rule lines; `None` where they are not
    /// well formed.
    fn build_from_lines(lines: &Vec<String>) -> (r: Option<BagGraph>)
        ensures
            match r {
                Some(g) => {
                    &&& g.wf()
                    &&& g.bags@.len() == lines@.len()
                    &&& forall|i: int| 0 <= i < lines@.len() ==> g.reads_as(i, #[trigger] lines@[i]@)
                },
                None => !lines_well_formed(lines@),
            },
    {
        let mut rules: Vec<BagRule> = Vec::new();
        let mut i: usize = 0;
        while i < lines.len()
            invariant
                i <= lines@.len(),
                rules@.len() == i,
                forall|t: int|
                    0 <= t < i ==> rule_of(lines@[t]@) == Some(
                        ((#[trigger] rules@[t]).name@, contents_view(rules@[t].contents@)),
                    ),
            decreases lines@.len() - i,
        {
            match BagGraph::parse_rule(lines[i].as_str()) {
                Some(rule) => {
                    rules.push(rule);
                },
                None => {
                    proof {
                        assert(rule_of(lines@[i as int]@) matches Some((_, cs)) ==> !counts_fit(cs));
                    }
                    return None;
                },
            }
            i = i + 1;
        }
        let r = BagGraph::from_rules(&rules);
        proof {
            let n = lines@.len() as int;
            match &r {
                Some(g) => {
                    assert(g.names() =~= rule_names(rules@));
                    assert forall|t: int| 0 <= t < n implies g.reads_as(t, #[trigger] lines@[t]@) by {
                        assert(rule_of(lines@[t]@) == Some(
                            (rules@[t].name@, contents_view(rules@[t].contents@)),
                        ));
                        let cs = rule_of(lines@[t]@).unwrap().1;
                        assert forall|k: int| 0 <= k < cs.len() implies {
                            &&& (#[trigger] g.bags@[t].children@[k]).0 == cs[k].0
                            &&& last_named(g.names(), cs[k].1) == Some(
                                g.bags@[t].children@[k].1 as int,
                            )
                        } by {
                            assert(cs[k] == (
                                rules@[t].contents@[k].0 as nat,
                                rules@[t].contents@[k].1@,
                            ));
                            assert(last_named(rule_names(rules@), rules@[t].contents@[k].1@)
                                is Some);
                            assert(g.bags@[t].children@ == resolved(rules@, t));
                            lemma_last_named_bound(rule_names(rules@), rules@[t].contents@[k].1@);
                        }
                    }
                },
                None => {
                    let (t, k) = choose|t: int, k: int|
                        0 <= t < n && 0 <= k < rules@[t].contents@.len() && last_named(
                            rule_names(rules@),
                            (#[trigger] rules@[t].contents@[k]).1@,
                        ) is None;
                    assert(rule_of(lines@[t]@) == Some(
                        (rules@[t].name@, contents_view(rules@[t].contents@)),
                    ));
                    let cs = rule_of(lines@[t]@).unwrap().1;
                    assert(cs[k].1 == rules@[t].contents@[k].1@);
                    if lines_well_formed(lines@) {
                        let j = choose|j: int|
                            0 <= j < n && (#[trigger] rule_of(lines@[j]@)).unwrap().0 == cs[k].1;
                        assert(rule_of(lines@[j]@) == Some(
                            (rules@[j].name@, contents_view(rules@[j].contents@)),
                        ));
                        lemma_last_named_none(rule_names(rules@), cs[k].1, j);
                        assert(rule_names(rules@)[j] == rules@[j].name);
                    }
                },
            }
        }
        r
    }

    /// Whether the lines are well formed: each one a rule whose counts fit
    /// in a `usize`, and every bag named in their contents declared by one
    /// of them.
    pub fn check_lines(lines: &Vec<String>) -> (r: bool)
        ensures
            r == lines_well_formed(lines@),
    {
        match BagGraph::build_from_lines(lines) {
            Some(g) => {
                proof {
                    let n = lines@.len() as int;
                    assert forall|i: int| 0 <= i < n implies ((#[trigger] rule_of(lines@[i]@)) is Some
                        && counts_fit(rule_of(lines@[i]@).unwrap().1)) by {
                        assert(g.reads_as(i, lines@[i]@));
                        let cs = rule_of(lines@[i]@).unwrap().1;
                        assert forall|k: int| 0 <= k < cs.len() implies (#[trigger] cs[k]).0
                            <= usize::MAX by {
                            assert(g.bags@[i].children@[k].0 == cs[k].0);
                        }
                    }
                    assert forall|i: int, k: int|
                        0 <= i < n && 0 <= k < rule_of(lines@[i]@).unwrap().1.len() implies exists|
                            j: int,
                        |
                            0 <= j < n && (#[trigger] rule_of(lines@[j]@)).unwrap().0 == (
                            #[trigger] rule_of(lines@[i]@).unwrap().1[k]).1 by {
                        assert(g.reads_as(i, lines@[i]@));
                        let cs = rule_of(lines@[i]@).unwrap().1;
                        assert(g.bags@[i].children@[k].0 == cs[k].0);
                        let ix = g.bags@[i].children@[k].1 as int;
                        lemma_last_named_bound(g.names(), cs[k].1);
                        assert(g.reads_as(ix, lines@[ix]@));
                        assert(g.names()[ix] == g.bags@[ix].name);
                    }
                }
                true
            },
            None => false,
        }
    }

    /// Builds the graph of a list of well-formed rule lines, one bag per
    /// line, in order, each linked to the bags it holds and back.
    pub fn from_lines(lines: &Vec<String>) -> (g: BagGraph)
        requires
            lines_well_formed(lines@),
        ensures
            g.wf(),
            g.bags@.len() == lines@.len(),
            forall|i: int| 0 <= i < lines@.len() ==> g.reads_as(i, #[trigger] lines@[i]@),
    {
        match BagGraph::build_from_lines(lines) {
            Some(g) => g,
            None => BagGraph { bags: Vec::new() },
        }
    }

    /// Reads the contents of a rule in `[from, end)` and resolves each bag
    /// they name to the last of `bag_names` that bears it.
    pub fn parse_children(s: &str, from: usize, end: usize, bag_names: &Vec<String>) -> (r: Vec<
        (usize, usize),
    >)
        requires
            from <= end < s@.len(),
            contents_of(s@, from as int, end as int) is Some,
            counts_fit(contents_of(s@, from as int, end as int).unwrap()),
            forall|k: int|
                0 <= k < contents_of(s@, from as int, end as int).unwrap().len() ==> last_named(
                    bag_names@,
                    (#[trigger] contents_of(s@, from as int, end as int).unwrap()[k]).1,
                ) is Some,
        ensures
            r@ == contents_of(s@, from as int, end as int).unwrap().map_values(
                |c: (nat, Seq<char>)| (c.0 as usize, last_named(bag_names@, c.1).unwrap() as usize),
            ),
    {
        let ghost cs = contents_of(s@, from as int, end as int).unwrap();
        let items = match parse_contents_of(s, from, end) {
            Some(items) => items,
            None => {
                return Vec::new();
            },
        };
        proof {
            assert forall|k: int| 0 <= k < items@.len() implies items@[k].0 as nat == cs[k].0
                && (#[trigger] items@[k]).1@ == cs[k].1 by {
                assert(contents_view(items@)[k] == cs[k]);
            }
        }
        match resolve_contents(bag_names, &items) {
            Some(v) => {
                proof {
                    assert(v@ =~= cs.map_values(
                        |c: (nat, Seq<char>)|
                            (c.0 as usize, last_named(bag_names@, c.1).unwrap() as usize),
                    ));
                }
                v
            },
            None => {
                proof {
                    let k = choose|k: int|
                        0 <= k < items@.len() && last_named(bag_names@, (#[trigger] items@[k]).1@)
                            is None;
                    assert(last_named(bag_names@, cs[k].1) is Some);
                }
                Vec::new()
            },
        }
    }

    /// Reads one rule line; `None` where it is malformed or a count does not
    /// fit in a `usize`.
    pub fn parse_rule(line: &str) -> (r: Option<BagRule>)
        ensures
            match r {
                Some(rule) => rule_of(line@) == Some((rule.name@, contents_view(rule.contents@))),
                None => match rule_of(line@) {
                    Some((_, cs)) => !counts_fit(cs),
                    None => true,
                },
            },
    {
        let p = match find_split(line) {
            Some(p) => p,
            None => {
                return None;
            },
        };
        let len = line.unicode_len();
        proof {
            lemma_largest_split(line@, line@.len() as int);
        }
        let contents = match parse_contents_of(line, p + 14, len - 1) {
            Some(cs) => cs,
            None => {
                return None;
            },
        };
        let name = String::from_str(line.substring_char(0, p));
        Some(BagRule { name, contents })
    }
}

} // verus!
