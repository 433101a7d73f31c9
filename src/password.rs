//! Password records (`N1-N2 L: password`) and the two policies that judge
//! them.

use crate::text::{digit_run, digits_value, scan_number};
use vstd::prelude::*;
use vstd::string::*;

verus! {

/// One record: a password and the policy it was set under.
pub struct PasswordInput {
    pub password: String,
    pub policy_letter: char,
    pub policy_num_1: usize,
    pub policy_num_2: usize,
}

/// The two ways of reading a policy.
#[derive(Clone, Copy, Debug, PartialEq, Eq)]
pub enum PasswordRule {
    /// The letter occurs between `policy_num_1` and `policy_num_2` times.
    Range,
    /// The letter stands at exactly one of the two 1-based positions.
    Position,
}

/// How many times `c` occurs in `s`.
pub open spec fn letter_count(s: Seq<char>, c: char) -> nat
    decreases s.len(),
{
    if s.len() == 0 {
        0
    } else {
        letter_count(s.drop_last(), c) + if s.last() == c {
            1nat
        } else {
            0nat
        }
    }
}

pub open spec fn range_rule(s: Seq<char>, c: char, lo: int, hi: int) -> bool {
    lo <= letter_count(s, c) <= hi
}

/// The 1-based position `pos` exists in `s` and holds `c`; a position out
/// of range holds nothing.
pub open spec fn letter_at(s: Seq<char>, c: char, pos: int) -> bool {
    1 <= pos <= s.len() && s[pos - 1] == c
}

pub open spec fn position_rule(s: Seq<char>, c: char, p1: int, p2: int) -> bool {
    letter_at(s, c, p1) != letter_at(s, c, p2)
}

impl PasswordInput {
    pub open spec fn passes(&self, rule: PasswordRule) -> bool {
        match rule {
            PasswordRule::Range => range_rule(
                self.password@,
                self.policy_letter,
                self.policy_num_1 as int,
                self.policy_num_2 as int,
            ),
            PasswordRule::Position => position_rule(
                self.password@,
                self.policy_letter,
                self.policy_num_1 as int,
                self.policy_num_2 as int,
            ),
        }
    }
}

/// How many of the records pass `rule`.
pub open spec fn count_passing(input: Seq<PasswordInput>, rule: PasswordRule) -> nat
    decreases input.len(),
{
    if input.len() == 0 {
        0
    } else {
        count_passing(input.drop_last(), rule) + if input.last().passes(rule) {
            1nat
        } else {
            0nat
        }
    }
}

/// No line break anywhere in `s`.
pub open spec fn single_line(s: Seq<char>) -> bool {
    forall|i: int| 0 <= i < s.len() ==> s[i] != '\n'
}

/// The fields of a line `N1-N2 L: password`: two runs of digits, a single
/// letter (any character but a line break) and a non-empty password on the
/// same line; `None` where the line has another shape.
pub open spec fn password_line_fields(line: Seq<char>) -> Option<(nat, nat, char, Seq<char>)> {
    let n1 = digit_run(line, 0) as int;
    let b = n1 + 1;
    let n2 = digit_run(line, b) as int;
    let l = b + n2 + 1;
    if n1 > 0 && line.len() > n1 && line[n1] == '-' && n2 > 0 && line.len() > l + 3 && line[b
        + n2] == ' ' && line[l] != '\n' && line[l + 1] == ':' && line[l + 2] == ' '
        && single_line(line.subrange(l + 3, line.len() as int)) {
        Some(
            (
                digits_value(line.subrange(0, n1)),
                digits_value(line.subrange(b, b + n2)),
                line[l],
                line.subrange(l + 3, line.len() as int),
            ),
        )
    } else {
        None
    }
}

/// Whether `s` holds no line break from position `from` on.
fn single_line_from(s: &str, from: usize) -> (r: bool)
    requires
        from <= s@.len(),
    ensures
        r == single_line(s@.subrange(from as int, s@.len() as int)),
{
    let len = s.unicode_len();
    let mut i: usize = from;
    while i < len
        invariant
            len == s@.len(),
            from <= i <= len,
            forall|k: int| from <= k < i ==> s@[k] != '\n',
        decreases len - i,
    {
        if s.get_char(i) == '\n' {
            proof {
                assert(s@.subrange(from as int, len as int)[i - from] == '\n');
            }
            return false;
        }
        i = i + 1;
    }
    true
}

/// Reads one record line; `None` where the line is malformed or a number
/// does not fit in a `usize`.
fn read_line(line: &str) -> (r: Option<PasswordInput>)
    ensures
        match r {
            Some(p) => password_line_fields(line@) == Some(
                (p.policy_num_1 as nat, p.policy_num_2 as nat, p.policy_letter, p.password@),
            ),
            None => match password_line_fields(line@) {
                Some(f) => f.0 > usize::MAX || f.1 > usize::MAX,
                None => true,
            },
        },
{
    let len = line.unicode_len();
    let (e1, v1) = scan_number(line, 0);
    if e1 == 0 || e1 >= len || line.get_char(e1) != '-' {
        return None;
    }
    let b = e1 + 1;
    let (e2, v2) = scan_number(line, b);
    if e2 == b || e2 >= len || line.get_char(e2) != ' ' {
        return None;
    }
    let l = e2 + 1;
    if len - l <= 3 || line.get_char(l) == '\n' || line.get_char(l + 1) != ':' || line.get_char(
        l + 2,
    ) != ' ' {
        return None;
    }
    if !single_line_from(line, l + 3) {
        return None;
    }
    let (n1, n2) = match (v1, v2) {
        (Some(n1), Some(n2)) => (n1, n2),
        _ => {
            return None;
        },
    };
    let letter = line.get_char(l);
    let password = String::from_str(line.substring_char(l + 3, len));
    Some(
        PasswordInput {
            password,
            policy_letter: letter,
            policy_num_1: n1,
            policy_num_2: n2,
        },
    )
}

/// A line `N1-N2 L: password` whose two numbers fit in a `usize`.
pub open spec fn is_record_line(line: Seq<char>) -> bool {
    &&& password_line_fields(line) is Some
    &&& password_line_fields(line).unwrap().0 <= usize::MAX
    &&& password_line_fields(line).unwrap().1 <= usize::MAX
}

/// Whether `line` is a well-formed record line.
pub fn check_line(line: &str) -> (r: bool)
    ensures
        r == is_record_line(line@),
{
    match read_line(line) {
        Some(_) => true,
        None => false,
    }
}

/// Parses a well-formed record line.
pub fn parse_line(line: &str) -> (p: PasswordInput)
    requires
        is_record_line(line@),
    ensures
        password_line_fields(line@) == Some(
            (p.policy_num_1 as nat, p.policy_num_2 as nat, p.policy_letter, p.password@),
        ),
{
    match read_line(line) {
        Some(p) => p,
        None => PasswordInput {
            password: String::new(),
            policy_letter: ' ',
            policy_num_1: 0,
            policy_num_2: 0,
        },
    }
}

/// How many records pass `rule`.
pub fn count_valid(input: &[PasswordInput], rule: PasswordRule) -> (r: usize)
    ensures
        r == count_passing(input@, rule),
{
    let mut count: usize = 0;
    let mut i: usize = 0;
    while i < input.len()
        invariant
            i <= input@.len(),
            count <= i,
            count == count_passing(input@.subrange(0, i as int), rule),
        decreases input@.len() - i,
    {
        proof {
            assert(input@.subrange(0, i + 1).drop_last() =~= input@.subrange(0, i as int));
        }
        let ok = match rule {
            PasswordRule::Range => validate_password_1(&input[i]),
            PasswordRule::Position => validate_password_2(&input[i]),
        };
        if ok {
            count = count + 1;
        }
        i = i + 1;
    }
    proof {
        assert(input@.subrange(0, i as int) =~= input@);
    }
    count
}

/// The range policy: the letter occurs between the two numbers of times,
/// both bounds included.
pub fn validate_password_1(pass_input: &PasswordInput) -> (r: bool)
    ensures
        r == pass_input.passes(PasswordRule::Range),
{
    let s = pass_input.password.as_str();
    let len = s.unicode_len();
    let mut letter_count: usize = 0;
    let mut i: usize = 0;
    while i < len
        invariant
            len == s@.len(),
            s@ == pass_input.password@,
            i <= len,
            letter_count <= i,
            letter_count == crate::password::letter_count(s@.subrange(0, i as int), pass_input.policy_letter),
        decreases len - i,
    {
        proof {
            assert(s@.subrange(0, i + 1).drop_last() =~= s@.subrange(0, i as int));
        }
        if s.get_char(i) == pass_input.policy_letter {
            letter_count = letter_count + 1;
        }
        i = i + 1;
    }
    proof {
        assert(s@.subrange(0, i as int) =~= s@);
    }
    letter_count >= pass_input.policy_num_1 && letter_count <= pass_input.policy_num_2
}

/// Whether the 1-based position `pos` of `s` holds `c`.
fn letter_at_position(s: &str, c: char, pos: usize) -> (r: bool)
    ensures
        r == letter_at(s@, c, pos as int),
{
    let len = s.unicode_len();
    if pos == 0 || pos > len {
        false
    } else {
        s.get_char(pos - 1) == c
    }
}

/// The position policy: exactly one of the two positions holds the letter.
pub fn validate_password_2(pass_input: &PasswordInput) -> (r: bool)
    ensures
        r == pass_input.passes(PasswordRule::Position),
{
    let s = pass_input.password.as_str();
    let first = letter_at_position(s, pass_input.policy_letter, pass_input.policy_num_1);
    let second = letter_at_position(s, pass_input.policy_letter, pass_input.policy_num_2);
    first != second
}

/// Widening a policy's range never turns a passing record into a failing one.
pub proof fn lemma_range_rule_widening(s: Seq<char>, c: char, lo: int, hi: int, lo2: int, hi2: int)
    requires
        range_rule(s, c, lo, hi),
        lo2 <= lo,
        hi <= hi2,
    ensures
        range_rule(s, c, lo2, hi2),
{
}

/// The position policy does not depend on the order of its two positions,
/// out-of-range positions included.
pub proof fn lemma_position_rule_symmetric(s: Seq<char>, c: char, p1: int, p2: int)
    ensures
        position_rule(s, c, p1, p2) == position_rule(s, c, p2, p1),
        !(1 <= p1 <= s.len()) ==> position_rule(s, c, p1, p2) == letter_at(s, c, p2),
{
}

} // verus!
