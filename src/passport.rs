//! Passports as lists of `key:value` fields, and the two rule-sets that
//! judge them.

use crate::text::{
    all_digits,
    digits_value,
    is_digit,
    lemma_digit_run_stops,
    scan_number,
};
use vstd::prelude::*;
use vstd::string::*;

verus! {

/// The two rule-sets; both require the same seven fields.
#[derive(Clone, Copy, Debug, PartialEq, Eq)]
pub enum RuleSet {
    /// Each required field is present with a non-empty value.
    Presence,
    /// Each required field is present with a value of the right form.
    Full,
}

/// The seven required fields.
#[derive(Clone, Copy, Debug, PartialEq, Eq)]
pub enum Field {
    BirthYear,
    IssueYear,
    ExpirationYear,
    Height,
    HairColour,
    EyeColour,
    PassportId,
}

pub open spec fn key_of(f: Field) -> Seq<char> {
    match f {
        Field::BirthYear => seq!['b', 'y', 'r'],
        Field::IssueYear => seq!['i', 'y', 'r'],
        Field::ExpirationYear => seq!['e', 'y', 'r'],
        Field::Height => seq!['h', 'g', 't'],
        Field::HairColour => seq!['h', 'c', 'l'],
        Field::EyeColour => seq!['e', 'c', 'l'],
        Field::PassportId => seq!['p', 'i', 'd'],
    }
}

/// The value of `key` in `fields`; where the key occurs more than once, the
/// last occurrence counts.
pub open spec fn field_value(fields: Seq<(String, String)>, key: Seq<char>) -> Option<Seq<char>>
    decreases fields.len(),
{
    if fields.len() == 0 {
        None
    } else if fields.last().0@ == key {
        Some(fields.last().1@)
    } else {
        field_value(fields.drop_last(), key)
    }
}

/// Exactly four digits spelling a number in `[lo, hi]`.
pub open spec fn year_ok(v: Seq<char>, lo: nat, hi: nat) -> bool {
    v.len() == 4 && all_digits(v) && lo <= digits_value(v) <= hi
}

/// Digits followed by `cm` (150 to 193) or `in` (59 to 76).
pub open spec fn height_ok(v: Seq<char>) -> bool {
    let n = v.len() - 2;
    let h = digits_value(v.subrange(0, n));
    &&& v.len() >= 3
    &&& all_digits(v.subrange(0, n))
    &&& ((v[n] == 'c' && v[n + 1] == 'm' && 150 <= h <= 193) || (v[n] == 'i' && v[n + 1] == 'n'
        && 59 <= h <= 76))
}

pub open spec fn is_lower_hex(c: char) -> bool {
    is_digit(c) || ('a' <= c && c <= 'f')
}

/// `#` and six lowercase hexadecimal digits.
pub open spec fn hair_colour_ok(v: Seq<char>) -> bool {
    v.len() == 7 && v[0] == '#' && forall|i: int| 1 <= i < 7 ==> is_lower_hex(#[trigger] v[i])
}

pub open spec fn eye_colour_ok(v: Seq<char>) -> bool {
    ||| v == seq!['a', 'm', 'b']
    ||| v == seq!['b', 'l', 'u']
    ||| v == seq!['b', 'r', 'n']
    ||| v == seq!['g', 'r', 'y']
    ||| v == seq!['g', 'r', 'n']
    ||| v == seq!['h', 'z', 'l']
    ||| v == seq!['o', 't', 'h']
}

/// Exactly nine digits.
pub open spec fn passport_id_ok(v: Seq<char>) -> bool {
    v.len() == 9 && all_digits(v)
}

/// What `rules` asks of the value of field `f`.
pub open spec fn value_ok(rules: RuleSet, f: Field, v: Seq<char>) -> bool {
    match rules {
        RuleSet::Presence => v.len() > 0,
        RuleSet::Full => match f {
            Field::BirthYear => year_ok(v, 1920, 2002),
            Field::IssueYear => year_ok(v, 2010, 2020),
            Field::ExpirationYear => year_ok(v, 2020, 2030),
            Field::Height => height_ok(v),
            Field::HairColour => hair_colour_ok(v),
            Field::EyeColour => eye_colour_ok(v),
            Field::PassportId => passport_id_ok(v),
        },
    }
}

/// Field `f` is present and its value meets `rules`.
pub open spec fn field_ok(fields: Seq<(String, String)>, rules: RuleSet, f: Field) -> bool {
    match field_value(fields, key_of(f)) {
        Some(v) => value_ok(rules, f, v),
        None => false,
    }
}

pub open spec fn passport_valid(fields: Seq<(String, String)>, rules: RuleSet) -> bool {
    forall|f: Field| #[trigger] field_ok(fields, rules, f)
}

/// How many of the passports are valid under `rules`.
pub open spec fn count_passing(input: Seq<Vec<(String, String)>>, rules: RuleSet) -> nat
    decreases input.len(),
{
    if input.len() == 0 {
        0
    } else {
        count_passing(input.drop_last(), rules) + if passport_valid(input.last()@, rules) {
            1nat
        } else {
            0nat
        }
    }
}

pub open spec fn is_ascii_space(c: char) -> bool {
    c == ' ' || c == '\t' || c == '\n' || c == '\r' || c == '\x0C'
}

/// The first position at or after `from` that holds no whitespace (or the
/// end).
pub open spec fn skip_space(s: Seq<char>, from: int) -> int
    decreases s.len() - from,
{
    if from >= s.len() || !is_ascii_space(s[from]) {
        from
    } else {
        skip_space(s, from + 1)
    }
}

/// The first whitespace at or after `from` (or the end).
pub open spec fn word_end(s: Seq<char>, from: int) -> int
    decreases s.len() - from,
{
    if from >= s.len() || is_ascii_space(s[from]) {
        from
    } else {
        word_end(s, from + 1)
    }
}

/// The first `:` in `[from, to)` (or `to`).
pub open spec fn first_colon(s: Seq<char>, from: int, to: int) -> int
    decreases to - from,
{
    if from >= to || s[from] == ':' {
        from
    } else {
        first_colon(s, from + 1, to)
    }
}

/// The word `[a, b)` as `key:value`, with exactly one colon.
pub open spec fn split_pair(s: Seq<char>, a: int, b: int) -> Option<(Seq<char>, Seq<char>)> {
    let c = first_colon(s, a, b);
    if c < b && first_colon(s, c + 1, b) == b {
        Some((s.subrange(a, c), s.subrange(c + 1, b)))
    } else {
        None
    }
}

/// The fields of the words from `from` on, in order.
pub open spec fn fields_from(s: Seq<char>, from: int) -> Option<Seq<(Seq<char>, Seq<char>)>>
    decreases s.len() - from,
{
    let a = skip_space(s, from);
    let b = word_end(s, a);
    if a >= s.len() || from < 0 || from >= s.len() {
        Some(Seq::empty())
    } else if from < b <= s.len() {
        match split_pair(s, a, b) {
            None => None,
            Some(kv) => match fields_from(s, b) {
                Some(rest) => Some(seq![kv] + rest),
                None => None,
            },
        }
    } else {
        None
    }
}

pub open spec fn fields_view(fields: Seq<(String, String)>) -> Seq<(Seq<char>, Seq<char>)> {
    fields.map_values(|p: (String, String)| (p.0@, p.1@))
}

proof fn lemma_skip_space(s: Seq<char>, from: int)
    requires
        0 <= from <= s.len(),
    ensures
        from <= skip_space(s, from) <= s.len(),
        skip_space(s, from) < s.len() ==> !is_ascii_space(s[skip_space(s, from)]),
    decreases s.len() - from,
{
    if from < s.len() && is_ascii_space(s[from]) {
        lemma_skip_space(s, from + 1);
    }
}

proof fn lemma_word_end(s: Seq<char>, from: int)
    requires
        0 <= from <= s.len(),
    ensures
        from <= word_end(s, from) <= s.len(),
        from < s.len() && !is_ascii_space(s[from]) ==> word_end(s, from) > from,
    decreases s.len() - from,
{
    if from < s.len() && !is_ascii_space(s[from]) {
        lemma_word_end(s, from + 1);
    }
}

fn is_space(c: char) -> (r: bool)
    ensures
        r == is_ascii_space(c),
{
    c == ' ' || c == '\t' || c == '\n' || c == '\r' || c == '\x0C'
}

fn skip_space_exec(s: &str, from: usize) -> (r: usize)
    requires
        from <= s@.len(),
    ensures
        r == skip_space(s@, from as int),
{
    let len = s.unicode_len();
    let mut i: usize = from;
    while i < len && is_space(s.get_char(i))
        invariant
            len == s@.len(),
            from <= i <= len,
            skip_space(s@, from as int) == skip_space(s@, i as int),
        decreases len - i,
    {
        i = i + 1;
    }
    i
}

fn word_end_exec(s: &str, from: usize) -> (r: usize)
    requires
        from <= s@.len(),
    ensures
        r == word_end(s@, from as int),
{
    let len = s.unicode_len();
    let mut i: usize = from;
    while i < len && !is_space(s.get_char(i))
        invariant
            len == s@.len(),
            from <= i <= len,
            word_end(s@, from as int) == word_end(s@, i as int),
        decreases len - i,
    {
        i = i + 1;
    }
    i
}

fn first_colon_exec(s: &str, from: usize, to: usize) -> (r: usize)
    requires
        from <= to <= s@.len(),
    ensures
        r == first_colon(s@, from as int, to as int),
        from <= r <= to,
{
    let mut i: usize = from;
    while i < to && s.get_char(i) != ':'
        invariant
            from <= i <= to <= s@.len(),
            first_colon(s@, from as int, to as int) == first_colon(s@, i as int, to as int),
        decreases to - i,
    {
        i = i + 1;
    }
    i
}

/// `Some(pre + rest)` where `tail` is `Some(rest)`, else `None`.
pub open spec fn prepend_fields(
    pre: Seq<(Seq<char>, Seq<char>)>,
    tail: Option<Seq<(Seq<char>, Seq<char>)>>,
) -> Option<Seq<(Seq<char>, Seq<char>)>> {
    match tail {
        Some(rest) => Some(pre + rest),
        None => None,
    }
}

/// Reads one passport; `None` where a word does not hold exactly one colon.
fn read_fields(line: &str) -> (r: Option<Vec<(String, String)>>)
    ensures
        match r {
            Some(fields) => fields_from(line@, 0) == Some(fields_view(fields@)),
            None => fields_from(line@, 0) is None,
        },
{
    let len = line.unicode_len();
    let mut out: Vec<(String, String)> = Vec::new();
    let mut pos: usize = 0;
    proof {
        assert(fields_view(out@) =~= Seq::<(Seq<char>, Seq<char>)>::empty());
        assert(fields_from(line@, 0) =~~= prepend_fields(fields_view(out@), fields_from(line@, 0)));
    }
    while pos <= len
        invariant
            len == line@.len(),
            pos <= len,
            fields_from(line@, 0) == prepend_fields(fields_view(out@), fields_from(line@, pos as int)),
        decreases len - pos,
    {
        let a = skip_space_exec(line, pos);
        proof {
            lemma_skip_space(line@, pos as int);
        }
        if a >= len {
            proof {
                assert(fields_view(out@) + Seq::empty() =~= fields_view(out@));
            }
            return Some(out);
        }
        let b = word_end_exec(line, a);
        proof {
            lemma_word_end(line@, a as int);
        }
        let c = first_colon_exec(line, a, b);
        if c >= b {
            return None;
        }
        if first_colon_exec(line, c + 1, b) != b {
            return None;
        }
        let key = String::from_str(line.substring_char(a, c));
        let value = String::from_str(line.substring_char(c + 1, b));
        let ghost done = fields_view(out@);
        out.push((key, value));
        proof {
            let kv = (key@, value@);
            assert(fields_view(out@) =~= done + seq![kv]);
            match fields_from(line@, b as int) {
                Some(rest) => {
                    assert(done + (seq![kv] + rest) =~= fields_view(out@) + rest);
                },
                None => {},
            }
        }
        pos = b;
    }
    None
}

/// `key:value` words separated by ASCII whitespace, each word with
/// exactly one colon.
pub open spec fn is_passport_block(line: Seq<char>) -> bool {
    fields_from(line, 0) is Some
}

/// Whether `line` is a well-formed passport.
pub fn check_block(line: &str) -> (r: bool)
    ensures
        r == is_passport_block(line@),
{
    match read_fields(line) {
        Some(_) => true,
        None => false,
    }
}

/// Reads a well-formed passport: its `key:value` words, in order.
pub fn parse_line(line: &str) -> (r: Vec<(String, String)>)
    requires
        is_passport_block(line@),
    ensures
        fields_from(line@, 0) == Some(fields_view(r@)),
{
    match read_fields(line) {
        Some(fields) => fields,
        None => Vec::new(),
    }
}

pub fn not_empty(input: &str) -> (r: bool)
    ensures
        r == (input@.len() > 0),
{
    input.unicode_len() != 0
}

/// Four digits spelling a number in `[lo, hi]`.
fn year_in_range(input: &str, lo: usize, hi: usize) -> (r: bool)
    ensures
        r == year_ok(input@, lo as nat, hi as nat),
{
    if input.unicode_len() != 4 {
        return false;
    }
    let (end, value) = scan_number(input, 0);
    proof {
        assert(input@.subrange(0, 4) =~= input@);
        if all_digits(input@) {
            lemma_digit_run_stops(input@, 0, 4);
        }
    }
    if end != 4 {
        return false;
    }
    match value {
        Some(year) => year >= lo && year <= hi,
        None => false,
    }
}

pub fn validate_birth_year(input: &str) -> (r: bool)
    ensures
        r == year_ok(input@, 1920, 2002),
{
    year_in_range(input, 1920, 2002)
}

pub fn validate_issue_year(input: &str) -> (r: bool)
    ensures
        r == year_ok(input@, 2010, 2020),
{
    year_in_range(input, 2010, 2020)
}

pub fn validate_expiration_year(input: &str) -> (r: bool)
    ensures
        r == year_ok(input@, 2020, 2030),
{
    year_in_range(input, 2020, 2030)
}

/// The unit of a height.
#[derive(Clone, Copy, Debug, PartialEq, Eq)]
pub enum Unit {
    CM,
    Inches,
}

pub fn validate_height(input: &str) -> (r: bool)
    ensures
        r == height_ok(input@),
{
    let len = input.unicode_len();
    if len < 3 {
        return false;
    }
    let n = len - 2;
    let (end, value) = scan_number(input, 0);
    proof {
        let v = input@;
        if all_digits(v.subrange(0, n as int)) && !is_digit(v[n as int]) {
            lemma_digit_run_stops(v, 0, n as int);
        }
    }
    if end != n {
        return false;
    }
    let unit = if input.get_char(n) == 'c' && input.get_char(n + 1) == 'm' {
        Unit::CM
    } else if input.get_char(n) == 'i' && input.get_char(n + 1) == 'n' {
        Unit::Inches
    } else {
        return false;
    };
    let height = match value {
        Some(h) => h,
        None => {
            return false;
        },
    };
    match unit {
        Unit::CM => height >= 150 && height <= 193,
        Unit::Inches => height >= 59 && height <= 76,
    }
}

fn is_lower_hex_digit(c: char) -> (r: bool)
    ensures
        r == is_lower_hex(c),
{
    ('0' <= c && c <= '9') || ('a' <= c && c <= 'f')
}

pub fn validate_hair_colour(input: &str) -> (r: bool)
    ensures
        r == hair_colour_ok(input@),
{
    if input.unicode_len() != 7 || input.get_char(0) != '#' {
        return false;
    }
    let mut i: usize = 1;
    while i < 7
        invariant
            input@.len() == 7,
            1 <= i <= 7,
            forall|k: int| 1 <= k < i ==> is_lower_hex(#[trigger] input@[k]),
        decreases 7 - i,
    {
        if !is_lower_hex_digit(input.get_char(i)) {
            return false;
        }
        i = i + 1;
    }
    true
}

/// Whether `s` is the three characters `a`, `b`, `c`.
fn is_word3(s: &str, a: char, b: char, c: char) -> (r: bool)
    ensures
        r == (s@ == seq![a, b, c]),
{
    if s.unicode_len() != 3 {
        return false;
    }
    let r = s.get_char(0) == a && s.get_char(1) == b && s.get_char(2) == c;
    proof {
        if r {
            assert(s@ =~= seq![a, b, c]);
        }
    }
    r
}

pub fn validate_eye_colour(input: &str) -> (r: bool)
    ensures
        r == eye_colour_ok(input@),
{
    is_word3(input, 'a', 'm', 'b') || is_word3(input, 'b', 'l', 'u') || is_word3(
        input,
        'b',
        'r',
        'n',
    ) || is_word3(input, 'g', 'r', 'y') || is_word3(input, 'g', 'r', 'n') || is_word3(
        input,
        'h',
        'z',
        'l',
    ) || is_word3(input, 'o', 't', 'h')
}

pub fn validate_passport_id(input: &str) -> (r: bool)
    ensures
        r == passport_id_ok(input@),
{
    if input.unicode_len() != 9 {
        return false;
    }
    let (end, _) = scan_number(input, 0);
    proof {
        assert(input@.subrange(0, 9) =~= input@);
        if all_digits(input@) {
            lemma_digit_run_stops(input@, 0, 9);
        }
    }
    end == 9
}

fn key_chars(f: Field) -> (r: (char, char, char))
    ensures
        seq![r.0, r.1, r.2] == key_of(f),
{
    match f {
        Field::BirthYear => ('b', 'y', 'r'),
        Field::IssueYear => ('i', 'y', 'r'),
        Field::ExpirationYear => ('e', 'y', 'r'),
        Field::Height => ('h', 'g', 't'),
        Field::HairColour => ('h', 'c', 'l'),
        Field::EyeColour => ('e', 'c', 'l'),
        Field::PassportId => ('p', 'i', 'd'),
    }
}

/// Where the value of field `f` stands: the last field with its key.
fn find_field(passport: &Vec<(String, String)>, f: Field) -> (r: Option<usize>)
    ensures
        match r {
            Some(i) => i < passport@.len() && field_value(passport@, key_of(f)) == Some(
                passport@[i as int].1@,
            ),
            None => field_value(passport@, key_of(f)) is None,
        },
{
    let (a, b, c) = key_chars(f);
    let mut i: usize = passport.len();
    proof {
        assert(passport@.subrange(0, i as int) =~= passport@);
    }
    while i > 0
        invariant
            i <= passport@.len(),
            seq![a, b, c] == key_of(f),
            field_value(passport@, key_of(f)) == field_value(
                passport@.subrange(0, i as int),
                key_of(f),
            ),
        decreases i,
    {
        i = i - 1;
        proof {
            assert(passport@.subrange(0, i + 1).drop_last() =~= passport@.subrange(0, i as int));
        }
        if is_word3(passport[i].0.as_str(), a, b, c) {
            return Some(i);
        }
    }
    None
}

/// Whether `input` meets what `rules` asks of field `f`.
fn check_value(rules: RuleSet, f: Field, input: &str) -> (r: bool)
    ensures
        r == value_ok(rules, f, input@),
{
    match rules {
        RuleSet::Presence => not_empty(input),
        RuleSet::Full => match f {
            Field::BirthYear => validate_birth_year(input),
            Field::IssueYear => validate_issue_year(input),
            Field::ExpirationYear => validate_expiration_year(input),
            Field::Height => validate_height(input),
            Field::HairColour => validate_hair_colour(input),
            Field::EyeColour => validate_eye_colour(input),
            Field::PassportId => validate_passport_id(input),
        },
    }
}

fn check_field(passport: &Vec<(String, String)>, rules: RuleSet, f: Field) -> (r: bool)
    ensures
        r == field_ok(passport@, rules, f),
{
    match find_field(passport, f) {
        Some(i) => check_value(rules, f, passport[i].1.as_str()),
        None => false,
    }
}

/// Every required field is present and its value meets `rules`.
pub fn validate_passport(passport: &Vec<(String, String)>, rules: RuleSet) -> (r: bool)
    ensures
        r == passport_valid(passport@, rules),
{
    let ok = check_field(passport, rules, Field::BirthYear) && check_field(
        passport,
        rules,
        Field::IssueYear,
    ) && check_field(passport, rules, Field::ExpirationYear) && check_field(
        passport,
        rules,
        Field::Height,
    ) && check_field(passport, rules, Field::HairColour) && check_field(
        passport,
        rules,
        Field::EyeColour,
    ) && check_field(passport, rules, Field::PassportId);
    proof {
        if ok {
            assert forall|f: Field| #[trigger] field_ok(passport@, rules, f) by {
                match f {
                    Field::BirthYear => {},
                    Field::IssueYear => {},
                    Field::ExpirationYear => {},
                    Field::Height => {},
                    Field::HairColour => {},
                    Field::EyeColour => {},
                    Field::PassportId => {},
                }
            }
        }
    }
    ok
}

/// How many passports are valid under `rules`.
pub fn count_valid(input: &[Vec<(String, String)>], rules: RuleSet) -> (r: usize)
    ensures
        r == count_passing(input@, rules),
{
    let mut count: usize = 0;
    let mut i: usize = 0;
    while i < input.len()
        invariant
            i <= input@.len(),
            count <= i,
            count == count_passing(input@.subrange(0, i as int), rules),
        decreases input@.len() - i,
    {
        proof {
            assert(input@.subrange(0, i + 1).drop_last() =~= input@.subrange(0, i as int));
        }
        if validate_passport(&input[i], rules) {
            count = count + 1;
        }
        i = i + 1;
    }
    proof {
        assert(input@.subrange(0, i as int) =~= input@);
    }
    count
}

/// A passport valid under the full rule-set is valid under the presence
/// rule-set: the full rules ask for the same fields, and none of them
/// accepts an empty value.
pub proof fn lemma_full_implies_presence(fields: Seq<(String, String)>)
    requires
        passport_valid(fields, RuleSet::Full),
    ensures
        passport_valid(fields, RuleSet::Presence),
{
    assert forall|f: Field| #[trigger] field_ok(fields, RuleSet::Presence, f) by {
        assert(field_ok(fields, RuleSet::Full, f));
    }
}

} // verus!
