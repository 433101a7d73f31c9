use advent::passport::{
    check_block, count_valid, not_empty, parse_line, validate_birth_year, validate_expiration_year,
    validate_eye_colour, validate_hair_colour, validate_height, validate_issue_year,
    validate_passport, validate_passport_id, RuleSet,
};

fn load(text: &str) -> Vec<Vec<(String, String)>> {
    text.split("\n\n")
        .filter(|block| !block.is_empty())
        .map(|block| parse_line(block))
        .collect()
}

const EXAMPLE: &str = "ecl:gry pid:860033327 eyr:2020 hcl:#fffffd
byr:1937 iyr:2017 cid:147 hgt:183cm

iyr:2013 ecl:amb cid:350 eyr:2023 pid:028048884
hcl:#cfa07d byr:1929

hcl:#ae17e1 iyr:2013
eyr:2024
ecl:brn pid:760753108 byr:1931
hgt:179cm

hcl:#cfa07d eyr:2025 pid:166559648
iyr:2011 ecl:brn hgt:59in
";

const INVALID: &str = "eyr:1972 cid:100
hcl:#18171d ecl:amb hgt:170 pid:186cm iyr:2018 byr:1926

iyr:2019
hcl:#602927 eyr:1967 hgt:170cm
ecl:grn pid:012533040 byr:1946

hcl:dab227 iyr:2012
ecl:brn hgt:182cm pid:021572410 eyr:2020 byr:1992 cid:277

hgt:59cm ecl:zzz
eyr:2038 hcl:74454a iyr:2023
pid:3556412378 byr:2007
";

const VALID: &str = "pid:087499704 hgt:74in ecl:grn iyr:2012 eyr:2030 byr:1980
hcl:#623a2f

eyr:2029 ecl:blu cid:129 byr:1989
iyr:2014 pid:896056539 hcl:#a97842 hgt:165cm

hcl:#888785
hgt:164cm byr:2001 iyr:2015 cid:88
pid:545766238 ecl:hzl
eyr:2022

iyr:2010 hgt:158cm hcl:#b6652a ecl:blu byr:1944 eyr:2021 pid:093154719
";

#[test]
fn parses_fields_in_order() {
    let fields = parse_line("ecl:gry pid:860033327\n eyr:2020\t");
    assert_eq!(
        fields,
        vec![
            ("ecl".to_string(), "gry".to_string()),
            ("pid".to_string(), "860033327".to_string()),
            ("eyr".to_string(), "2020".to_string()),
        ]
    );
    assert_eq!(parse_line(""), vec![]);
    assert_eq!(parse_line("  \n "), vec![]);
    assert_eq!(
        parse_line("k:"),
        vec![("k".to_string(), "".to_string())]
    );
}

#[test]
fn rejects_words_without_exactly_one_colon() {
    assert!(check_block("a:b c:d"));
    assert!(!check_block("ecl:gry pid"));
    assert!(!check_block("a:b:c"));
}

#[test]
fn passport_example_counts() {
    let input = load(EXAMPLE);
    assert_eq!(input.len(), 4);
    assert_eq!(count_valid(&input, RuleSet::Presence), 2);
    assert_eq!(count_valid(&input, RuleSet::Full), 2);
}

#[test]
fn invalid_and_valid_examples() {
    let invalid = load(INVALID);
    assert_eq!(count_valid(&invalid, RuleSet::Full), 0);
    assert_eq!(count_valid(&invalid, RuleSet::Presence), 4);
    let valid = load(VALID);
    assert_eq!(count_valid(&valid, RuleSet::Full), 4);
    assert_eq!(count_valid(&valid, RuleSet::Presence), 4);
}

#[test]
fn full_validity_implies_presence_validity() {
    for passport in load(EXAMPLE).iter().chain(load(INVALID).iter()).chain(load(VALID).iter()) {
        if validate_passport(passport, RuleSet::Full) {
            assert!(validate_passport(passport, RuleSet::Presence));
        }
    }
}

#[test]
fn missing_or_empty_field_fails() {
    let mut fields = parse_line(
        "pid:087499704 hgt:74in ecl:grn iyr:2012 eyr:2030 byr:1980 hcl:#623a2f",
    );
    assert!(validate_passport(&fields, RuleSet::Presence));
    fields.retain(|(k, _)| k != "hgt");
    assert!(!validate_passport(&fields, RuleSet::Presence));
    fields.push(("hgt".to_string(), "".to_string()));
    assert!(!validate_passport(&fields, RuleSet::Presence));
}

#[test]
fn later_duplicate_field_wins() {
    let fields = parse_line(
        "pid:087499704 hgt:74in ecl:grn iyr:2012 eyr:2030 byr:1980 hcl:#623a2f byr:1900",
    );
    assert!(!validate_passport(&fields, RuleSet::Full));
}

#[test]
fn height_boundaries() {
    assert!(!validate_height("149cm"));
    assert!(validate_height("150cm"));
    assert!(validate_height("193cm"));
    assert!(!validate_height("194cm"));
    assert!(!validate_height("58in"));
    assert!(validate_height("59in"));
    assert!(validate_height("76in"));
    assert!(!validate_height("77in"));
    assert!(!validate_height("190"));
    assert!(!validate_height("190mm"));
    assert!(!validate_height("cm"));
    assert!(!validate_height("60 in"));
    assert!(validate_height("0150cm"));
    assert!(!validate_height("99999999999999999999999cm"));
}

#[test]
fn year_fields() {
    assert!(validate_birth_year("1920"));
    assert!(validate_birth_year("2002"));
    assert!(!validate_birth_year("2003"));
    assert!(!validate_birth_year("1919"));
    assert!(!validate_birth_year("02002"));
    assert!(!validate_birth_year("19a0"));
    assert!(validate_issue_year("2010"));
    assert!(!validate_issue_year("2021"));
    assert!(validate_expiration_year("2030"));
    assert!(!validate_expiration_year("2019"));
}

#[test]
fn colour_and_id_fields() {
    assert!(validate_hair_colour("#123abc"));
    assert!(!validate_hair_colour("#123abz"));
    assert!(!validate_hair_colour("123abc"));
    assert!(!validate_hair_colour("#123ABC"));
    assert!(validate_eye_colour("brn"));
    assert!(validate_eye_colour("oth"));
    assert!(!validate_eye_colour("wat"));
    assert!(!validate_eye_colour("brnn"));
    assert!(validate_passport_id("000000001"));
    assert!(!validate_passport_id("0123456789"));
    assert!(!validate_passport_id("00000000a"));
    assert!(not_empty("x"));
    assert!(!not_empty(""));
}
