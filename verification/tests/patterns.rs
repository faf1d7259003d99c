use ami_helper::errors::SelectError;
use ami_helper::filter::Filter;
use ami_helper::prefix::common_prefix;
use ami_helper::text::{split_segments, str_lt};
use ami_helper::version::{extract_version, VersionScheme};

#[test]
fn labeled_count_versions() {
    let r = extract_version(VersionScheme::LabeledCount, "al2023-ami-minimal").unwrap();
    assert_eq!(r, Some((2023, String::from("al2023"))));
    let r = extract_version(VersionScheme::LabeledCount, "amzn2-ami-hvm").unwrap();
    assert_eq!(r, Some((2, String::from("amzn2"))));
    // A missing count defaults to 1.
    let r = extract_version(VersionScheme::LabeledCount, "al-ami").unwrap();
    assert_eq!(r, Some((1, String::from("al"))));
    assert_eq!(extract_version(VersionScheme::LabeledCount, "ubuntu-24").unwrap(), None);
    assert_eq!(extract_version(VersionScheme::LabeledCount, "al2023").unwrap(), None);
}

#[test]
fn plain_integer_versions() {
    let r = extract_version(VersionScheme::PlainInteger, "12/latest/amd64").unwrap();
    assert_eq!(r, Some((12, String::from("12"))));
    assert_eq!(extract_version(VersionScheme::PlainInteger, "012/latest").unwrap(), None);
    assert_eq!(extract_version(VersionScheme::PlainInteger, "12-latest").unwrap(), None);
    assert_eq!(extract_version(VersionScheme::PlainInteger, "stretch/latest").unwrap(), None);
}

#[test]
fn major_minor_versions() {
    let r = extract_version(VersionScheme::MajorMinor, "24.04/stable").unwrap();
    assert_eq!(r, Some((2404, String::from("24.04"))));
    let r = extract_version(VersionScheme::MajorMinor, "9.13/old").unwrap();
    assert_eq!(r, Some((913, String::from("9.13"))));
    // The minor part is exactly two digits.
    assert_eq!(extract_version(VersionScheme::MajorMinor, "12.345/x").unwrap(), None);
    assert_eq!(extract_version(VersionScheme::MajorMinor, "12.3/x").unwrap(), None);
    assert_eq!(extract_version(VersionScheme::MajorMinor, "12/x").unwrap(), None);
}

#[test]
fn oversized_versions_are_parse_defects() {
    let r = extract_version(VersionScheme::PlainInteger, "99999999999999999999999999/x");
    assert_eq!(r.unwrap_err(), SelectError::VersionParseAmbiguous);
}

#[test]
fn version_patterns_agree_with_their_regexes() {
    let amazon = regex::Regex::new(r"^((al|amzn)([0-9]*))-").unwrap();
    let debian = regex::Regex::new(r"^([1-9][0-9]*)/").unwrap();
    let ubuntu = regex::Regex::new(r"^([1-9][0-9]*)[.]([0-9][0-9])/").unwrap();
    let samples = [
        "al2023-ami",
        "amzn2-ami",
        "al-ami",
        "amzn-",
        "alpha-1",
        "12/latest",
        "012/latest",
        "1/",
        "24.04/stable",
        "24.4/stable",
        "24.045/stable",
        "",
        "al2023",
    ];
    for s in samples {
        let got = extract_version(VersionScheme::LabeledCount, s).unwrap();
        match amazon.captures(s) {
            Some(c) => {
                let tok = c.get(1).unwrap().as_str();
                let digits = c.get(3).unwrap().as_str();
                let v = if digits.is_empty() { 1 } else { digits.parse::<usize>().unwrap() };
                assert_eq!(got, Some((v, String::from(tok))), "amazon: {}", s);
            },
            None => assert_eq!(got, None, "amazon: {}", s),
        }
        let got = extract_version(VersionScheme::PlainInteger, s).unwrap();
        match debian.captures(s) {
            Some(c) => {
                let tok = c.get(1).unwrap().as_str();
                assert_eq!(
                    got,
                    Some((tok.parse::<usize>().unwrap(), String::from(tok))),
                    "debian: {}",
                    s
                );
            },
            None => assert_eq!(got, None, "debian: {}", s),
        }
        let got = extract_version(VersionScheme::MajorMinor, s).unwrap();
        match ubuntu.captures(s) {
            Some(c) => {
                let major = c.get(1).unwrap().as_str().parse::<usize>().unwrap();
                let minor = c.get(2).unwrap().as_str().parse::<usize>().unwrap();
                let tok = format!("{}.{:02}", major, minor);
                assert_eq!(got, Some((major * 100 + minor, tok)), "ubuntu: {}", s);
            },
            None => assert_eq!(got, None, "ubuntu: {}", s),
        }
    }
}

#[test]
fn empty_disjunction_accepts_everything() {
    let or = Filter::Or(vec![]);
    assert!(or.matches(0));
    assert!(or.matches(u128::MAX));
    assert!(or.matches(0b1010));
}

#[test]
fn singleton_disjunction_matches_like_its_member() {
    let member = Filter::MaskEqualsValue { mask: 0b1100, value: 0b0100 };
    let or = Filter::Or(vec![Filter::MaskEqualsValue { mask: 0b1100, value: 0b0100 }]);
    for b in [0u128, 0b0100, 0b0111, 0b1100, 0b0101, u128::MAX] {
        assert_eq!(or.matches(b), member.matches(b));
    }
}

#[test]
fn mask_equals_value_cases() {
    let f = Filter::MaskEqualsValue { mask: 0b0011, value: 0b0001 };
    // Equal to the value: accepted.
    assert!(f.matches(0b0001));
    // Extra bits outside the mask: still accepted.
    assert!(f.matches(0b1101));
    // A difference inside the mask: rejected.
    assert!(!f.matches(0b0011));
    assert!(!f.matches(0b0000));
}

#[test]
fn always_true_accepts_everything() {
    assert!(Filter::AlwaysTrue.matches(0));
    assert!(Filter::AlwaysTrue.matches(u128::MAX));
}

#[test]
fn common_prefix_rounds_down_to_a_separator() {
    let names = vec![String::from("ab/cdx"), String::from("ab/cdy")];
    assert_eq!(common_prefix(&names, '/'), "ab/");
}

#[test]
fn common_prefix_at_exact_separator() {
    let names = vec![
        String::from("abc/def/x"),
        String::from("abc/def/y"),
        String::from("abc/def/z"),
    ];
    assert_eq!(common_prefix(&names, '/'), "abc/def/");
}

#[test]
fn common_prefix_without_separator_cuts_at_divergence() {
    let names = vec![String::from("al2023"), String::from("al2022")];
    assert_eq!(common_prefix(&names, '/'), "al202");
}

#[test]
fn common_prefix_of_single_name_is_the_whole_name() {
    let names = vec![String::from("abc/def")];
    assert_eq!(common_prefix(&names, '/'), "abc/def");
}

#[test]
fn common_prefix_of_nothing_is_empty() {
    let names: Vec<String> = vec![];
    assert_eq!(common_prefix(&names, '/'), "");
}

#[test]
fn stripping_then_prepending_reconstructs_names() {
    let names = vec![
        String::from("/a/b/one"),
        String::from("/a/b/two"),
        String::from("/a/c/three"),
    ];
    let p = common_prefix(&names, '/');
    assert_eq!(p, "/a/");
    for n in &names {
        let rest = n.strip_prefix(&p).unwrap();
        assert_eq!(format!("{}{}", p, rest), *n);
    }
}

#[test]
fn split_keeps_empty_segments() {
    let toks = split_segments("a//b", '/');
    let got: Vec<&str> = toks.iter().map(|t| t.as_str()).collect();
    assert_eq!(got, vec!["a", "", "b"]);
    let toks = split_segments("abc", '/');
    let got: Vec<&str> = toks.iter().map(|t| t.as_str()).collect();
    assert_eq!(got, vec!["abc"]);
}

#[test]
fn lexicographic_order_on_strings() {
    assert!(str_lt("a", "b"));
    assert!(str_lt("a", "ab"));
    assert!(!str_lt("ab", "a"));
    assert!(!str_lt("same", "same"));
    assert!(str_lt("al2022", "al2023"));
}
