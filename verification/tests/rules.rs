use timetrack::categories::UniqueCategories;
use timetrack::classifier::{
    ActiveWindowMetadata, Classifier, MetadataFilter, TestClassifier,
};
use timetrack::encoding::{chars_string, fmt_u64, parse_dec_u64, str_chars, str_lex_lt};
use timetrack::error::ErrorMessage;

fn md(title: Option<&str>, class: Option<&str>) -> ActiveWindowMetadata {
    ActiveWindowMetadata {
        title: title.map(|s| s.to_string()),
        class: class.map(|s| s.to_string()),
    }
}

#[test]
fn default_rules_classify_terminals_as_coding() {
    let c = TestClassifier::new();
    assert_eq!(
        c.classify(&md(Some("editor"), Some("konsole"))).unwrap(),
        Some("coding".to_string())
    );
    assert_eq!(
        c.classify(&md(Some("browser"), Some("firefox"))).unwrap(),
        Some("unknown".to_string())
    );
    assert_eq!(c.classify(&md(None, None)).unwrap(), Some("unknown".to_string()));
}

#[test]
fn classifier_categories_are_sorted_and_unique() {
    let c = TestClassifier::new();
    let set = c.categories().unwrap();
    assert_eq!(set.0, vec!["coding".to_string(), "unknown".to_string()]);
}

#[test]
fn the_first_matching_rule_wins() {
    let mut c = TestClassifier { filters: Vec::new() };
    c.append_filter("first", MetadataFilter::TitleIs("x".to_string()));
    c.append_filter("second", MetadataFilter::TitleIs("x".to_string()));
    assert_eq!(
        c.classify_name(&md(Some("x"), None)),
        Some("first".to_string())
    );
    assert_eq!(c.classify_name(&md(Some("y"), None)), None);
}

#[test]
fn unmatched_metadata_yields_no_category() {
    let mut c = TestClassifier { filters: Vec::new() };
    c.append_filter("a", MetadataFilter::ClassIs("k".to_string()));
    assert_eq!(c.classify_name(&md(Some("k"), Some("other"))), None);
}

#[test]
fn unique_categories_accept_distinct_names() {
    let u = UniqueCategories::from_unique(vec!["b".to_string(), "a".to_string()]).unwrap();
    assert_eq!(u.0, vec!["b".to_string(), "a".to_string()]);
}

#[test]
fn unique_categories_reject_duplicates() {
    match UniqueCategories::from_unique(vec!["a".to_string(), "a".to_string()]) {
        Err(e) => assert_eq!(e.message().as_str(), "Duplicate category 'a'"),
        Ok(_) => panic!("duplicate accepted"),
    }
}

#[test]
fn make_unique_sorts_and_deduplicates() {
    let u = UniqueCategories::make_unique(vec![
        "b".to_string(),
        "a".to_string(),
        "b".to_string(),
    ]);
    assert_eq!(u.0, vec!["a".to_string(), "b".to_string()]);
}

#[test]
fn extend_adds_only_missing_names() {
    let mut u = UniqueCategories(vec!["a".to_string(), "c".to_string()]);
    let added = u.extend(UniqueCategories(vec!["b".to_string(), "c".to_string()]));
    assert_eq!(added, 1);
    assert_eq!(u.0, vec!["a".to_string(), "c".to_string(), "b".to_string()]);
}

#[test]
fn error_traceback_lists_causes_outermost_first() {
    let inner = ErrorMessage::from("disk unplugged".to_string());
    let outer = ErrorMessage::new("Unable to open database".to_string(), inner);
    assert_eq!(
        outer.traceback(),
        vec!["Unable to open database".to_string(), "disk unplugged".to_string()]
    );
    assert!(outer.source().is_some());
}

#[test]
fn decimal_rendering_is_canonical() {
    assert_eq!(fmt_u64(0), vec!['0']);
    assert_eq!(fmt_u64(1040), vec!['1', '0', '4', '0']);
    assert_eq!(
        fmt_u64(u64::MAX),
        "18446744073709551615".chars().collect::<Vec<char>>()
    );
}

#[test]
fn decimal_parsing_matches_rendering() {
    let v: Vec<char> = "00123".chars().collect();
    assert_eq!(parse_dec_u64(&v, 0, 5), Some(123));
    assert_eq!(parse_dec_u64(&v, 0, 0), None);
    let bad: Vec<char> = "12x".chars().collect();
    assert_eq!(parse_dec_u64(&bad, 0, 3), None);
    let over: Vec<char> = "18446744073709551616".chars().collect();
    assert_eq!(parse_dec_u64(&over, 0, 20), None);
}

#[test]
fn string_conversions_round_trip() {
    let v = str_chars("première");
    assert_eq!(v, "première".chars().collect::<Vec<char>>());
    assert_eq!(chars_string(&v, 0, v.len()), "première".to_string());
    assert_eq!(chars_string(&v, 1, 3), "re".to_string());
}

#[test]
fn lexicographic_order_is_by_code_point() {
    assert!(str_lex_lt("abc", "abd"));
    assert!(str_lex_lt("ab", "abc"));
    assert!(!str_lex_lt("abc", "abc"));
    assert!(!str_lex_lt("b", "aaa"));
}
