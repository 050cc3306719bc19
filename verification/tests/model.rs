//! Versions, severities, and ranges: the value types the resolver and the
//! parser build on.

use stopple::text::{ends_with, lower, split, str_eq, trim};
use stopple::version::Version;
use stopple::vulnerabilities::{filter, Range, Severity, Vulnerability};

fn ver(s: &str) -> Version {
    Version::parse(s).unwrap()
}

fn range(start: &str, end: &str) -> Range {
    Range { start: ver(start), end: ver(end) }
}

fn vuln(id: &str, severity: Option<Severity>, ranges: Vec<Range>) -> Vulnerability {
    Vulnerability {
        id: id.to_owned(),
        description: format!("description of {id}"),
        severity,
        ranges,
    }
}

#[test]
fn test_version_parse_accepts_dotted_numerals() {
    assert_eq!(ver("5.0.14").to_text(), "5.0.14");
    assert_eq!(ver("5").to_text(), "5");
    assert_eq!(ver("2.31.0").to_text(), "2.31.0");
}

#[test]
fn test_version_parse_rejects_other_text() {
    assert!(Version::parse("").is_none());
    assert!(Version::parse("abc").is_none());
    assert!(Version::parse("1..2").is_none());
    assert!(Version::parse("1.2.").is_none());
    assert!(Version::parse("1.2-rc1").is_none());
}

#[test]
fn test_version_order() {
    assert!(ver("5.0").lt(&ver("5.0.14")));
    assert!(ver("5.0.14").lt(&ver("5.1")));
    assert!(ver("5.2").le(&ver("5.2")));
    assert!(!ver("5.2").lt(&ver("5.2")));
    assert!(ver("2.3.0").lt(&ver("2.31.0")));
    assert!(!ver("5.1").lt(&ver("5.0.14")));
}

#[test]
fn test_range_contains_is_half_open() {
    let r = range("5.0", "5.3");
    assert!(r.contains(&ver("5.0")));
    assert!(r.contains(&ver("5.2")));
    assert!(!r.contains(&ver("5.3")));
    assert!(!r.contains(&ver("4.9")));
}

#[test]
fn test_empty_and_inverted_ranges_hold_nothing() {
    let empty = range("5.0", "5.0");
    assert!(!empty.contains(&ver("5.0")));
    let inverted = range("5.3", "5.0");
    assert!(!inverted.contains(&ver("5.1")));
    assert!(!inverted.contains(&ver("5.3")));
}

#[test]
fn test_severity_from_label() {
    assert_eq!(Severity::from_label("critical").unwrap(), Severity::Critical);
    assert_eq!(Severity::from_label("HIGH").unwrap(), Severity::High);
    assert_eq!(Severity::from_label("  Medium ").unwrap(), Severity::Medium);
    assert_eq!(Severity::from_label("low").unwrap(), Severity::Low);
}

#[test]
fn test_severity_parses_from_str() {
    assert_eq!("high".parse::<Severity>().unwrap(), Severity::High);
}

#[test]
fn test_severity_from_label_rejects_unknown_words() {
    let err = Severity::from_label(" Banana ").unwrap_err();
    assert_eq!(err.value().as_str(), "banana");
}

#[test]
fn test_filter_keeps_records_at_least_as_severe() {
    let mut vulns = vec![
        vuln("a", Some(Severity::Low), vec![]),
        vuln("b", Some(Severity::Medium), vec![]),
        vuln("c", None, vec![]),
        vuln("d", Some(Severity::Critical), vec![]),
    ];
    filter(&mut vulns, Severity::Medium);
    let ids: Vec<&str> = vulns.iter().map(|v| v.id.as_str()).collect();
    assert_eq!(ids, ["b", "d"]);
}

#[test]
fn test_text_helpers() {
    assert_eq!(lower("AbC-42"), "abc-42");
    assert_eq!(trim("  spaced\t"), "spaced");
    assert!(ends_with("djangoproject:django", ":django"));
    assert!(!ends_with("django", "postgres"));
    assert!(str_eq("same", "same"));
    assert!(!str_eq("same", "Same"));
    let parts = split("cpe:2.3:a:djangoproject", ':');
    assert_eq!(parts, ["cpe", "2.3", "a", "djangoproject"]);
    let edges = split(":x:", ':');
    assert_eq!(edges, ["", "x", ""]);
}
