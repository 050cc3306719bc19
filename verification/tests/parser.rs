//! The vendor-record parser: severity precedence, package identities,
//! affected ranges, and normalization.

use stopple::nvd::{
    Configuration, CpeMatch, CveDescription, CveError, CveMetrics, CveVulnerability, Node,
};
use stopple::vulnerabilities::Severity;

fn cpe(vulnerable: bool, start: Option<&str>, end: Option<&str>, criteria: &str) -> CpeMatch {
    CpeMatch {
        vulnerable,
        version_start_including: start.map(|s| s.to_owned()),
        version_end_excluding: end.map(|s| s.to_owned()),
        criteria: criteria.to_owned(),
    }
}

fn empty_metrics() -> CveMetrics {
    CveMetrics {
        cvss_metric_v2: vec![],
        cvss_metric_v30: vec![],
        cvss_metric_v31: vec![],
        cvss_metric_v40: vec![],
    }
}

fn english(text: &str) -> CveDescription {
    CveDescription { lang: "en".to_owned(), value: text.to_owned() }
}

/// The vendor record of CVE-2025-27556, shaped into plain values: a
/// CVSSv3.1 block labeled MEDIUM and one OR node with two bounded rules.
fn django_cve() -> CveVulnerability {
    let django = "cpe:2.3:a:djangoproject:django:*:*:*:*:*:*:*:*";
    CveVulnerability {
        id: "CVE-2025-27556".to_owned(),
        descriptions: vec![english("An issue was discovered in Django.")],
        metrics: CveMetrics { cvss_metric_v31: vec!["MEDIUM".to_owned()], ..empty_metrics() },
        configurations: vec![Configuration {
            nodes: vec![Node {
                operator: "OR".to_owned(),
                cpe_match: vec![
                    cpe(true, Some("5.0"), Some("5.0.14"), django),
                    cpe(true, Some("5.1"), Some("5.1.8"), django),
                ],
            }],
        }],
    }
}

#[test]
fn test_parse_cve() {
    let actual = django_cve();

    let actual_severity = actual.severity().unwrap();
    assert_eq!(actual_severity, Some(Severity::Medium));

    let actual_ranges = actual.ranges();
    let actual_ranges: Vec<_> = actual_ranges
        .iter()
        .map(|r| [r.start.to_text(), r.end.to_text()])
        .collect();
    assert_eq!(&actual_ranges, &[["5.0", "5.0.14"], ["5.1", "5.1.8"]]);
}

#[test]
fn test_severity_precedence_picks_newer_schema() {
    let mut record = django_cve();
    record.metrics = CveMetrics {
        cvss_metric_v2: vec!["LOW".to_owned()],
        cvss_metric_v31: vec!["MEDIUM".to_owned()],
        ..empty_metrics()
    };
    assert_eq!(record.severity().unwrap(), Some(Severity::Medium));
}

#[test]
fn test_severity_absent_without_metric_blocks() {
    let mut record = django_cve();
    record.metrics = empty_metrics();
    assert_eq!(record.severity().unwrap(), None);
}

#[test]
fn test_severity_unknown_label_is_an_error() {
    let mut record = django_cve();
    record.metrics = CveMetrics { cvss_metric_v40: vec!["SEVERE".to_owned()], ..empty_metrics() };
    let err = record.severity().unwrap_err();
    assert_eq!(err.value().as_str(), "severe");
}

#[test]
fn test_package_identity_from_criteria() {
    let record = django_cve();
    let ids = record.package_ids();
    assert_eq!(ids, ["djangoproject:django"]);
    assert!(record.matches("django"));
    assert!(record.matches("Django"));
    assert!(!record.matches("flask"));
    assert!(!record.matches("djangoproject:django"));
}

#[test]
fn test_malformed_criteria_is_skipped() {
    let mut record = django_cve();
    record.configurations[0].nodes[0].cpe_match.push(cpe(true, None, None, "hello"));
    assert_eq!(record.package_ids(), ["djangoproject:django"]);
}

#[test]
fn test_ranges_need_or_node_flag_and_both_bounds() {
    let django = "cpe:2.3:a:djangoproject:django:*:*:*:*:*:*:*:*";
    let record = CveVulnerability {
        id: "CVE-1".to_owned(),
        descriptions: vec![english("x")],
        metrics: empty_metrics(),
        configurations: vec![
            Configuration {
                nodes: vec![Node {
                    operator: "AND".to_owned(),
                    cpe_match: vec![cpe(true, Some("1.0"), Some("2.0"), django)],
                }],
            },
            Configuration {
                nodes: vec![Node {
                    operator: "OR".to_owned(),
                    cpe_match: vec![
                        cpe(false, Some("1.0"), Some("2.0"), django),
                        cpe(true, Some("1.0"), None, django),
                        cpe(true, None, Some("2.0"), django),
                        cpe(true, Some("1.0"), Some("not-a-version"), django),
                        cpe(true, Some("3.0"), Some("4.0"), django),
                    ],
                }],
            },
        ],
    };
    let ranges = record.ranges();
    assert_eq!(ranges.len(), 1);
    assert_eq!(ranges[0].start.to_text(), "3.0");
    assert_eq!(ranges[0].end.to_text(), "4.0");
}

#[test]
fn test_to_domain_assembles_the_record() {
    let record = django_cve();
    let domain = record.to_domain().unwrap();
    assert_eq!(domain.id, "CVE-2025-27556");
    assert_eq!(domain.description, "An issue was discovered in Django.");
    assert_eq!(domain.severity, Some(Severity::Medium));
    assert_eq!(domain.ranges.len(), 2);
}

#[test]
fn test_to_domain_requires_an_english_description() {
    let mut record = django_cve();
    record.descriptions = vec![CveDescription { lang: "fr".to_owned(), value: "Un".to_owned() }];
    assert!(matches!(record.to_domain(), Err(CveError::MissingDescription)));
}

#[test]
fn test_to_domain_first_english_description_wins() {
    let mut record = django_cve();
    record.descriptions = vec![
        CveDescription { lang: "fr".to_owned(), value: "Un".to_owned() },
        english("first"),
        english("second"),
    ];
    assert_eq!(record.to_domain().unwrap().description, "first");
}

#[test]
fn test_to_domain_reports_a_bad_severity_label() {
    let mut record = django_cve();
    record.metrics = CveMetrics { cvss_metric_v2: vec!["weird".to_owned()], ..empty_metrics() };
    match record.to_domain() {
        Err(CveError::Severity(e)) => assert_eq!(e.value().as_str(), "weird"),
        other => panic!("expected a severity error, got {other:?}"),
    }
}
