//! The remote client's decisions: pagination stepping, per-page filtering,
//! and batch error aggregation.

use stopple::nvd::client::{
    collect_vulnerabilities, filter_matching, next_start_index, PaginatedData, Pagination,
};
use stopple::nvd::{
    Configuration, CpeMatch, CveDescription, CveError, CveMetrics, CveVulnerability, Node,
    NvdVulnerability,
};

fn page_record(id: &str, product: &str, with_description: bool) -> NvdVulnerability {
    let criteria = format!("cpe:2.3:a:{product}:{product}:*:*:*:*:*:*:*:*");
    let descriptions = if with_description {
        vec![CveDescription { lang: "en".to_owned(), value: format!("about {id}") }]
    } else {
        vec![]
    };
    NvdVulnerability {
        cve: CveVulnerability {
            id: id.to_owned(),
            descriptions,
            metrics: CveMetrics {
                cvss_metric_v2: vec![],
                cvss_metric_v30: vec![],
                cvss_metric_v31: vec![],
                cvss_metric_v40: vec![],
            },
            configurations: vec![Configuration {
                nodes: vec![Node {
                    operator: "OR".to_owned(),
                    cpe_match: vec![CpeMatch {
                        vulnerable: true,
                        version_start_including: Some("1.0".to_owned()),
                        version_end_excluding: Some("2.0".to_owned()),
                        criteria,
                    }],
                }],
            }],
        },
    }
}

#[test]
fn test_next_start_index_steps_by_page_size() {
    let pagination = Pagination { total_results: 25, results_per_page: 10 };
    assert_eq!(next_start_index(pagination, 0), Some(10));
    assert_eq!(next_start_index(pagination, 10), Some(20));
    assert_eq!(next_start_index(pagination, 20), None);
}

#[test]
fn test_next_start_index_single_page() {
    let pagination = Pagination { total_results: 5, results_per_page: 10 };
    assert_eq!(next_start_index(pagination, 0), None);
}

#[test]
fn test_next_start_index_empty_page_never_advances() {
    let pagination = Pagination { total_results: 5, results_per_page: 0 };
    assert_eq!(next_start_index(pagination, 0), None);
}

#[test]
fn test_paginated_data_accessors() {
    let page = PaginatedData {
        pagination: Pagination { total_results: 3, results_per_page: 2 },
        data: vec![1u32, 2, 3],
    };
    assert_eq!(page.total_results(), 3);
    assert_eq!(page.results_per_page(), 2);
    assert_eq!(page.data(), &vec![1u32, 2, 3]);
}

#[test]
fn test_filter_matching_keeps_the_queried_package() {
    let records = vec![
        page_record("CVE-1", "django", true),
        page_record("CVE-2", "flask", true),
        page_record("CVE-3", "django", true),
    ];
    let kept = filter_matching(records, "django");
    let ids: Vec<&str> = kept.iter().map(|v| v.cve.id.as_str()).collect();
    assert_eq!(ids, ["CVE-1", "CVE-3"]);
}

#[test]
fn test_collect_vulnerabilities_full_success() {
    let records = vec![
        page_record("CVE-1", "django", true),
        page_record("CVE-2", "django", true),
    ];
    let out = collect_vulnerabilities(&records).unwrap();
    let ids: Vec<&str> = out.iter().map(|v| v.id.as_str()).collect();
    assert_eq!(ids, ["CVE-1", "CVE-2"]);
}

#[test]
fn test_collect_vulnerabilities_aggregates_every_failure() {
    let records = vec![
        page_record("CVE-1", "django", false),
        page_record("CVE-2", "django", true),
        page_record("CVE-3", "django", false),
    ];
    let errs = collect_vulnerabilities(&records).unwrap_err();
    assert_eq!(errs.len(), 2);
    assert!(errs.iter().all(|e| matches!(e, CveError::MissingDescription)));
}
