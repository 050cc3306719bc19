//! The local store: counting, the package index, and the
//! clear-on-write invalidation protocol.

use stopple::database::{Cve, Database};
use stopple::nvd::{Configuration, CpeMatch, CveDescription, CveMetrics, CveVulnerability, Node};

fn plain_record(id: &str) -> CveVulnerability {
    CveVulnerability {
        id: id.to_owned(),
        descriptions: vec![CveDescription { lang: "en".to_owned(), value: format!("about {id}") }],
        metrics: CveMetrics {
            cvss_metric_v2: vec![],
            cvss_metric_v30: vec![],
            cvss_metric_v31: vec![],
            cvss_metric_v40: vec![],
        },
        configurations: vec![],
    }
}

fn record_for(id: &str, product: &str, start: &str, end: &str) -> CveVulnerability {
    let criteria = format!("cpe:2.3:a:{product}project:{product}:*:*:*:*:*:*:*:*");
    let mut record = plain_record(id);
    record.configurations = vec![Configuration {
        nodes: vec![Node {
            operator: "OR".to_owned(),
            cpe_match: vec![CpeMatch {
                vulnerable: true,
                version_start_including: Some(start.to_owned()),
                version_end_excluding: Some(end.to_owned()),
                criteria,
            }],
        }],
    }];
    record
}

fn make_cve(id: &str) -> Cve {
    Cve { id: id.to_owned(), record: plain_record(id) }
}

#[test]
fn test_save_and_count() {
    let mut database = Database::new();

    database.save_cve("CVE-123", plain_record("CVE-123"));
    database.save_cve("CVE-456", plain_record("CVE-456"));
    database.save_cve("CVE-123", record_for("CVE-123", "hello", "1.0", "2.0"));

    let count = database.cve_count();

    assert_eq!(count, 2);
}

#[test]
fn test_search_no_cache_then_with_a_cache() {
    let mut database = Database::new();

    let cve = record_for("CVE-2025-27556", "django", "5.0", "5.0.14");

    database.save_cve("CVE-2025-27556", cve);

    let in_cache = database.in_cache("django");
    assert!(!in_cache);

    let matches = database.search("django").unwrap();

    assert_eq!(matches.len(), 1);

    let in_cache = database.in_cache("django");
    assert!(in_cache);

    let matches = database.search("django").unwrap();
    assert_eq!(matches.len(), 1);
}

#[test]
fn test_clear_cache_when_inserting_cves() {
    let mut database = Database::new();

    let cve = record_for("CVE-2025-27556", "django", "5.0", "5.0.14");

    database.save_cve("CVE-2025-27556", cve);
    database.search("django").unwrap();

    let in_cache = database.in_cache("django");
    assert!(in_cache);

    let cve_123 = make_cve("CVE-123");
    let cve_456 = make_cve("CVE-456");

    database.save_cves(vec![cve_123, cve_456]);

    let in_cache = database.in_cache("django");
    assert!(!in_cache);
}

#[test]
fn test_search_twice_returns_the_same_set() {
    let mut database = Database::new();
    database.save_cve("CVE-1", record_for("CVE-1", "django", "5.0", "5.3"));
    database.save_cve("CVE-2", record_for("CVE-2", "django", "5.1", "5.4"));
    database.save_cve("CVE-3", record_for("CVE-3", "flask", "1.0", "2.0"));

    let first = database.search("django").unwrap();
    let second = database.search("django").unwrap();

    let ids = |vs: &Vec<stopple::vulnerabilities::Vulnerability>| -> Vec<String> {
        vs.iter().map(|v| v.id.clone()).collect()
    };
    assert_eq!(ids(&first), ids(&second));
    assert_eq!(ids(&first), ["CVE-1", "CVE-2"]);
}

#[test]
fn test_save_between_searches_is_visible() {
    let mut database = Database::new();
    database.save_cve("CVE-1", record_for("CVE-1", "django", "5.0", "5.3"));

    let first = database.search("django").unwrap();
    assert_eq!(first.len(), 1);

    database.save_cves(vec![Cve {
        id: "CVE-9".to_owned(),
        record: record_for("CVE-9", "django", "5.1", "5.4"),
    }]);

    let second = database.search("django").unwrap();
    let ids: Vec<&str> = second.iter().map(|v| v.id.as_str()).collect();
    assert_eq!(ids, ["CVE-1", "CVE-9"]);
}

#[test]
fn test_count_ignores_reingested_payloads() {
    let mut database = Database::new();
    let batch: Vec<Cve> = vec![
        make_cve("CVE-a"),
        make_cve("CVE-b"),
        Cve { id: "CVE-a".to_owned(), record: record_for("CVE-a", "django", "5.0", "5.1") },
        make_cve("CVE-c"),
    ];
    database.save_cves(batch);
    assert_eq!(database.cve_count(), 3);

    database.save_cves(vec![make_cve("CVE-b"), make_cve("CVE-d")]);
    assert_eq!(database.cve_count(), 4);
}

#[test]
fn test_search_surfaces_a_record_that_cannot_normalize() {
    let mut database = Database::new();
    let mut bad = record_for("CVE-bad", "django", "5.0", "5.1");
    bad.descriptions.clear();
    database.save_cve("CVE-bad", bad);

    assert!(database.search("django").is_err());
    assert!(!database.in_cache("django"));
}

#[test]
fn test_watermark_round_trip() {
    let mut database = Database::new();
    assert!(database.last_mod_date().is_none());
    database.save_last_mod_date("2025-04-03T00:00:00+00:00");
    assert_eq!(database.last_mod_date().unwrap().as_str(), "2025-04-03T00:00:00+00:00");
}
