//! The upgrade resolver and the scan orchestrator.

use stopple::database::Database;
use stopple::dependencies::Dependency;
use stopple::finder::{find_upgrade, Upgrade};
use stopple::nvd::{Configuration, CpeMatch, CveDescription, CveMetrics, CveVulnerability, Node};
use stopple::project::{scan_records, Project};
use stopple::version::Version;
use stopple::vulnerabilities::{Range, Severity, Vulnerability};

fn make_dependency(name: &str, version: &str) -> Dependency {
    let version = Version::parse(version).unwrap();
    Dependency { name: name.to_owned(), version }
}

fn make_vulnerability(severity: Severity, ranges: &[[&str; 2]]) -> Vulnerability {
    let id = "test id".to_owned();
    let description = "test description".to_owned();
    let severity = Some(severity);
    let ranges: Vec<_> = ranges
        .iter()
        .map(|r| {
            let [start, end] = r;
            let start = Version::parse(start).unwrap();
            let end = Version::parse(end).unwrap();
            Range { start, end }
        })
        .collect();

    Vulnerability { id, description, severity, ranges }
}

fn make_upgrade(name: &str, from: &str, to: &str) -> Upgrade {
    Upgrade {
        package: name.to_owned(),
        from_version: Version::parse(from).unwrap(),
        to_version: Version::parse(to).unwrap(),
    }
}

#[test]
fn test_find_updates() {
    let django_dependency = make_dependency("Django", "5.2");
    let vulnerabilities = vec![
        make_vulnerability(Severity::Critical, &[["5.0", "5.3"]]),
        make_vulnerability(Severity::Critical, &[["5.1", "5.4"]]),
    ];

    let actual = find_upgrade(&django_dependency, &vulnerabilities);
    let expected = make_upgrade("Django", "5.2", "5.4");
    assert_eq!(actual, Some(expected))
}

#[test]
fn test_no_upgrade_outside_every_range() {
    let django_dependency = make_dependency("django", "5.2");
    let vulnerabilities = vec![make_vulnerability(Severity::Critical, &[["5.0", "5.1"]])];

    let actual = find_upgrade(&django_dependency, &vulnerabilities);
    assert_eq!(actual, None);
}

#[test]
fn test_find_upgrade_twice_agrees() {
    let dependency = make_dependency("django", "5.2");
    let vulnerabilities = vec![
        make_vulnerability(Severity::High, &[["5.0", "5.3"], ["4.0", "4.9"]]),
        make_vulnerability(Severity::Low, &[["5.1", "5.4"]]),
    ];

    let first = find_upgrade(&dependency, &vulnerabilities);
    let second = find_upgrade(&dependency, &vulnerabilities);
    assert_eq!(first, second);
}

#[test]
fn test_upgrade_rendering() {
    let upgrade = make_upgrade("django", "5.2", "5.4");
    assert_eq!(upgrade.to_text(), "django: 5.2 -> 5.4");
}

#[test]
fn test_find_upgrades_for_vulnerable_dependencies() {
    let dependencies = vec![
        make_dependency("django", "5.0"),
        make_dependency("requests", "2.31.0"),
    ];
    let records = vec![
        vec![
            make_vulnerability(Severity::Critical, &[["5.0", "5.1"]]),
            make_vulnerability(Severity::Critical, &[["5.3", "5.4"]]),
        ],
        vec![make_vulnerability(Severity::Critical, &[["2.3.0", "2.31.0"]])],
    ];

    let upgrades = scan_records(&dependencies, &records);

    assert_eq!(upgrades, vec![make_upgrade("django", "5.0", "5.1")])
}

fn stored_record(id: &str, product: &str, start: &str, end: &str) -> CveVulnerability {
    let criteria = format!("cpe:2.3:a:{product}project:{product}:*:*:*:*:*:*:*:*");
    CveVulnerability {
        id: id.to_owned(),
        descriptions: vec![CveDescription {
            lang: "en".to_owned(),
            value: format!("about {id}"),
        }],
        metrics: CveMetrics {
            cvss_metric_v2: vec![],
            cvss_metric_v30: vec![],
            cvss_metric_v31: vec!["HIGH".to_owned()],
            cvss_metric_v40: vec![],
        },
        configurations: vec![Configuration {
            nodes: vec![Node {
                operator: "OR".to_owned(),
                cpe_match: vec![CpeMatch {
                    vulnerable: true,
                    version_start_including: Some(start.to_owned()),
                    version_end_excluding: Some(end.to_owned()),
                    criteria,
                }],
            }],
        }],
    }
}

#[test]
fn test_scan_against_the_store() {
    let mut database = Database::new();
    database.save_cve("CVE-1", stored_record("CVE-1", "django", "5.0", "5.1"));
    database.save_cve("CVE-2", stored_record("CVE-2", "django", "5.3", "5.4"));
    database.save_cve("CVE-3", stored_record("CVE-3", "requests", "2.3.0", "2.31.0"));

    let dependencies = vec![
        make_dependency("django", "5.0"),
        make_dependency("requests", "2.31.0"),
    ];

    let mut project = Project::new(database);
    project.set_dependencies(dependencies);

    project.scan().unwrap();

    let upgrades = project.upgrades();

    assert_eq!(upgrades, &vec![make_upgrade("django", "5.0", "5.1")])
}

#[test]
fn test_dependency_accessors() {
    let dependency = make_dependency("django", "5.2");
    assert_eq!(dependency.name(), "django");
    assert_eq!(dependency.version(), "5.2");
}
