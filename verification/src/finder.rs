//! The upgrade resolver: a pure function from a dependency and its known
//! vulnerabilities to the recommended upgrade, if one is owed.

use crate::dependencies::{Dependency, DependencyView};
use crate::version::{lemma_ver_le_antisym, lemma_ver_le_lt_trans, ver_le, version_text, Version};
use crate::vulnerabilities::{range_contains, vuln_views, Vulnerability, VulnerabilityView};
use vstd::prelude::*;

verus! {

/// Mathematical image of an [`Upgrade`].
pub ghost struct UpgradeView {
    pub package: Seq<char>,
    pub from_version: Seq<u64>,
    pub to_version: Seq<u64>,
}

/// A recommended upgrade for one package.
#[derive(Debug, PartialEq, Eq)]
pub struct Upgrade {
    pub package: String,
    pub from_version: Version,
    pub to_version: Version,
}

impl View for Upgrade {
    type V = UpgradeView;

    open spec fn view(&self) -> UpgradeView {
        UpgradeView {
            package: self.package@,
            from_version: self.from_version@,
            to_version: self.to_version@,
        }
    }
}

impl Upgrade {
    /// Renders the upgrade as `package: from -> to`.
    pub fn to_text(&self) -> (r: String)
        ensures
            r@ == self@.package + ": "@ + version_text(self@.from_version) + " -> "@
                + version_text(self@.to_version),
    {
        let mut r = self.package.clone();
        r.append(": ");
        let f = self.from_version.to_text();
        r.append(f.as_str());
        r.append(" -> ");
        let t = self.to_version.to_text();
        r.append(t.as_str());
        r
    }
}

/// The view of an optional upgrade.
pub open spec fn upgrade_views(r: Option<Upgrade>) -> Option<UpgradeView> {
    match r {
        Some(u) => Some(u@),
        None => None,
    }
}

/// Whether some range of some record holds the version.
pub open spec fn any_match(vulns: Seq<VulnerabilityView>, v: Seq<u64>) -> bool {
    exists|a: int, b: int|
        #![auto]
        0 <= a < vulns.len() && 0 <= b < vulns[a].ranges.len() && range_contains(
            vulns[a].ranges[b],
            v,
        )
}

/// What upgrade resolution owes: nothing when no range holds the
/// dependency's version; otherwise an upgrade of that package, from that
/// version, to the maximum end bound among the matching ranges.
pub open spec fn upgrade_decision(
    d: DependencyView,
    vulns: Seq<VulnerabilityView>,
    r: Option<UpgradeView>,
) -> bool {
    match r {
        None => !any_match(vulns, d.version),
        Some(u) => {
            &&& any_match(vulns, d.version)
            &&& u.package == d.name
            &&& u.from_version == d.version
            &&& (exists|a: int, b: int|
                #![auto]
                0 <= a < vulns.len() && 0 <= b < vulns[a].ranges.len() && range_contains(
                    vulns[a].ranges[b],
                    d.version,
                ) && u.to_version == vulns[a].ranges[b].end)
            &&& (forall|a: int, b: int|
                #![auto]
                0 <= a < vulns.len() && 0 <= b < vulns[a].ranges.len() && range_contains(
                    vulns[a].ranges[b],
                    d.version,
                ) ==> ver_le(vulns[a].ranges[b].end, u.to_version))
        },
    }
}

/// Resolves a dependency against the records returned for its package.
pub fn find_upgrade(dependency: &Dependency, vulnerabilities: &Vec<Vulnerability>) -> (r: Option<
    Upgrade,
>)
    ensures
        upgrade_decision(dependency@, vuln_views(vulnerabilities@), upgrade_views(r)),
{
    let ghost vs = vuln_views(vulnerabilities@);
    let ghost dv = dependency@;
    let mut best: Version = dependency.version.clone();
    let mut found: bool = false;
    let mut i: usize = 0;
    while i < vulnerabilities.len()
        invariant
            vs == vuln_views(vulnerabilities@),
            dv == dependency@,
            i <= vs.len(),
            vs.len() == vulnerabilities@.len(),
            found == (exists|a: int, b: int|
                #![auto]
                0 <= a < i && 0 <= b < vs[a].ranges.len() && range_contains(
                    vs[a].ranges[b],
                    dv.version,
                )),
            !found ==> best@ == dv.version,
            found ==> (exists|a: int, b: int|
                #![auto]
                0 <= a < i && 0 <= b < vs[a].ranges.len() && range_contains(
                    vs[a].ranges[b],
                    dv.version,
                ) && best@ == vs[a].ranges[b].end),
            forall|a: int, b: int|
                #![auto]
                0 <= a < i && 0 <= b < vs[a].ranges.len() && range_contains(
                    vs[a].ranges[b],
                    dv.version,
                ) ==> ver_le(vs[a].ranges[b].end, best@),
        decreases vs.len() - i,
    {
        let vi = &vulnerabilities[i];
        let mut j: usize = 0;
        while j < vi.ranges.len()
            invariant
                vs == vuln_views(vulnerabilities@),
                dv == dependency@,
                i < vs.len(),
                vs.len() == vulnerabilities@.len(),
                vi@ == vs[i as int],
                j <= vs[i as int].ranges.len(),
                vi.ranges@.len() == vs[i as int].ranges.len(),
                found == (exists|a: int, b: int|
                    #![auto]
                    0 <= a < vs.len() && 0 <= b < vs[a].ranges.len() && (a < i || (a == i && b
                        < j)) && range_contains(vs[a].ranges[b], dv.version)),
                !found ==> best@ == dv.version,
                found ==> (exists|a: int, b: int|
                    #![auto]
                    0 <= a < vs.len() && 0 <= b < vs[a].ranges.len() && (a < i || (a == i && b
                        < j)) && range_contains(vs[a].ranges[b], dv.version) && best@
                        == vs[a].ranges[b].end),
                forall|a: int, b: int|
                    #![auto]
                    0 <= a < vs.len() && 0 <= b < vs[a].ranges.len() && (a < i || (a == i && b
                        < j)) && range_contains(vs[a].ranges[b], dv.version) ==> ver_le(
                        vs[a].ranges[b].end,
                        best@,
                    ),
            decreases vs[i as int].ranges.len() - j,
        {
            let rj = &vi.ranges[j];
            proof {
                assert(rj@ == vs[i as int].ranges[j as int]);
            }
            if rj.contains(&dependency.version) {
                let ghost ob = best@;
                let ghost found_before = found;
                found = true;
                if best.le(&rj.end) {
                    best = rj.end.clone();
                }
                proof {
                    crate::version::lemma_ver_lt_total(ob, rj.end@);
                    if !ver_le(ob, rj.end@) {
                        // only a later match can leave `best` in place: the
                        // current range holds the version, so its end lies
                        // strictly above it, while `ob` does not
                        assert(found_before);
                    }
                    assert forall|a: int, b: int|
                        #![auto]
                        0 <= a < vs.len() && 0 <= b < vs[a].ranges.len() && (a < i || (a == i && b
                            < j + 1)) && range_contains(vs[a].ranges[b], dv.version) implies ver_le(
                        vs[a].ranges[b].end,
                        best@,
                    ) by {
                        if !(a == i && b == j) && ver_le(ob, rj.end@) {
                            lemma_ver_le_lt_trans(vs[a].ranges[b].end, ob, best@);
                        }
                    }
                }
            }
            j = j + 1;
        }
        i = i + 1;
    }
    if !found {
        return None;
    }
    Some(
        Upgrade {
            package: dependency.name.clone(),
            from_version: dependency.version.clone(),
            to_version: best,
        },
    )
}

/// The resolver is a function of its inputs: any two results that meet the
/// resolver's contract for the same dependency and records are equal, so
/// resolving twice yields the same upgrade, or the same absence, both times.
pub proof fn lemma_upgrade_unique(
    d: DependencyView,
    vulns: Seq<VulnerabilityView>,
    r1: Option<UpgradeView>,
    r2: Option<UpgradeView>,
)
    requires
        upgrade_decision(d, vulns, r1),
        upgrade_decision(d, vulns, r2),
    ensures
        r1 == r2,
{
    match (r1, r2) {
        (Some(u1), Some(u2)) => {
            assert(ver_le(u1.to_version, u2.to_version));
            assert(ver_le(u2.to_version, u1.to_version));
            lemma_ver_le_antisym(u1.to_version, u2.to_version);
        },
        (None, None) => {},
        _ => {
            assert(false);
        },
    }
}

} // verus!
