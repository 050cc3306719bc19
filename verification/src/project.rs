//! The scan orchestrator: walks a project's dependencies in order, asks
//! the store for each package's records, feeds the resolver, and
//! accumulates the upgrades.

use crate::database::{query_rows, CveRowView, Database, DatabaseView};
use crate::dependencies::{Dependency, DependencyView};
use crate::finder::{
    find_upgrade, lemma_upgrade_unique, upgrade_decision, upgrade_views, Upgrade, UpgradeView,
};
use crate::nvd::{CveError, CveErrorView};
use crate::vulnerabilities::{vuln_views, Vulnerability, VulnerabilityView};
use vstd::prelude::*;

verus! {

/// The one result that meets the resolver's contract for a dependency and
/// its records; `lemma_upgrade_unique` makes it single-valued.
pub open spec fn resolved_upgrade(d: DependencyView, vulns: Seq<VulnerabilityView>) -> Option<
    UpgradeView,
> {
    choose|u: Option<UpgradeView>| upgrade_decision(d, vulns, u)
}

/// The upgrade of one resolution, as a sequence of none or one.
pub open spec fn upgrade_seq_of(d: DependencyView, vulns: Seq<VulnerabilityView>) -> Seq<
    UpgradeView,
> {
    match resolved_upgrade(d, vulns) {
        Some(u) => seq![u],
        None => Seq::<UpgradeView>::empty(),
    }
}

/// The views of a sequence of upgrades.
pub open spec fn upgrade_seq_views(s: Seq<Upgrade>) -> Seq<UpgradeView> {
    s.map(|_i: int, u: Upgrade| u@)
}

/// The views of a sequence of dependencies.
pub open spec fn dependency_views(s: Seq<Dependency>) -> Seq<DependencyView> {
    s.map(|_i: int, d: Dependency| d@)
}

/// The views of a sequence of record lists.
pub open spec fn vuln_views_seq(s: Seq<Vec<Vulnerability>>) -> Seq<Seq<VulnerabilityView>> {
    s.map(|_i: int, v: Vec<Vulnerability>| vuln_views(v@))
}

/// What scanning dependencies against the store's rows owes: the upgrades
/// accumulated in dependency order up to the first failing query, and that
/// failure if one occurs.
pub open spec fn scan_result(rows: Seq<CveRowView>, deps: Seq<DependencyView>) -> (Seq<
    UpgradeView,
>, Option<CveErrorView>)
    decreases deps.len(),
{
    if deps.len() == 0 {
        (Seq::<UpgradeView>::empty(), None::<CveErrorView>)
    } else {
        match query_rows(rows, deps[0].name) {
            Err(e) => (Seq::<UpgradeView>::empty(), Some(e)),
            Ok(vs) => {
                let rest = scan_result(rows, deps.drop_first());
                (upgrade_seq_of(deps[0], vs) + rest.0, rest.1)
            },
        }
    }
}

/// What resolving positionally corresponding dependencies and record
/// lists owes, in order.
pub open spec fn scan_records_result(
    deps: Seq<DependencyView>,
    recs: Seq<Seq<VulnerabilityView>>,
) -> Seq<UpgradeView>
    decreases deps.len(),
{
    if deps.len() == 0 {
        Seq::<UpgradeView>::empty()
    } else {
        scan_records_result(deps.drop_last(), recs.drop_last()) + upgrade_seq_of(
            deps.last(),
            recs.last(),
        )
    }
}

/// Resolves each dependency against the records fetched for its package;
/// dependencies and record lists correspond by position.
pub fn scan_records(dependencies: &Vec<Dependency>, records: &Vec<Vec<Vulnerability>>) -> (r: Vec<
    Upgrade,
>)
    requires
        dependencies@.len() == records@.len(),
    ensures
        upgrade_seq_views(r@) == scan_records_result(
            dependency_views(dependencies@),
            vuln_views_seq(records@),
        ),
{
    let ghost ds = dependency_views(dependencies@);
    let ghost rs = vuln_views_seq(records@);
    let mut out: Vec<Upgrade> = Vec::new();
    let mut i: usize = 0;
    proof {
        assert(ds.take(0) =~= Seq::<DependencyView>::empty());
        assert(rs.take(0) =~= Seq::<Seq<VulnerabilityView>>::empty());
        assert(upgrade_seq_views(out@) =~= scan_records_result(ds.take(0), rs.take(0)));
    }
    while i < dependencies.len()
        invariant
            ds == dependency_views(dependencies@),
            rs == vuln_views_seq(records@),
            i <= ds.len(),
            ds.len() == dependencies@.len(),
            rs.len() == records@.len(),
            ds.len() == rs.len(),
            upgrade_seq_views(out@) == scan_records_result(ds.take(i as int), rs.take(i as int)),
        decreases ds.len() - i,
    {
        proof {
            assert(ds[i as int] == dependencies@[i as int]@);
            assert(rs[i as int] == vuln_views(records@[i as int]@));
            assert(ds.take(i + 1).drop_last() =~= ds.take(i as int));
            assert(rs.take(i + 1).drop_last() =~= rs.take(i as int));
            assert(ds.take(i + 1).last() == ds[i as int]);
            assert(rs.take(i + 1).last() == rs[i as int]);
        }
        let upgrade = find_upgrade(&dependencies[i], &records[i]);
        proof {
            assert(upgrade_decision(ds[i as int], rs[i as int], upgrade_views(upgrade)));
            assert(upgrade_decision(ds[i as int], rs[i as int], resolved_upgrade(ds[i as int], rs[i as int])));
            lemma_upgrade_unique(
                ds[i as int],
                rs[i as int],
                upgrade_views(upgrade),
                resolved_upgrade(ds[i as int], rs[i as int]),
            );
        }
        match upgrade {
            Some(u) => {
                let ghost o0 = out@;
                out.push(u);
                proof {
                    assert(out@.drop_last() =~= o0);
                    assert(upgrade_seq_views(out@) =~= upgrade_seq_views(o0).push(u@));
                    assert(upgrade_seq_views(out@) =~= scan_records_result(
                        ds.take(i + 1),
                        rs.take(i + 1),
                    ));
                }
            },
            None => {
                proof {
                    assert(upgrade_seq_views(out@) =~= scan_records_result(
                        ds.take(i + 1),
                        rs.take(i + 1),
                    ));
                }
            },
        }
        i = i + 1;
    }
    proof {
        assert(ds.take(ds.len() as int) =~= ds);
        assert(rs.take(rs.len() as int) =~= rs);
    }
    out
}

/// Mathematical image of a [`Project`].
pub ghost struct ProjectView {
    pub database: DatabaseView,
    pub dependencies: Seq<DependencyView>,
    pub upgrades: Seq<UpgradeView>,
}

/// A project scan against the local store: the store, the dependencies to
/// scan, and the upgrades accumulated so far.
pub struct Project {
    database: Database,
    dependencies: Vec<Dependency>,
    upgrades: Vec<Upgrade>,
}

impl View for Project {
    type V = ProjectView;

    closed spec fn view(&self) -> ProjectView {
        ProjectView {
            database: self.database@,
            dependencies: dependency_views(self.dependencies@),
            upgrades: upgrade_seq_views(self.upgrades@),
        }
    }
}

impl Project {
    /// Well-formedness: the underlying store is well-formed.
    pub open spec fn wf(&self) -> bool {
        crate::database::db_wf(self@.database)
    }

    /// A project over a store, with no dependencies and no upgrades yet.
    pub fn new(database: Database) -> (r: Project)
        requires
            database.wf(),
        ensures
            r.wf(),
            r@.database == database@,
            r@.dependencies.len() == 0,
            r@.upgrades.len() == 0,
    {
        let r = Project { database, dependencies: Vec::new(), upgrades: Vec::new() };
        proof {
            assert(r@.dependencies =~= Seq::<DependencyView>::empty());
            assert(r@.upgrades =~= Seq::<UpgradeView>::empty());
        }
        r
    }

    /// Sets the dependencies the next scan walks.
    pub fn set_dependencies(&mut self, dependencies: Vec<Dependency>)
        ensures
            final(self)@.database == old(self)@.database,
            final(self)@.upgrades == old(self)@.upgrades,
            final(self)@.dependencies == dependency_views(dependencies@),
    {
        self.dependencies = dependencies;
    }

    /// The upgrades accumulated so far.
    pub fn upgrades(&self) -> (r: &Vec<Upgrade>)
        ensures
            upgrade_seq_views(r@) == self@.upgrades,
    {
        &self.upgrades
    }

    /// Walks the dependencies in order: one store query each, resolved by
    /// the resolver, accumulating the upgrades found. The first failing
    /// query aborts the scan; upgrades found before it remain.
    pub fn scan(&mut self) -> (r: Result<(), CveError>)
        requires
            old(self).wf(),
        ensures
            final(self).wf(),
            final(self)@.database.rows == old(self)@.database.rows,
            final(self)@.database.watermark == old(self)@.database.watermark,
            final(self)@.dependencies == old(self)@.dependencies,
            final(self)@.upgrades == old(self)@.upgrades + scan_result(
                old(self)@.database.rows,
                old(self)@.dependencies,
            ).0,
            match scan_result(old(self)@.database.rows, old(self)@.dependencies).1 {
                None => r is Ok,
                Some(e) => (r matches Err(x) && x@ == e),
            },
    {
        let ghost rows = self@.database.rows;
        let ghost ds = self@.dependencies;
        let ghost ups0 = self@.upgrades;
        let mut i: usize = 0;
        proof {
            assert(ds.skip(0) =~= ds);
            assert(ups0 + Seq::<UpgradeView>::empty() =~= ups0);
        }
        while i < self.dependencies.len()
            invariant
                self.wf(),
                rows == self@.database.rows,
                self@.database.watermark == old(self)@.database.watermark,
                ds == self@.dependencies,
                ds == dependency_views(self.dependencies@),
                rows == old(self)@.database.rows,
                ds == old(self)@.dependencies,
                ups0 == old(self)@.upgrades,
                i <= ds.len(),
                ds.len() == self.dependencies@.len(),
                self@.upgrades == ups0 + scan_result_prefix(rows, ds, i as int),
                scan_result(rows, ds).0 == scan_result_prefix(rows, ds, i as int) + scan_result(
                    rows,
                    ds.skip(i as int),
                ).0,
                scan_result(rows, ds).1 == scan_result(rows, ds.skip(i as int)).1,
            decreases ds.len() - i,
        {
            proof {
                assert(ds[i as int] == self.dependencies@[i as int]@);
                assert(ds.skip(i as int)[0] == ds[i as int]);
                assert(ds.skip(i as int).drop_first() =~= ds.skip(i + 1));
            }
            let vulns = match self.database.search(self.dependencies[i].name.as_str()) {
                Ok(v) => v,
                Err(e) => {
                    proof {
                        assert(scan_result(rows, ds.skip(i as int)).1 == Some(e@));
                        assert(scan_result(rows, ds.skip(i as int)).0
                            =~= Seq::<UpgradeView>::empty());
                        assert(scan_result(rows, ds).0 =~= scan_result_prefix(
                            rows,
                            ds,
                            i as int,
                        ));
                        assert(self@.upgrades =~= ups0 + scan_result(rows, ds).0);
                    }
                    return Err(e);
                },
            };
            let ghost vs = vuln_views(vulns@);
            let upgrade = find_upgrade(&self.dependencies[i], &vulns);
            proof {
                assert(query_rows(rows, ds[i as int].name) == Ok::<
                    Seq<VulnerabilityView>,
                    CveErrorView,
                >(vs));
                assert(upgrade_decision(ds[i as int], vs, upgrade_views(upgrade)));
                assert(upgrade_decision(ds[i as int], vs, resolved_upgrade(ds[i as int], vs)));
                lemma_upgrade_unique(
                    ds[i as int],
                    vs,
                    upgrade_views(upgrade),
                    resolved_upgrade(ds[i as int], vs),
                );
                assert(scan_result(rows, ds.skip(i as int)).0 == upgrade_seq_of(ds[i as int], vs)
                    + scan_result(rows, ds.skip(i + 1)).0);
                assert(scan_result(rows, ds.skip(i as int)).1 == scan_result(
                    rows,
                    ds.skip(i + 1),
                ).1);
                assert(scan_result_prefix(rows, ds, i + 1) == scan_result_prefix(
                    rows,
                    ds,
                    i as int,
                ) + upgrade_seq_of(ds[i as int], vs));
                assert(scan_result(rows, ds).0 =~= scan_result_prefix(rows, ds, i + 1)
                    + scan_result(rows, ds.skip(i + 1)).0);
            }
            match upgrade {
                Some(u) => {
                    let ghost o0 = self@.upgrades;
                    self.upgrades.push(u);
                    proof {
                        assert(upgrade_seq_views(self.upgrades@).drop_last() =~= o0);
                        assert(self@.upgrades =~= o0.push(u@));
                        assert(upgrade_seq_of(ds[i as int], vs) =~= seq![u@]);
                        assert(self@.upgrades =~= ups0 + scan_result_prefix(rows, ds, i + 1));
                    }
                },
                None => {
                    proof {
                        assert(upgrade_seq_of(ds[i as int], vs) =~= Seq::<UpgradeView>::empty());
                        assert(self@.upgrades =~= ups0 + scan_result_prefix(rows, ds, i + 1));
                    }
                },
            }
            i = i + 1;
        }
        proof {
            assert(ds.skip(ds.len() as int) =~= Seq::<DependencyView>::empty());
            assert(self@.upgrades =~= ups0 + scan_result(rows, ds).0);
        }
        Ok(())
    }
}

/// The upgrades the scan accumulates for the first `i` dependencies,
/// all of whose queries succeed.
pub open spec fn scan_result_prefix(rows: Seq<CveRowView>, deps: Seq<DependencyView>, i: int) -> Seq<
    UpgradeView,
>
    decreases i,
{
    if i <= 0 {
        Seq::<UpgradeView>::empty()
    } else {
        scan_result_prefix(rows, deps, i - 1) + (match query_rows(rows, deps[i - 1].name) {
            Ok(vs) => upgrade_seq_of(deps[i - 1], vs),
            Err(_) => Seq::<UpgradeView>::empty(),
        })
    }
}

} // verus!
