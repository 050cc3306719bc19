//! The remote-feed client's decisions: pagination stepping, per-page
//! filtering, and the aggregation of parse failures across a fetched
//! batch. Fetching itself is transport work and stays outside; these
//! functions decide what the client does with what came back.

use crate::nvd::{cve_domain, cve_matches, CveError, CveErrorView, CveView, NvdVulnerability};
use crate::vulnerabilities::{vuln_views, Vulnerability, VulnerabilityView};
use vstd::prelude::*;

verus! {

/// The pagination envelope of a feed response.
#[derive(Debug, Clone, Copy, PartialEq, Eq, Structural)]
pub struct Pagination {
    pub total_results: usize,
    pub results_per_page: usize,
}

/// One fetched page: its pagination envelope and its data.
pub struct PaginatedData<T> {
    pub pagination: Pagination,
    pub data: Vec<T>,
}

impl<T> PaginatedData<T> {
    /// How many results the feed holds for the query in all.
    pub fn total_results(&self) -> (r: usize)
        ensures
            r == self.pagination.total_results,
    {
        self.pagination.total_results
    }

    /// How many results one page carries.
    pub fn results_per_page(&self) -> (r: usize)
        ensures
            r == self.pagination.results_per_page,
    {
        self.pagination.results_per_page
    }

    /// The page's data.
    pub fn data(&self) -> (r: &Vec<T>)
        ensures
            *r == self.data,
    {
        &self.data
    }
}

/// The start index of the page after the one fetched at `start_index`:
/// one page size further. There is no next page once the index would pass
/// the total, and an empty page size never advances.
pub fn next_start_index(pagination: Pagination, start_index: usize) -> (r: Option<usize>)
    ensures
        match r {
            Some(n) => n == start_index + pagination.results_per_page && n
                <= pagination.total_results && pagination.results_per_page > 0,
            None => start_index + pagination.results_per_page > pagination.total_results
                || pagination.results_per_page == 0,
        },
{
    if pagination.results_per_page == 0 {
        return None;
    }
    match start_index.checked_add(pagination.results_per_page) {
        Some(n) => {
            if n <= pagination.total_results {
                Some(n)
            } else {
                None
            }
        },
        None => None,
    }
}

/// The views of a sequence of feed entries.
pub open spec fn nvd_views(s: Seq<NvdVulnerability>) -> Seq<CveView> {
    s.map(|_i: int, v: NvdVulnerability| v@)
}

/// Concerning a package, as a predicate over records, for filtering.
pub open spec fn matches_pred(q: Seq<char>) -> spec_fn(CveView) -> bool {
    |c: CveView| cve_matches(c, q)
}

/// The views of a sequence of parse errors.
pub open spec fn error_views(s: Seq<CveError>) -> Seq<CveErrorView> {
    s.map(|_i: int, e: CveError| e@)
}

/// Every failure that normalizing a batch yields, in order.
pub open spec fn batch_errors(records: Seq<CveView>) -> Seq<CveErrorView>
    decreases records.len(),
{
    if records.len() == 0 {
        Seq::<CveErrorView>::empty()
    } else {
        batch_errors(records.drop_last()) + (match cve_domain(records.last()) {
            Err(e) => seq![e],
            Ok(_) => Seq::<CveErrorView>::empty(),
        })
    }
}

/// Every normalized record of a batch, in order.
pub open spec fn batch_oks(records: Seq<CveView>) -> Seq<VulnerabilityView>
    decreases records.len(),
{
    if records.len() == 0 {
        Seq::<VulnerabilityView>::empty()
    } else {
        batch_oks(records.drop_last()) + (match cve_domain(records.last()) {
            Ok(v) => seq![v],
            Err(_) => Seq::<VulnerabilityView>::empty(),
        })
    }
}

/// Keeps the entries of one fetched page that concern the package; order
/// is preserved.
pub fn filter_matching(records: Vec<NvdVulnerability>, package: &str) -> (r: Vec<
    NvdVulnerability,
>)
    ensures
        nvd_views(r@) == nvd_views(records@).filter(matches_pred(package@)),
{
    let ghost orig = records@;
    let n = records.len();
    let mut rest = records;
    let mut kept: Vec<NvdVulnerability> = Vec::new();
    let mut i: usize = 0;
    proof {
        reveal(Seq::filter);
        assert(nvd_views(orig.take(0)) =~= Seq::<CveView>::empty());
        assert(nvd_views(kept@) =~= nvd_views(orig.take(0)).filter(matches_pred(package@)));
        assert(orig.skip(0) =~= orig);
    }
    while rest.len() > 0
        invariant
            i <= orig.len(),
            orig.len() == n,
            rest@ == orig.skip(i as int),
            nvd_views(kept@) == nvd_views(orig.take(i as int)).filter(matches_pred(package@)),
        decreases rest@.len(),
    {
        let ghost r0 = rest@;
        let v = rest.remove(0);
        proof {
            reveal(Seq::filter);
            assert(rest@ =~= orig.skip(i + 1));
            assert(v == orig[i as int]);
            assert(nvd_views(orig.take(i + 1)).drop_last() =~= nvd_views(orig.take(i as int)));
            assert(nvd_views(orig.take(i + 1)).last() == orig[i as int]@);
            assert(nvd_views(orig.take(i + 1)) == nvd_views(orig.take(i + 1)).drop_last().push(
                nvd_views(orig.take(i + 1)).last(),
            ));
        }
        let keep = v.matches(package);
        proof {
            assert(keep == matches_pred(package@)(v@));
        }
        if keep {
            let ghost k0 = kept@;
            kept.push(v);
            proof {
                assert(kept@.drop_last() =~= k0);
                assert(nvd_views(kept@) =~= nvd_views(k0).push(v@));
            }
        }
        i = i + 1;
    }
    proof {
        assert(orig.take(orig.len() as int) =~= orig);
    }
    kept
}

/// Normalizes every entry of a fetched batch. Parse failures are
/// aggregated, never short-circuited: every record is attempted, and the
/// call fails only if some record failed, reporting every failure in
/// order; otherwise it yields the full result set.
pub fn collect_vulnerabilities(records: &Vec<NvdVulnerability>) -> (r: Result<
    Vec<Vulnerability>,
    Vec<CveError>,
>)
    ensures
        match r {
            Ok(out) => batch_errors(nvd_views(records@)).len() == 0 && vuln_views(out@)
                == batch_oks(nvd_views(records@)),
            Err(errs) => errs@.len() > 0 && error_views(errs@) == batch_errors(
                nvd_views(records@),
            ),
        },
{
    let ghost rs = nvd_views(records@);
    let mut out: Vec<Vulnerability> = Vec::new();
    let mut errs: Vec<CveError> = Vec::new();
    let mut i: usize = 0;
    proof {
        assert(rs.take(0) =~= Seq::<CveView>::empty());
        assert(vuln_views(out@) =~= batch_oks(rs.take(0)));
        assert(error_views(errs@) =~= batch_errors(rs.take(0)));
    }
    while i < records.len()
        invariant
            rs == nvd_views(records@),
            i <= rs.len(),
            rs.len() == records@.len(),
            vuln_views(out@) == batch_oks(rs.take(i as int)),
            error_views(errs@) == batch_errors(rs.take(i as int)),
        decreases rs.len() - i,
    {
        proof {
            assert(rs[i as int] == records@[i as int]@);
            assert(rs.take(i + 1).drop_last() =~= rs.take(i as int));
            assert(rs.take(i + 1).last() == rs[i as int]);
        }
        match records[i].to_domain() {
            Ok(v) => {
                let ghost o0 = out@;
                out.push(v);
                proof {
                    assert(out@.drop_last() =~= o0);
                    assert(vuln_views(out@) =~= vuln_views(o0).push(v@));
                    assert(vuln_views(out@) =~= batch_oks(rs.take(i + 1)));
                    assert(error_views(errs@) =~= batch_errors(rs.take(i + 1)));
                }
            },
            Err(e) => {
                let ghost e0 = errs@;
                errs.push(e);
                proof {
                    assert(errs@.drop_last() =~= e0);
                    assert(error_views(errs@) =~= error_views(e0).push(errs@.last()@));
                    assert(error_views(errs@) =~= batch_errors(rs.take(i + 1)));
                    assert(vuln_views(out@) =~= batch_oks(rs.take(i + 1)));
                }
            },
        }
        i = i + 1;
    }
    proof {
        assert(rs.take(rs.len() as int) =~= rs);
    }
    if errs.len() == 0 {
        proof {
            assert(error_views(errs@) =~= Seq::<CveErrorView>::empty());
        }
        Ok(out)
    } else {
        Err(errs)
    }
}

} // verus!
