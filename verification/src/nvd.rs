//! The vendor-record parser: reads one vulnerability record of the remote
//! feed, already shaped into plain values, and normalizes it — the English
//! description, the severity label under the metric-schema precedence, the
//! package identities, and the affected version ranges.

use crate::text::{has_suffix, lower, lower_seq, split, split_parts, str_eq, trimmed};
use crate::version::{version_chunks, version_text_ok, Version};
use crate::vulnerabilities::{
    range_views, Range, RangeView, Severity, SeverityError, Vulnerability, VulnerabilityView,
};
use vstd::prelude::*;

pub mod client;

verus! {

/// One description entry of a vendor record: a language tag and a text.
#[derive(Debug)]
pub struct CveDescription {
    pub lang: String,
    pub value: String,
}

/// Mathematical image of a [`CveDescription`].
pub ghost struct CveDescriptionView {
    pub lang: Seq<char>,
    pub value: Seq<char>,
}

impl View for CveDescription {
    type V = CveDescriptionView;

    open spec fn view(&self) -> CveDescriptionView {
        CveDescriptionView { lang: self.lang@, value: self.value@ }
    }
}

/// The views of a sequence of descriptions.
pub open spec fn description_views(s: Seq<CveDescription>) -> Seq<CveDescriptionView> {
    s.map(|_i: int, d: CveDescription| d@)
}

/// The CVSS metric blocks of a record; each entry holds one block's base
/// severity label, in the order the vendor gave the blocks.
#[derive(Debug)]
pub struct CveMetrics {
    pub cvss_metric_v2: Vec<String>,
    pub cvss_metric_v30: Vec<String>,
    pub cvss_metric_v31: Vec<String>,
    pub cvss_metric_v40: Vec<String>,
}

/// Mathematical image of a [`CveMetrics`].
pub ghost struct CveMetricsView {
    pub v2: Seq<Seq<char>>,
    pub v30: Seq<Seq<char>>,
    pub v31: Seq<Seq<char>>,
    pub v40: Seq<Seq<char>>,
}

/// The views of a sequence of strings.
pub open spec fn str_views(s: Seq<String>) -> Seq<Seq<char>> {
    s.map(|_i: int, x: String| x@)
}

impl View for CveMetrics {
    type V = CveMetricsView;

    open spec fn view(&self) -> CveMetricsView {
        CveMetricsView {
            v2: str_views(self.cvss_metric_v2@),
            v30: str_views(self.cvss_metric_v30@),
            v31: str_views(self.cvss_metric_v31@),
            v40: str_views(self.cvss_metric_v40@),
        }
    }
}

/// One match rule of a configuration node.
#[derive(Debug)]
pub struct CpeMatch {
    pub vulnerable: bool,
    pub version_start_including: Option<String>,
    pub version_end_excluding: Option<String>,
    pub criteria: String,
}

/// Mathematical image of a [`CpeMatch`].
pub ghost struct CpeMatchView {
    pub vulnerable: bool,
    pub version_start_including: Option<Seq<char>>,
    pub version_end_excluding: Option<Seq<char>>,
    pub criteria: Seq<char>,
}

impl View for CpeMatch {
    type V = CpeMatchView;

    open spec fn view(&self) -> CpeMatchView {
        CpeMatchView {
            vulnerable: self.vulnerable,
            version_start_including: match self.version_start_including {
                Some(s) => Some(s@),
                None => None,
            },
            version_end_excluding: match self.version_end_excluding {
                Some(s) => Some(s@),
                None => None,
            },
            criteria: self.criteria@,
        }
    }
}

/// The views of a sequence of match rules.
pub open spec fn cpe_match_views(s: Seq<CpeMatch>) -> Seq<CpeMatchView> {
    s.map(|_i: int, m: CpeMatch| m@)
}

/// One configuration node: a combination operator and its match rules.
#[derive(Debug)]
pub struct Node {
    pub operator: String,
    pub cpe_match: Vec<CpeMatch>,
}

/// Mathematical image of a [`Node`].
pub ghost struct NodeView {
    pub operator: Seq<char>,
    pub cpe_match: Seq<CpeMatchView>,
}

impl View for Node {
    type V = NodeView;

    open spec fn view(&self) -> NodeView {
        NodeView { operator: self.operator@, cpe_match: cpe_match_views(self.cpe_match@) }
    }
}

/// The views of a sequence of nodes.
pub open spec fn node_views(s: Seq<Node>) -> Seq<NodeView> {
    s.map(|_i: int, n: Node| n@)
}

/// One configuration of a vendor record.
#[derive(Debug)]
pub struct Configuration {
    pub nodes: Vec<Node>,
}

/// Mathematical image of a [`Configuration`].
pub ghost struct ConfigurationView {
    pub nodes: Seq<NodeView>,
}

impl View for Configuration {
    type V = ConfigurationView;

    open spec fn view(&self) -> ConfigurationView {
        ConfigurationView { nodes: node_views(self.nodes@) }
    }
}

/// The views of a sequence of configurations.
pub open spec fn configuration_views(s: Seq<Configuration>) -> Seq<ConfigurationView> {
    s.map(|_i: int, c: Configuration| c@)
}

/// One vendor vulnerability record, shaped into plain values.
#[derive(Debug)]
pub struct CveVulnerability {
    pub id: String,
    pub descriptions: Vec<CveDescription>,
    pub metrics: CveMetrics,
    pub configurations: Vec<Configuration>,
}

/// Mathematical image of a [`CveVulnerability`].
pub ghost struct CveView {
    pub id: Seq<char>,
    pub descriptions: Seq<CveDescriptionView>,
    pub metrics: CveMetricsView,
    pub configurations: Seq<ConfigurationView>,
}

impl View for CveVulnerability {
    type V = CveView;

    open spec fn view(&self) -> CveView {
        CveView {
            id: self.id@,
            descriptions: description_views(self.descriptions@),
            metrics: self.metrics@,
            configurations: configuration_views(self.configurations@),
        }
    }
}

/// One entry of the feed's `vulnerabilities` envelope, wrapping a record.
#[derive(Debug)]
pub struct NvdVulnerability {
    pub cve: CveVulnerability,
}

impl View for NvdVulnerability {
    type V = CveView;

    open spec fn view(&self) -> CveView {
        self.cve@
    }
}

/// Why a vendor record fails to normalize.
#[derive(Debug)]
pub enum CveError {
    /// No English-language description is present.
    MissingDescription,
    /// A severity label outside the vocabulary.
    Severity(SeverityError),
}

/// Mathematical image of a [`CveError`].
pub ghost enum CveErrorView {
    MissingDescription,
    Severity(Seq<char>),
}

impl View for CveError {
    type V = CveErrorView;

    open spec fn view(&self) -> CveErrorView {
        match self {
            CveError::MissingDescription => CveErrorView::MissingDescription,
            CveError::Severity(e) => CveErrorView::Severity(e@),
        }
    }
}

/// The value of the first description whose language tag is `"en"`.
pub open spec fn first_english(descs: Seq<CveDescriptionView>) -> Option<Seq<char>>
    decreases descs.len(),
{
    if descs.len() == 0 {
        None
    } else if descs[0].lang == "en"@ {
        Some(descs[0].value)
    } else {
        first_english(descs.drop_first())
    }
}

/// The severity label the metrics yield, under the schema precedence
/// CVSSv4 > CVSSv3.1 > CVSSv3.0 > CVSSv2; within one schema the first
/// block wins.
pub open spec fn metrics_label(m: CveMetricsView) -> Option<Seq<char>> {
    if m.v40.len() > 0 {
        Some(m.v40[0])
    } else if m.v31.len() > 0 {
        Some(m.v31[0])
    } else if m.v30.len() > 0 {
        Some(m.v30[0])
    } else if m.v2.len() > 0 {
        Some(m.v2[0])
    } else {
        None
    }
}

/// What severity a record's metrics denote: no block means no severity,
/// a chosen block whose label lies outside the vocabulary is an error
/// carrying the normalized label.
pub open spec fn severity_result(m: CveMetricsView) -> Result<Option<Severity>, Seq<char>> {
    match metrics_label(m) {
        None => Ok(None),
        Some(l) => match crate::vulnerabilities::severity_of_label(l) {
            Some(s) => Ok(Some(s)),
            None => Err(trimmed(lower_seq(l))),
        },
    }
}

/// The package identity a criteria string yields: the identifier is
/// lower-cased and split on `':'`; the identity is the fourth and fifth
/// parts joined by `':'` (vendor and product). Fewer than five parts is a
/// malformed identifier, which yields nothing.
pub open spec fn criteria_identity(s: Seq<char>) -> Option<Seq<char>> {
    let parts = split_parts(lower_seq(s), ':');
    if parts.len() >= 5 {
        Some(parts[3] + seq![':'] + parts[4])
    } else {
        None
    }
}

/// The identity of one match rule, as a sequence of none or one.
pub open spec fn identity_seq_of_match(m: CpeMatchView) -> Seq<Seq<char>> {
    match criteria_identity(m.criteria) {
        Some(x) => seq![x],
        None => Seq::<Seq<char>>::empty(),
    }
}

/// The identities of a sequence of match rules, in order.
pub open spec fn identities_of_matches(ms: Seq<CpeMatchView>) -> Seq<Seq<char>>
    decreases ms.len(),
{
    if ms.len() == 0 {
        Seq::<Seq<char>>::empty()
    } else {
        identities_of_matches(ms.drop_last()) + identity_seq_of_match(ms.last())
    }
}

/// The identities of a sequence of nodes, in order.
pub open spec fn identities_of_nodes(ns: Seq<NodeView>) -> Seq<Seq<char>>
    decreases ns.len(),
{
    if ns.len() == 0 {
        Seq::<Seq<char>>::empty()
    } else {
        identities_of_nodes(ns.drop_last()) + identities_of_matches(ns.last().cpe_match)
    }
}

/// The identities of a sequence of configurations, in order.
pub open spec fn identities_of_configs(cs: Seq<ConfigurationView>) -> Seq<Seq<char>>
    decreases cs.len(),
{
    if cs.len() == 0 {
        Seq::<Seq<char>>::empty()
    } else {
        identities_of_configs(cs.drop_last()) + identities_of_nodes(cs.last().nodes)
    }
}

/// Every package identity a record concerns, with repetitions, in order.
pub open spec fn cve_identities(c: CveView) -> Seq<Seq<char>> {
    identities_of_configs(c.configurations)
}

/// Whether a record concerns package `q`: the query, lower-cased, equals
/// the trailing component of some derived identity.
pub open spec fn cve_matches(c: CveView, q: Seq<char>) -> bool {
    exists|p: int|
        0 <= p < cve_identities(c).len() && has_suffix(
            #[trigger] cve_identities(c)[p],
            seq![':'] + lower_seq(q),
        )
}

/// The range one match rule contributes: the rule must be flagged
/// vulnerable and carry an inclusive start and an exclusive end, both
/// parseable as versions; anything else contributes nothing.
pub open spec fn match_range(m: CpeMatchView) -> Option<RangeView> {
    match (m.version_start_including, m.version_end_excluding) {
        (Some(s), Some(e)) => {
            if m.vulnerable && version_text_ok(s) && version_text_ok(e) {
                Some(RangeView { start: version_chunks(s), end: version_chunks(e) })
            } else {
                None
            }
        },
        _ => None,
    }
}

/// The range of one match rule, as a sequence of none or one.
pub open spec fn range_seq_of_match(m: CpeMatchView) -> Seq<RangeView> {
    match match_range(m) {
        Some(r) => seq![r],
        None => Seq::<RangeView>::empty(),
    }
}

/// The ranges of a sequence of match rules, in order.
pub open spec fn ranges_of_matches(ms: Seq<CpeMatchView>) -> Seq<RangeView>
    decreases ms.len(),
{
    if ms.len() == 0 {
        Seq::<RangeView>::empty()
    } else {
        ranges_of_matches(ms.drop_last()) + range_seq_of_match(ms.last())
    }
}

/// The ranges of one node: only a node whose combination operator is the
/// logical OR contributes.
pub open spec fn node_ranges(n: NodeView) -> Seq<RangeView> {
    if n.operator == "OR"@ {
        ranges_of_matches(n.cpe_match)
    } else {
        Seq::<RangeView>::empty()
    }
}

/// The ranges of a sequence of nodes, in order.
pub open spec fn ranges_of_nodes(ns: Seq<NodeView>) -> Seq<RangeView>
    decreases ns.len(),
{
    if ns.len() == 0 {
        Seq::<RangeView>::empty()
    } else {
        ranges_of_nodes(ns.drop_last()) + node_ranges(ns.last())
    }
}

/// The ranges of a sequence of configurations, in order.
pub open spec fn ranges_of_configs(cs: Seq<ConfigurationView>) -> Seq<RangeView>
    decreases cs.len(),
{
    if cs.len() == 0 {
        Seq::<RangeView>::empty()
    } else {
        ranges_of_configs(cs.drop_last()) + ranges_of_nodes(cs.last().nodes)
    }
}

/// Every affected version range a record declares, in order.
pub open spec fn cve_ranges(c: CveView) -> Seq<RangeView> {
    ranges_of_configs(c.configurations)
}

/// What normalizing a record owes: the first English description (its
/// absence is the failure), the severity under the schema precedence (an
/// unknown label is the failure), and the declared ranges.
pub open spec fn cve_domain(c: CveView) -> Result<VulnerabilityView, CveErrorView> {
    match first_english(c.descriptions) {
        None => Err(CveErrorView::MissingDescription),
        Some(d) => match severity_result(c.metrics) {
            Err(v) => Err(CveErrorView::Severity(v)),
            Ok(sev) => Ok(
                VulnerabilityView { id: c.id, description: d, severity: sev, ranges: cve_ranges(c) },
            ),
        },
    }
}

impl CpeMatch {
    /// The affected range this rule contributes, if any.
    pub fn range(&self) -> (r: Option<Range>)
        ensures
            match match_range(self@) {
                Some(v) => (r matches Some(x) && x@ == v),
                None => r is None,
            },
    {
        if !self.vulnerable {
            return None;
        }
        let s = match &self.version_start_including {
            Some(s) => s,
            None => {
                return None;
            },
        };
        let e = match &self.version_end_excluding {
            Some(e) => e,
            None => {
                return None;
            },
        };
        let start = match Version::parse(s.as_str()) {
            Some(v) => v,
            None => {
                return None;
            },
        };
        let end = match Version::parse(e.as_str()) {
            Some(v) => v,
            None => {
                return None;
            },
        };
        Some(Range { start, end })
    }
}

/// Matching is insensitive to the case of the query: a lower-cased query
/// matches exactly where the query itself does.
pub proof fn lemma_cve_matches_lower(c: CveView, q: Seq<char>)
    ensures
        cve_matches(c, lower_seq(q)) == cve_matches(c, q),
{
    crate::text::lemma_lower_seq_idempotent(q);
}

fn identity_of_criteria(cr: &str) -> (r: Option<String>)
    ensures
        match criteria_identity(cr@) {
            Some(x) => (r matches Some(s) && s@ == x),
            None => r is None,
        },
{
    let low = lower(cr);
    let parts = split(low.as_str(), ':');
    if parts.len() < 5 {
        return None;
    }
    let mut id = parts[3].clone();
    id.append(":");
    id.append(parts[4].as_str());
    proof {
        reveal_strlit(":");
        assert(":"@ =~= seq![':']);
        assert(id@ =~= split_parts(lower_seq(cr@), ':')[3] + seq![':'] + split_parts(
            lower_seq(cr@),
            ':',
        )[4]);
    }
    Some(id)
}

fn contains_string(r: &Vec<String>, x: &str) -> (b: bool)
    ensures
        b == (exists|p: int| 0 <= p < r@.len() && #[trigger] r@[p]@ == x@),
{
    let mut p: usize = 0;
    while p < r.len()
        invariant
            p <= r@.len(),
            forall|q: int| 0 <= q < p ==> #[trigger] r@[q]@ != x@,
        decreases r@.len() - p,
    {
        if str_eq(r[p].as_str(), x) {
            return true;
        }
        p = p + 1;
    }
    false
}

fn dedup_strings(v: Vec<String>) -> (r: Vec<String>)
    ensures
        forall|p: int, q: int| 0 <= p < q < r@.len() ==> r@[p]@ != r@[q]@,
        forall|p: int| 0 <= p < r@.len() ==> str_views(v@).contains(#[trigger] r@[p]@),
        forall|x: Seq<char>|
            str_views(v@).contains(x) ==> (exists|p: int|
                0 <= p < r@.len() && #[trigger] r@[p]@ == x),
{
    let ghost sv = str_views(v@);
    let mut r: Vec<String> = Vec::new();
    let mut i: usize = 0;
    while i < v.len()
        invariant
            sv == str_views(v@),
            i <= sv.len(),
            sv.len() == v@.len(),
            forall|p: int, q: int| 0 <= p < q < r@.len() ==> r@[p]@ != r@[q]@,
            forall|p: int| 0 <= p < r@.len() ==> sv.take(i as int).contains(#[trigger] r@[p]@),
            forall|x: Seq<char>|
                sv.take(i as int).contains(x) ==> (exists|p: int|
                    0 <= p < r@.len() && #[trigger] r@[p]@ == x),
        decreases sv.len() - i,
    {
        proof {
            assert(sv[i as int] == v@[i as int]@);
        }
        let dup = contains_string(&r, v[i].as_str());
        let ghost r0 = r@;
        if !dup {
            r.push(v[i].clone());
        }
        proof {
            assert(sv.take(i + 1).drop_last() =~= sv.take(i as int));
            assert(sv.take(i + 1).last() == sv[i as int]);
            if !dup {
                assert(r@.drop_last() =~= r0);
                assert(r@.last()@ == sv[i as int]);
            }
            assert forall|x: Seq<char>| #[trigger] sv.take(i + 1).contains(x) implies (exists|p: int|
                0 <= p < r@.len() && #[trigger] r@[p]@ == x) by {
                let w = choose|w: int| 0 <= w < sv.take(i + 1).len() && #[trigger] sv.take(i + 1)[w] == x;
                if w < i {
                    assert(sv.take(i as int)[w] == x);
                    assert(sv.take(i as int).contains(x));
                    let p = choose|p: int| 0 <= p < r0.len() && #[trigger] r0[p]@ == x;
                    assert(r@[p]@ == x);
                } else {
                    assert(x == sv[i as int]);
                    if dup {
                        let p = choose|p: int| 0 <= p < r0.len() && #[trigger] r0[p]@ == v@[i as int]@;
                        assert(r@[p]@ == x);
                    } else {
                        assert(r@[r@.len() - 1]@ == x);
                    }
                }
            }
            assert forall|p: int| 0 <= p < r@.len() implies sv.take(i + 1).contains(
                #[trigger] r@[p]@,
            ) by {
                if sv.take(i as int).contains(r@[p]@) {
                    let w = choose|w: int|
                        0 <= w < sv.take(i as int).len() && #[trigger] sv.take(i as int)[w]
                            == r@[p]@;
                    assert(sv.take(i + 1)[w] == r@[p]@);
                } else {
                    assert(r@[p]@ == sv[i as int]);
                    assert(sv.take(i + 1)[i as int] == sv[i as int]);
                }
            }
        }
        i = i + 1;
    }
    proof {
        assert(sv.take(sv.len() as int) =~= sv);
    }
    r
}

impl CveMetrics {
    /// The severity label under the schema precedence, if any block exists.
    pub fn severity(&self) -> (r: Option<&String>)
        ensures
            match metrics_label(self@) {
                Some(l) => (r matches Some(s) && s@ == l),
                None => r is None,
            },
    {
        if self.cvss_metric_v40.len() > 0 {
            Some(&self.cvss_metric_v40[0])
        } else if self.cvss_metric_v31.len() > 0 {
            Some(&self.cvss_metric_v31[0])
        } else if self.cvss_metric_v30.len() > 0 {
            Some(&self.cvss_metric_v30[0])
        } else if self.cvss_metric_v2.len() > 0 {
            Some(&self.cvss_metric_v2[0])
        } else {
            None
        }
    }
}

impl CveVulnerability {
    /// The first English-language description; its absence is the hard
    /// parse failure of a record.
    pub fn description(&self) -> (r: Result<String, CveError>)
        ensures
            match first_english(self@.descriptions) {
                Some(v) => (r matches Ok(s) && s@ == v),
                None => (r matches Err(e) && e@ is MissingDescription),
            },
    {
        let ghost ds = self@.descriptions;
        let mut d: usize = 0;
        proof {
            assert(ds.skip(0) =~= ds);
        }
        while d < self.descriptions.len()
            invariant
                ds == description_views(self.descriptions@),
                d <= ds.len(),
                ds.len() == self.descriptions@.len(),
                first_english(ds.skip(d as int)) == first_english(ds),
            decreases ds.len() - d,
        {
            proof {
                assert(ds[d as int] == self.descriptions@[d as int]@);
            }
            if str_eq(self.descriptions[d].lang.as_str(), "en") {
                return Ok(self.descriptions[d].value.clone());
            }
            proof {
                assert(ds.skip(d as int).drop_first() =~= ds.skip(d + 1));
            }
            d = d + 1;
        }
        proof {
            assert(ds.skip(ds.len() as int) =~= Seq::<CveDescriptionView>::empty());
        }
        Err(CveError::MissingDescription)
    }

    fn collect_identities(&self) -> (r: Vec<String>)
        ensures
            str_views(r@) == cve_identities(self@),
    {
        let ghost cs = self@.configurations;
        let mut acc: Vec<String> = Vec::new();
        let mut i: usize = 0;
        proof {
            assert(cs.take(0) =~= Seq::<ConfigurationView>::empty());
            assert(str_views(acc@) =~= identities_of_configs(cs.take(0)));
        }
        while i < self.configurations.len()
            invariant
                cs == configuration_views(self.configurations@),
                i <= cs.len(),
                cs.len() == self.configurations@.len(),
                str_views(acc@) == identities_of_configs(cs.take(i as int)),
            decreases cs.len() - i,
        {
            let ci = &self.configurations[i];
            let ghost ns = cs[i as int].nodes;
            let mut j: usize = 0;
            proof {
                assert(ci@ == cs[i as int]);
                assert(ns.take(0) =~= Seq::<NodeView>::empty());
                assert(str_views(acc@) + identities_of_nodes(ns.take(0)) =~= str_views(acc@));
            }
            while j < ci.nodes.len()
                invariant
                    cs == configuration_views(self.configurations@),
                    i < cs.len(),
                    ci@ == cs[i as int],
                    ns == cs[i as int].nodes,
                    j <= ns.len(),
                    ns.len() == ci.nodes@.len(),
                    str_views(acc@) == identities_of_configs(cs.take(i as int))
                        + identities_of_nodes(ns.take(j as int)),
                decreases ns.len() - j,
            {
                let nj = &ci.nodes[j];
                let ghost ms = ns[j as int].cpe_match;
                let mut k: usize = 0;
                proof {
                    assert(nj@ == ns[j as int]);
                    assert(ms.take(0) =~= Seq::<CpeMatchView>::empty());
                    assert(str_views(acc@) + identities_of_matches(ms.take(0)) =~= str_views(
                        acc@,
                    ));
                }
                while k < nj.cpe_match.len()
                    invariant
                        cs == configuration_views(self.configurations@),
                        i < cs.len(),
                        0 <= j < ns.len(),
                        ns == cs[i as int].nodes,
                        nj@ == ns[j as int],
                        ms == ns[j as int].cpe_match,
                        k <= ms.len(),
                        ms.len() == nj.cpe_match@.len(),
                        str_views(acc@) == identities_of_configs(cs.take(i as int))
                            + identities_of_nodes(ns.take(j as int)) + identities_of_matches(
                            ms.take(k as int),
                        ),
                    decreases ms.len() - k,
                {
                    let mk = &nj.cpe_match[k];
                    proof {
                        assert(mk@ == ms[k as int]);
                        assert(ms.take(k + 1).drop_last() =~= ms.take(k as int));
                        assert(ms.take(k + 1).last() == ms[k as int]);
                    }
                    match identity_of_criteria(mk.criteria.as_str()) {
                        Some(id) => {
                            proof {
                                assert(identity_seq_of_match(ms[k as int]) =~= seq![id@]);
                            }
                            let ghost a0 = acc@;
                            acc.push(id);
                            proof {
                                assert(acc@.drop_last() =~= a0);
                                assert(str_views(acc@) =~= str_views(a0).push(acc@.last()@));
                                assert(str_views(acc@) =~= identities_of_configs(
                                    cs.take(i as int),
                                ) + identities_of_nodes(ns.take(j as int))
                                    + identities_of_matches(ms.take(k + 1)));
                            }
                        },
                        None => {
                            proof {
                                assert(identity_seq_of_match(ms[k as int])
                                    =~= Seq::<Seq<char>>::empty());
                                assert(str_views(acc@) =~= identities_of_configs(
                                    cs.take(i as int),
                                ) + identities_of_nodes(ns.take(j as int))
                                    + identities_of_matches(ms.take(k + 1)));
                            }
                        },
                    }
                    k = k + 1;
                }
                proof {
                    assert(ms.take(ms.len() as int) =~= ms);
                    assert(ns.take(j + 1).drop_last() =~= ns.take(j as int));
                    assert(ns.take(j + 1).last() == ns[j as int]);
                    assert(str_views(acc@) =~= identities_of_configs(cs.take(i as int))
                        + identities_of_nodes(ns.take(j + 1)));
                }
                j = j + 1;
            }
            proof {
                assert(ns.take(ns.len() as int) =~= ns);
                assert(cs.take(i + 1).drop_last() =~= cs.take(i as int));
                assert(cs.take(i + 1).last() == cs[i as int]);
                assert(str_views(acc@) =~= identities_of_configs(cs.take(i + 1)));
            }
            i = i + 1;
        }
        proof {
            assert(cs.take(cs.len() as int) =~= cs);
        }
        acc
    }

    /// The set of package identities the record concerns: every identity a
    /// match rule yields, deduplicated.
    pub fn package_ids(&self) -> (r: Vec<String>)
        ensures
            forall|p: int, q: int| 0 <= p < q < r@.len() ==> r@[p]@ != r@[q]@,
            forall|p: int|
                0 <= p < r@.len() ==> cve_identities(self@).contains(#[trigger] r@[p]@),
            forall|x: Seq<char>|
                cve_identities(self@).contains(x) ==> (exists|p: int|
                    0 <= p < r@.len() && #[trigger] r@[p]@ == x),
    {
        let ids = self.collect_identities();
        dedup_strings(ids)
    }

    /// Whether the record concerns the queried package name,
    /// case-insensitively.
    pub fn matches(&self, package: &str) -> (r: bool)
        ensures
            r == cve_matches(self@, package@),
    {
        let ids = self.package_ids();
        let lowered = lower(package);
        let mut needle = String::from_str(":");
        needle.append(lowered.as_str());
        proof {
            reveal_strlit(":");
            assert(":"@ =~= seq![':']);
            assert(needle@ == seq![':'] + lower_seq(package@));
        }
        let mut p: usize = 0;
        while p < ids.len()
            invariant
                needle@ == seq![':'] + lower_seq(package@),
                p <= ids@.len(),
                forall|q: int|
                    0 <= q < ids@.len() ==> cve_identities(self@).contains(#[trigger] ids@[q]@),
                forall|x: Seq<char>|
                    cve_identities(self@).contains(x) ==> (exists|q: int|
                        0 <= q < ids@.len() && #[trigger] ids@[q]@ == x),
                forall|q: int|
                    0 <= q < p ==> !has_suffix(#[trigger] ids@[q]@, seq![':'] + lower_seq(
                        package@,
                    )),
            decreases ids@.len() - p,
        {
            if crate::text::ends_with(ids[p].as_str(), needle.as_str()) {
                proof {
                    assert(cve_identities(self@).contains(ids@[p as int]@));
                    let w = choose|w: int|
                        0 <= w < cve_identities(self@).len() && #[trigger] cve_identities(self@)[w]
                            == ids@[p as int]@;
                    assert(has_suffix(cve_identities(self@)[w], seq![':'] + lower_seq(package@)));
                }
                return true;
            }
            p = p + 1;
        }
        proof {
            assert forall|w: int| 0 <= w < cve_identities(self@).len() implies !has_suffix(
                #[trigger] cve_identities(self@)[w],
                seq![':'] + lower_seq(package@),
            ) by {
                assert(cve_identities(self@).contains(cve_identities(self@)[w]));
            }
        }
        false
    }

    /// The record's severity: read from the one metric block the precedence
    /// selects, absent when no block exists.
    pub fn severity(&self) -> (r: Result<Option<Severity>, SeverityError>)
        ensures
            match severity_result(self@.metrics) {
                Ok(o) => (r matches Ok(x) && x == o),
                Err(v) => (r matches Err(e) && e@ == v),
            },
    {
        match self.metrics.severity() {
            None => Ok(None),
            Some(label) => match Severity::from_label(label.as_str()) {
                Ok(s) => Ok(Some(s)),
                Err(e) => Err(e),
            },
        }
    }

    /// The affected version ranges the record declares.
    pub fn ranges(&self) -> (r: Vec<Range>)
        ensures
            range_views(r@) == cve_ranges(self@),
    {
        let ghost cs = self@.configurations;
        let mut acc: Vec<Range> = Vec::new();
        let mut i: usize = 0;
        proof {
            assert(cs.take(0) =~= Seq::<ConfigurationView>::empty());
            assert(range_views(acc@) =~= ranges_of_configs(cs.take(0)));
        }
        while i < self.configurations.len()
            invariant
                cs == configuration_views(self.configurations@),
                i <= cs.len(),
                cs.len() == self.configurations@.len(),
                range_views(acc@) == ranges_of_configs(cs.take(i as int)),
            decreases cs.len() - i,
        {
            let ci = &self.configurations[i];
            let ghost ns = cs[i as int].nodes;
            let mut j: usize = 0;
            proof {
                assert(ci@ == cs[i as int]);
                assert(ns.take(0) =~= Seq::<NodeView>::empty());
                assert(range_views(acc@) + ranges_of_nodes(ns.take(0)) =~= range_views(acc@));
            }
            while j < ci.nodes.len()
                invariant
                    cs == configuration_views(self.configurations@),
                    i < cs.len(),
                    ci@ == cs[i as int],
                    ns == cs[i as int].nodes,
                    j <= ns.len(),
                    ns.len() == ci.nodes@.len(),
                    range_views(acc@) == ranges_of_configs(cs.take(i as int)) + ranges_of_nodes(
                        ns.take(j as int),
                    ),
                decreases ns.len() - j,
            {
                let nj = &ci.nodes[j];
                proof {
                    assert(nj@ == ns[j as int]);
                    assert(ns.take(j + 1).drop_last() =~= ns.take(j as int));
                    assert(ns.take(j + 1).last() == ns[j as int]);
                }
                if str_eq(nj.operator.as_str(), "OR") {
                    let ghost ms = ns[j as int].cpe_match;
                    let mut k: usize = 0;
                    proof {
                        assert(ms.take(0) =~= Seq::<CpeMatchView>::empty());
                        assert(range_views(acc@) + ranges_of_matches(ms.take(0)) =~= range_views(
                            acc@,
                        ));
                    }
                    while k < nj.cpe_match.len()
                        invariant
                            cs == configuration_views(self.configurations@),
                            i < cs.len(),
                            0 <= j < ns.len(),
                            ns == cs[i as int].nodes,
                            nj@ == ns[j as int],
                            ms == ns[j as int].cpe_match,
                            k <= ms.len(),
                            ms.len() == nj.cpe_match@.len(),
                            range_views(acc@) == ranges_of_configs(cs.take(i as int))
                                + ranges_of_nodes(ns.take(j as int)) + ranges_of_matches(
                                ms.take(k as int),
                            ),
                        decreases ms.len() - k,
                    {
                        let mk = &nj.cpe_match[k];
                        proof {
                            assert(mk@ == ms[k as int]);
                            assert(ms.take(k + 1).drop_last() =~= ms.take(k as int));
                            assert(ms.take(k + 1).last() == ms[k as int]);
                        }
                        match mk.range() {
                            Some(rg) => {
                                proof {
                                    assert(range_seq_of_match(ms[k as int]) =~= seq![rg@]);
                                }
                                let ghost a0 = acc@;
                                acc.push(rg);
                                proof {
                                    assert(acc@.drop_last() =~= a0);
                                    assert(range_views(acc@) =~= range_views(a0).push(
                                        acc@.last()@,
                                    ));
                                    assert(range_views(acc@) =~= ranges_of_configs(
                                        cs.take(i as int),
                                    ) + ranges_of_nodes(ns.take(j as int)) + ranges_of_matches(
                                        ms.take(k + 1),
                                    ));
                                }
                            },
                            None => {
                                proof {
                                    assert(range_seq_of_match(ms[k as int])
                                        =~= Seq::<RangeView>::empty());
                                    assert(range_views(acc@) =~= ranges_of_configs(
                                        cs.take(i as int),
                                    ) + ranges_of_nodes(ns.take(j as int)) + ranges_of_matches(
                                        ms.take(k + 1),
                                    ));
                                }
                            },
                        }
                        k = k + 1;
                    }
                    proof {
                        assert(ms.take(ms.len() as int) =~= ms);
                        assert(node_ranges(ns[j as int]) == ranges_of_matches(ms));
                        assert(range_views(acc@) =~= ranges_of_configs(cs.take(i as int))
                            + ranges_of_nodes(ns.take(j + 1)));
                    }
                } else {
                    proof {
                        assert(node_ranges(ns[j as int]) =~= Seq::<RangeView>::empty());
                        assert(range_views(acc@) =~= ranges_of_configs(cs.take(i as int))
                            + ranges_of_nodes(ns.take(j + 1)));
                    }
                }
                j = j + 1;
            }
            proof {
                assert(ns.take(ns.len() as int) =~= ns);
                assert(cs.take(i + 1).drop_last() =~= cs.take(i as int));
                assert(cs.take(i + 1).last() == cs[i as int]);
                assert(range_views(acc@) =~= ranges_of_configs(cs.take(i + 1)));
            }
            i = i + 1;
        }
        proof {
            assert(cs.take(cs.len() as int) =~= cs);
        }
        acc
    }

    /// Assembles the normalized record from the description, the severity,
    /// and the ranges.
    pub fn to_domain(&self) -> (r: Result<Vulnerability, CveError>)
        ensures
            match cve_domain(self@) {
                Ok(v) => (r matches Ok(x) && x@ == v),
                Err(e) => (r matches Err(x) && x@ == e),
            },
    {
        let id = self.id.clone();
        let description = match self.description() {
            Ok(d) => d,
            Err(e) => {
                return Err(e);
            },
        };
        let severity = match self.severity() {
            Ok(s) => s,
            Err(e) => {
                return Err(CveError::Severity(e));
            },
        };
        let ranges = self.ranges();
        Ok(Vulnerability { id, description, severity, ranges })
    }
}

impl NvdVulnerability {
    /// Normalizes the wrapped record.
    pub fn to_domain(&self) -> (r: Result<Vulnerability, CveError>)
        ensures
            match cve_domain(self@) {
                Ok(v) => (r matches Ok(x) && x@ == v),
                Err(e) => (r matches Err(x) && x@ == e),
            },
    {
        self.cve.to_domain()
    }

    /// Whether the wrapped record concerns the queried package.
    pub fn matches(&self, package: &str) -> (r: bool)
        ensures
            r == cve_matches(self@, package@),
    {
        self.cve.matches(package)
    }
}

} // verus!
