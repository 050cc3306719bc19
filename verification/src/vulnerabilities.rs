//! The domain model: severities, affected version ranges, and the
//! normalized vulnerability record the parser produces.

use crate::text::{lower, lower_seq, trim, trimmed};
use crate::version::{ver_le, ver_lt, Version};
use vstd::prelude::*;

verus! {

/// Severity of a vulnerability, from least to most severe.
#[derive(Debug, Clone, Copy, PartialEq, Eq, Structural)]
pub enum Severity {
    Low,
    Medium,
    High,
    Critical,
}

impl Severity {
    /// Position in the total severity order.
    pub open spec fn spec_rank(self) -> int {
        match self {
            Severity::Low => 0,
            Severity::Medium => 1,
            Severity::High => 2,
            Severity::Critical => 3,
        }
    }

    /// Position in the total severity order.
    pub fn rank(&self) -> (r: u8)
        ensures
            r == self.spec_rank(),
    {
        match self {
            Severity::Low => 0,
            Severity::Medium => 1,
            Severity::High => 2,
            Severity::Critical => 3,
        }
    }

    /// Whether `self` is at least as severe as `other`.
    pub fn at_least(&self, other: &Severity) -> (r: bool)
        ensures
            r == (self.spec_rank() >= other.spec_rank()),
    {
        self.rank() >= other.rank()
    }

    /// The display label of the severity.
    pub fn label(&self) -> (r: String)
        ensures
            r@ == self.spec_label(),
    {
        match self {
            Severity::Critical => String::from_str("CRITICAL"),
            Severity::High => String::from_str("HIGH"),
            Severity::Medium => String::from_str("Medium"),
            Severity::Low => String::from_str("Low"),
        }
    }

    /// The display label of the severity.
    pub open spec fn spec_label(self) -> Seq<char> {
        match self {
            Severity::Critical => "CRITICAL"@,
            Severity::High => "HIGH"@,
            Severity::Medium => "Medium"@,
            Severity::Low => "Low"@,
        }
    }

    /// Reads a severity from its vocabulary label, ignoring case and
    /// surrounding whitespace; anything outside the vocabulary is an error
    /// carrying the normalized label.
    pub fn from_label(s: &str) -> (r: Result<Severity, SeverityError>)
        ensures
            match severity_of_label(s@) {
                Some(v) => (r matches Ok(x) && x == v),
                None => (r matches Err(e) && e@ == trimmed(lower_seq(s@))),
            },
    {
        let low = lower(s);
        let t = trim(low.as_str());
        if crate::text::str_eq(t.as_str(), "critical") {
            Ok(Severity::Critical)
        } else if crate::text::str_eq(t.as_str(), "high") {
            Ok(Severity::High)
        } else if crate::text::str_eq(t.as_str(), "medium") {
            Ok(Severity::Medium)
        } else if crate::text::str_eq(t.as_str(), "low") {
            Ok(Severity::Low)
        } else {
            Err(SeverityError { value: t })
        }
    }
}

impl core::str::FromStr for Severity {
    type Err = SeverityError;

    fn from_str(s: &str) -> Result<Severity, SeverityError> {
        Severity::from_label(s)
    }
}

/// The severity a label denotes: the label is lower-cased and trimmed, then
/// held against the fixed vocabulary.
pub open spec fn severity_of_label(s: Seq<char>) -> Option<Severity> {
    let t = trimmed(lower_seq(s));
    if t == "critical"@ {
        Some(Severity::Critical)
    } else if t == "high"@ {
        Some(Severity::High)
    } else if t == "medium"@ {
        Some(Severity::Medium)
    } else if t == "low"@ {
        Some(Severity::Low)
    } else {
        None
    }
}

/// A label outside the severity vocabulary.
#[derive(Debug)]
pub struct SeverityError {
    value: String,
}

impl View for SeverityError {
    type V = Seq<char>;

    closed spec fn view(&self) -> Seq<char> {
        self.value@
    }
}

impl SeverityError {
    /// The offending label, as normalized by the parser.
    pub fn value(&self) -> (r: &String)
        ensures
            r@ == self@,
    {
        &self.value
    }

    /// A human-readable account of the error.
    pub fn message(&self) -> String {
        let mut m = String::from_str("Could not parse \"");
        m.append(self.value.as_str());
        m.append("\" as a severity");
        m
    }
}

/// Mathematical image of a [`Range`].
pub ghost struct RangeView {
    pub start: Seq<u64>,
    pub end: Seq<u64>,
}

/// A half-open interval `[start, end)` of affected versions. Vendor data
/// may put `end` at or before `start`; such an interval holds nothing.
#[derive(Debug)]
pub struct Range {
    pub start: Version,
    pub end: Version,
}

impl View for Range {
    type V = RangeView;

    open spec fn view(&self) -> RangeView {
        RangeView { start: self.start@, end: self.end@ }
    }
}

/// Containment in a half-open version interval.
pub open spec fn range_contains(r: RangeView, v: Seq<u64>) -> bool {
    ver_le(r.start, v) && ver_lt(v, r.end)
}

impl Range {
    /// Whether a version lies in the interval: `start <= v && v < end`.
    pub fn contains(&self, v: &Version) -> (r: bool)
        ensures
            r == range_contains(self@, v@),
            r == (ver_le(self@.start, v@) && ver_lt(v@, self@.end)),
    {
        self.start.le(v) && v.lt(&self.end)
    }
}

/// Mathematical image of a [`Vulnerability`].
pub ghost struct VulnerabilityView {
    pub id: Seq<char>,
    pub description: Seq<char>,
    pub severity: Option<Severity>,
    pub ranges: Seq<RangeView>,
}

/// A normalized vulnerability record. Severity may be absent (an unscored
/// vulnerability); a description is always present.
#[derive(Debug)]
pub struct Vulnerability {
    pub id: String,
    pub description: String,
    pub severity: Option<Severity>,
    pub ranges: Vec<Range>,
}

/// The views of a sequence of ranges.
pub open spec fn range_views(s: Seq<Range>) -> Seq<RangeView> {
    s.map(|_i: int, r: Range| r@)
}

impl View for Vulnerability {
    type V = VulnerabilityView;

    open spec fn view(&self) -> VulnerabilityView {
        VulnerabilityView {
            id: self.id@,
            description: self.description@,
            severity: self.severity,
            ranges: range_views(self.ranges@),
        }
    }
}

/// Whether a record's severity is known and at least `min`.
pub open spec fn severity_at_least(v: VulnerabilityView, min: Severity) -> bool {
    v.severity matches Some(s) && s.spec_rank() >= min.spec_rank()
}

/// [`severity_at_least`] as a predicate over records, for filtering.
pub open spec fn severity_pred(min: Severity) -> spec_fn(VulnerabilityView) -> bool {
    |v: VulnerabilityView| severity_at_least(v, min)
}

/// The views of a sequence of records.
pub open spec fn vuln_views(s: Seq<Vulnerability>) -> Seq<VulnerabilityView> {
    s.map(|_i: int, v: Vulnerability| v@)
}

/// Keeps only the vulnerabilities whose severity is known and at least
/// `min_severity`; order is preserved.
pub fn filter(vulnerabilities: &mut Vec<Vulnerability>, min_severity: Severity)
    ensures
        vuln_views(final(vulnerabilities)@) == vuln_views(old(vulnerabilities)@).filter(
            severity_pred(min_severity),
        ),
{
    let ghost orig = vulnerabilities@;
    let n = vulnerabilities.len();
    let mut kept: Vec<Vulnerability> = Vec::new();
    let mut i: usize = 0;
    proof {
        reveal(Seq::filter);
        assert(vuln_views(orig.take(0)) =~= Seq::<VulnerabilityView>::empty());
        assert(orig.skip(0) =~= orig);
    }
    while vulnerabilities.len() > 0
        invariant
            i <= orig.len(),
            orig.len() == n,
            vulnerabilities@ == orig.skip(i as int),
            kept@.len() <= i,
            vuln_views(kept@) == vuln_views(orig.take(i as int)).filter(
                severity_pred(min_severity),
            ),
        decreases vulnerabilities@.len(),
    {
        let v = vulnerabilities.remove(0);
        proof {
            reveal(Seq::filter);
            assert(orig.skip(i as int).remove(0) =~= orig.skip(i + 1));
            assert(orig.skip(i as int)[0] == orig[i as int]);
            assert(vuln_views(orig.take(i + 1)).drop_last() =~= vuln_views(orig.take(i as int)));
            assert(vuln_views(orig.take(i + 1)).last() == orig[i as int]@);
            assert(vuln_views(orig.take(i + 1)) == vuln_views(orig.take(i + 1)).drop_last().push(
                vuln_views(orig.take(i + 1)).last(),
            ));
        }
        let keep = match &v.severity {
            Some(s) => s.at_least(&min_severity),
            None => false,
        };
        proof {
            assert(keep == severity_pred(min_severity)(v@));
        }
        if keep {
            kept.push(v);
            proof {
                assert(vuln_views(kept@) =~= vuln_views(kept@.drop_last()).push(v@));
            }
        }
        i = i + 1;
    }
    proof {
        assert(orig.take(orig.len() as int) =~= orig);
    }
    *vulnerabilities = kept;
}

} // verus!
