//! The local store: a record table keyed by vendor id, a package-keyed
//! lookup cache, and a single ingestion watermark. A write upserts rows by
//! id and unconditionally clears the whole package index in the same step,
//! so the index can never diverge from the rows; a search serves an indexed
//! package from its entry and lazily indexes an unindexed one after a full
//! scan.

use crate::nvd::{
    cve_domain, cve_matches, lemma_cve_matches_lower, str_views, CveError, CveErrorView, CveView,
    CveVulnerability,
};
use crate::text::{lower, lower_seq, str_eq};
use crate::vulnerabilities::{vuln_views, Vulnerability, VulnerabilityView};
use vstd::pervasive::VecAdditionalExecFns;
use vstd::prelude::*;

verus! {

/// One stored row: a vendor id and the raw record filed under it.
pub struct Cve {
    pub id: String,
    pub record: CveVulnerability,
}

/// Mathematical image of a [`Cve`] row.
pub ghost struct CveRowView {
    pub id: Seq<char>,
    pub record: CveView,
}

impl View for Cve {
    type V = CveRowView;

    open spec fn view(&self) -> CveRowView {
        CveRowView { id: self.id@, record: self.record@ }
    }
}

/// The views of a sequence of rows.
pub open spec fn row_views(s: Seq<Cve>) -> Seq<CveRowView> {
    s.map(|_i: int, c: Cve| c@)
}

/// The ids of a sequence of rows.
pub open spec fn row_ids(rows: Seq<CveRowView>) -> Seq<Seq<char>> {
    rows.map(|_i: int, r: CveRowView| r.id)
}

/// Whether no two rows share an id.
pub open spec fn distinct_ids(rows: Seq<CveRowView>) -> bool {
    forall|p: int, q: int| 0 <= p < q < rows.len() ==> rows[p].id != rows[q].id
}

/// The rows that concern a package, in storage order.
pub open spec fn match_rows(rows: Seq<CveRowView>, package: Seq<char>) -> Seq<CveRowView> {
    rows.filter(|r: CveRowView| cve_matches(r.record, package))
}

/// The domain parse of a sequence of rows: every row must normalize, and
/// the first failure is the result.
pub open spec fn parse_rows(rows: Seq<CveRowView>) -> Result<Seq<VulnerabilityView>, CveErrorView>
    decreases rows.len(),
{
    if rows.len() == 0 {
        Ok(Seq::<VulnerabilityView>::empty())
    } else {
        match cve_domain(rows[0].record) {
            Err(e) => Err(e),
            Ok(v) => match parse_rows(rows.drop_first()) {
                Err(e) => Err(e),
                Ok(vs) => Ok(seq![v] + vs),
            },
        }
    }
}

/// What a search owes: the domain parse of exactly the rows that concern
/// the package. It is a function of the rows alone — the index never
/// enters it.
pub open spec fn query_rows(rows: Seq<CveRowView>, package: Seq<char>) -> Result<
    Seq<VulnerabilityView>,
    CveErrorView,
> {
    parse_rows(match_rows(rows, package))
}

/// Last-write-wins upsert of one row: an existing id keeps its place with
/// the new record, a new id is appended.
pub open spec fn upsert_rows(rows: Seq<CveRowView>, id: Seq<char>, record: CveView) -> Seq<
    CveRowView,
> {
    let row = CveRowView { id, record };
    if exists|p: int| 0 <= p < rows.len() && (#[trigger] rows[p]).id == id {
        rows.update(choose|p: int| 0 <= p < rows.len() && (#[trigger] rows[p]).id == id, row)
    } else {
        rows.push(row)
    }
}

/// The rows after upserting a whole batch, in order.
pub open spec fn upsert_all(rows: Seq<CveRowView>, batch: Seq<CveRowView>) -> Seq<CveRowView>
    decreases batch.len(),
{
    if batch.len() == 0 {
        rows
    } else {
        upsert_rows(upsert_all(rows, batch.drop_last()), batch.last().id, batch.last().record)
    }
}

/// Upserting keeps ids distinct, and the resulting id set is the old set
/// plus the upserted id.
pub proof fn lemma_upsert_distinct(rows: Seq<CveRowView>, id: Seq<char>, record: CveView)
    requires
        distinct_ids(rows),
    ensures
        distinct_ids(upsert_rows(rows, id, record)),
        forall|x: Seq<char>|
            row_ids(upsert_rows(rows, id, record)).contains(x) <==> (row_ids(rows).contains(x) || x
                == id),
{
    let out = upsert_rows(rows, id, record);
    if exists|p: int| 0 <= p < rows.len() && (#[trigger] rows[p]).id == id {
        let w = choose|p: int| 0 <= p < rows.len() && (#[trigger] rows[p]).id == id;
        assert forall|x: Seq<char>| row_ids(out).contains(x) implies (row_ids(rows).contains(x) || x
            == id) by {
            let k = choose|k: int| 0 <= k < row_ids(out).len() && row_ids(out)[k] == x;
            if k != w {
                assert(row_ids(rows)[k] == x);
            }
        }
        assert forall|x: Seq<char>| row_ids(rows).contains(x) || x == id implies row_ids(
            out,
        ).contains(x) by {
            if x == id {
                assert(row_ids(out)[w] == x);
            } else {
                let k = choose|k: int| 0 <= k < row_ids(rows).len() && row_ids(rows)[k] == x;
                assert(rows[k].id == x);
                assert(k != w);
                assert(row_ids(out)[k] == x);
            }
        }
    } else {
        assert forall|x: Seq<char>| row_ids(out).contains(x) implies (row_ids(rows).contains(x) || x
            == id) by {
            let k = choose|k: int| 0 <= k < row_ids(out).len() && row_ids(out)[k] == x;
            if k < rows.len() {
                assert(row_ids(rows)[k] == x);
            }
        }
        assert forall|x: Seq<char>| row_ids(rows).contains(x) || x == id implies row_ids(
            out,
        ).contains(x) by {
            if x == id {
                assert(out[rows.len() as int].id == id);
                assert(row_ids(out)[rows.len() as int] == x);
            } else {
                let k = choose|k: int| 0 <= k < row_ids(rows).len() && row_ids(rows)[k] == x;
                assert(out[k] == rows[k]);
                assert(row_ids(out)[k] == x);
            }
        }
    }
}

/// The normalized views of rows, each of which is assumed to parse.
pub open spec fn ok_views(rows: Seq<CveRowView>) -> Seq<VulnerabilityView> {
    rows.map(|_i: int, r: CveRowView| cve_domain(r.record)->Ok_0)
}

/// The rows at a sequence of positions.
pub open spec fn rows_at(rows: Seq<CveRowView>, idxs: Seq<usize>) -> Seq<CveRowView> {
    idxs.map(|_t: int, u: usize| rows[u as int])
}

/// A parse that succeeds parses every row, to the map of their views.
pub proof fn lemma_parse_rows_ok(rows: Seq<CveRowView>)
    requires
        parse_rows(rows) is Ok,
    ensures
        forall|j: int| 0 <= j < rows.len() ==> cve_domain((#[trigger] rows[j]).record) is Ok,
        parse_rows(rows)->Ok_0 == ok_views(rows),
    decreases rows.len(),
{
    if rows.len() > 0 {
        lemma_parse_rows_ok(rows.drop_first());
        assert forall|j: int| 0 <= j < rows.len() implies cve_domain(
            (#[trigger] rows[j]).record,
        ) is Ok by {
            if j > 0 {
                assert(rows[j] == rows.drop_first()[j - 1]);
            }
        }
        assert(parse_rows(rows)->Ok_0 =~= ok_views(rows)) by {
            assert forall|j: int| 0 <= j < rows.len() implies parse_rows(rows)->Ok_0[j] == ok_views(
                rows,
            )[j] by {
                if j > 0 {
                    assert(rows[j] == rows.drop_first()[j - 1]);
                    assert(ok_views(rows.drop_first())[j - 1] == ok_views(rows)[j]);
                }
            }
        }
    }
}

/// When every row parses, the parse succeeds with the map of their views.
pub proof fn lemma_parse_rows_all_ok(rows: Seq<CveRowView>)
    requires
        forall|j: int| 0 <= j < rows.len() ==> cve_domain((#[trigger] rows[j]).record) is Ok,
    ensures
        parse_rows(rows) == Ok::<Seq<VulnerabilityView>, CveErrorView>(ok_views(rows)),
    decreases rows.len(),
{
    if rows.len() == 0 {
        assert(ok_views(rows) =~= Seq::<VulnerabilityView>::empty());
    } else {
        assert forall|j: int| 0 <= j < rows.drop_first().len() implies cve_domain(
            (#[trigger] rows.drop_first()[j]).record,
        ) is Ok by {
            assert(rows.drop_first()[j] == rows[j + 1]);
        }
        lemma_parse_rows_all_ok(rows.drop_first());
        assert(parse_rows(rows)->Ok_0 =~= ok_views(rows)) by {
            assert forall|j: int| 0 <= j < rows.len() implies parse_rows(rows)->Ok_0[j] == ok_views(
                rows,
            )[j] by {
                if j > 0 {
                    assert(rows[j] == rows.drop_first()[j - 1]);
                    assert(ok_views(rows.drop_first())[j - 1] == ok_views(rows)[j]);
                }
            }
        }
    }
}

/// The first row that fails to parse decides the parse of the sequence.
pub proof fn lemma_parse_rows_first_err(rows: Seq<CveRowView>, k: int, e: CveErrorView)
    requires
        0 <= k < rows.len(),
        forall|j: int| 0 <= j < k ==> cve_domain((#[trigger] rows[j]).record) is Ok,
        cve_domain(rows[k].record) == Err::<VulnerabilityView, CveErrorView>(e),
    ensures
        parse_rows(rows) == Err::<Seq<VulnerabilityView>, CveErrorView>(e),
    decreases k,
{
    if k > 0 {
        assert forall|j: int| 0 <= j < k - 1 implies cve_domain(
            (#[trigger] rows.drop_first()[j]).record,
        ) is Ok by {
            assert(rows.drop_first()[j] == rows[j + 1]);
        }
        assert(rows.drop_first()[k - 1] == rows[k]);
        lemma_parse_rows_first_err(rows.drop_first(), k - 1, e);
    }
}

/// Every row that concerns a package lies in the table and does concern it.
pub proof fn lemma_match_rows_sub(rows: Seq<CveRowView>, package: Seq<char>)
    ensures
        forall|k: int|
            0 <= k < match_rows(rows, package).len() ==> rows.contains(
                #[trigger] match_rows(rows, package)[k],
            ),
        forall|k: int|
            0 <= k < match_rows(rows, package).len() ==> cve_matches(
                (#[trigger] match_rows(rows, package)[k]).record,
                package,
            ),
    decreases rows.len(),
{
    reveal(Seq::filter);
    if rows.len() > 0 {
        lemma_match_rows_sub(rows.drop_last(), package);
        let prev = match_rows(rows.drop_last(), package);
        assert forall|k: int| 0 <= k < match_rows(rows, package).len() implies rows.contains(
            #[trigger] match_rows(rows, package)[k],
        ) && cve_matches(match_rows(rows, package)[k].record, package) by {
            if k < prev.len() {
                assert(match_rows(rows, package)[k] == prev[k]);
                let w = choose|w: int|
                    0 <= w < rows.drop_last().len() && #[trigger] rows.drop_last()[w] == prev[k];
                assert(rows[w] == prev[k]);
            } else {
                assert(match_rows(rows, package)[k] == rows.last());
                assert(rows[rows.len() - 1] == rows.last());
            }
        }
    }
}

/// Searching by the lower-cased key selects the same rows as the query
/// itself: matching lower-cases the query either way.
pub proof fn lemma_match_rows_lower(rows: Seq<CveRowView>, q: Seq<char>)
    ensures
        match_rows(rows, lower_seq(q)) == match_rows(rows, q),
    decreases rows.len(),
{
    reveal(Seq::filter);
    if rows.len() == 0 {
        assert(match_rows(rows, lower_seq(q)) =~= match_rows(rows, q));
    } else {
        lemma_match_rows_lower(rows.drop_last(), q);
        lemma_cve_matches_lower(rows.last().record, q);
        assert(match_rows(rows, lower_seq(q)) =~= match_rows(rows, q));
    }
}

/// Reads are idempotent: what a search returns is a function of the rows
/// alone, never of the index, so two searches of one package with no
/// intervening write return the same result set — whether each was served
/// from the index or by a full scan.
pub proof fn lemma_search_idempotent(db1: DatabaseView, db2: DatabaseView, package: Seq<char>)
    requires
        db1.rows == db2.rows,
    ensures
        query_rows(db1.rows, package) == query_rows(db2.rows, package),
{
}

/// A row that concerns a package is among the rows a search of that
/// package reads.
proof fn lemma_match_rows_contains(rows: Seq<CveRowView>, package: Seq<char>, k: int)
    requires
        0 <= k < rows.len(),
        cve_matches(rows[k].record, package),
    ensures
        match_rows(rows, package).contains(rows[k]),
    decreases rows.len(),
{
    reveal(Seq::filter);
    if k == rows.len() - 1 {
        assert(rows.last() == rows[k]);
        let m = match_rows(rows, package);
        assert(m.last() == rows[k]);
        assert(m.contains(rows[k]));
    } else {
        assert(rows.drop_last()[k] == rows[k]);
        lemma_match_rows_contains(rows.drop_last(), package, k);
        let prev = match_rows(rows.drop_last(), package);
        let w = choose|w: int| 0 <= w < prev.len() && #[trigger] prev[w] == rows[k];
        assert(match_rows(rows, package)[w] == rows[k]);
        assert(match_rows(rows, package).contains(rows[k]));
    }
}

/// Invalidation takes effect: upserting a record that concerns a package
/// makes the next search of that package read it.
pub proof fn lemma_upsert_searched(
    rows: Seq<CveRowView>,
    id: Seq<char>,
    record: CveView,
    package: Seq<char>,
)
    requires
        distinct_ids(rows),
        cve_matches(record, package),
    ensures
        match_rows(upsert_rows(rows, id, record), package).contains(CveRowView { id, record }),
{
    let row = CveRowView { id, record };
    let out = upsert_rows(rows, id, record);
    if exists|p: int| 0 <= p < rows.len() && (#[trigger] rows[p]).id == id {
        let w = choose|p: int| 0 <= p < rows.len() && (#[trigger] rows[p]).id == id;
        assert(out[w] == row);
        lemma_match_rows_contains(out, package, w);
    } else {
        assert(out[rows.len() as int] == row);
        lemma_match_rows_contains(out, package, rows.len() as int);
    }
}

/// Batch upserts keep ids distinct.
pub proof fn lemma_upsert_all_distinct(rows: Seq<CveRowView>, batch: Seq<CveRowView>)
    requires
        distinct_ids(rows),
    ensures
        distinct_ids(upsert_all(rows, batch)),
    decreases batch.len(),
{
    if batch.len() > 0 {
        lemma_upsert_all_distinct(rows, batch.drop_last());
        lemma_upsert_distinct(
            upsert_all(rows, batch.drop_last()),
            batch.last().id,
            batch.last().record,
        );
    }
}

/// Saving a batch makes its last record visible to the next search of a
/// package it concerns: the record is among the rows that search reads,
/// and when that search succeeds its result carries the record's
/// normalized view. (An earlier batch entry can be overwritten by a later
/// one that shares its id: the write is last-write-wins.)
pub proof fn lemma_save_visible(rows: Seq<CveRowView>, batch: Seq<CveRowView>, package: Seq<char>)
    requires
        distinct_ids(rows),
        batch.len() > 0,
        cve_matches(batch.last().record, package),
    ensures
        match_rows(upsert_all(rows, batch), package).contains(batch.last()),
        query_rows(upsert_all(rows, batch), package) is Ok ==> query_rows(
            upsert_all(rows, batch),
            package,
        )->Ok_0.contains(cve_domain(batch.last().record)->Ok_0),
{
    lemma_upsert_all_distinct(rows, batch.drop_last());
    lemma_upsert_searched(
        upsert_all(rows, batch.drop_last()),
        batch.last().id,
        batch.last().record,
        package,
    );
    assert(CveRowView { id: batch.last().id, record: batch.last().record } == batch.last());
    let mrows = match_rows(upsert_all(rows, batch), package);
    if parse_rows(mrows) is Ok {
        lemma_parse_rows_ok(mrows);
        let w = choose|w: int| 0 <= w < mrows.len() && #[trigger] mrows[w] == batch.last();
        assert(ok_views(mrows)[w] == cve_domain(batch.last().record)->Ok_0);
        assert(parse_rows(mrows)->Ok_0.contains(cve_domain(batch.last().record)->Ok_0));
    }
}

/// After a batch save the stored ids are the old ids joined with the
/// batch's ids, still distinct.
pub proof fn lemma_saved_ids(rows: Seq<CveRowView>, batch: Seq<CveRowView>)
    requires
        distinct_ids(rows),
    ensures
        distinct_ids(upsert_all(rows, batch)),
        forall|x: Seq<char>|
            row_ids(upsert_all(rows, batch)).contains(x) <==> (row_ids(rows).contains(x)
                || row_ids(batch).contains(x)),
    decreases batch.len(),
{
    if batch.len() == 0 {
        assert forall|x: Seq<char>| !row_ids(batch).contains(x) by {}
    } else {
        lemma_saved_ids(rows, batch.drop_last());
        lemma_upsert_all_distinct(rows, batch.drop_last());
        lemma_upsert_distinct(
            upsert_all(rows, batch.drop_last()),
            batch.last().id,
            batch.last().record,
        );
        assert forall|x: Seq<char>|
            row_ids(batch).contains(x) <==> (row_ids(batch.drop_last()).contains(x) || x
                == batch.last().id) by {
            if row_ids(batch).contains(x) {
                let k = choose|k: int|
                    0 <= k < row_ids(batch).len() && #[trigger] row_ids(batch)[k] == x;
                if k < batch.len() - 1 {
                    assert(row_ids(batch.drop_last())[k] == x);
                }
            }
            if row_ids(batch.drop_last()).contains(x) {
                let k = choose|k: int|
                    0 <= k < row_ids(batch.drop_last()).len() && #[trigger] row_ids(
                        batch.drop_last(),
                    )[k] == x;
                assert(row_ids(batch)[k] == x);
            }
            if x == batch.last().id {
                assert(row_ids(batch)[batch.len() - 1] == x);
            }
        }
    }
}

/// The round trip of ingestion and count: after saving a batch the stored
/// rows number exactly the distinct ids among the old rows and the batch —
/// re-ingesting an existing id, even with a different payload, never
/// changes the count.
pub proof fn lemma_count_after_save(rows: Seq<CveRowView>, batch: Seq<CveRowView>)
    requires
        distinct_ids(rows),
    ensures
        distinct_ids(upsert_all(rows, batch)),
        upsert_all(rows, batch).len() == row_ids(rows).to_set().union(
            row_ids(batch).to_set(),
        ).len(),
{
    broadcast use vstd::seq_lib::group_seq_lib_default, vstd::set::group_set_axioms;

    lemma_saved_ids(rows, batch);
    let out = upsert_all(rows, batch);
    let oids = row_ids(out);
    assert(oids.no_duplicates()) by {
        assert forall|i: int, j: int|
            0 <= i < oids.len() && 0 <= j < oids.len() && i != j implies oids[i] != oids[j] by {
            assert(oids[i] == out[i].id && oids[j] == out[j].id);
            if i < j {
                assert(out[i].id != out[j].id);
            } else {
                assert(out[j].id != out[i].id);
            }
        }
    }
    oids.unique_seq_to_set();
    assert(oids.to_set() =~= row_ids(rows).to_set().union(row_ids(batch).to_set()));
    assert(out.len() == oids.len());
}

/// Mathematical image of one index entry.
pub ghost struct IndexEntryView {
    pub package: Seq<char>,
    pub cve_ids: Seq<Seq<char>>,
}

struct IndexEntry {
    package: String,
    cve_ids: Vec<String>,
}

impl View for IndexEntry {
    type V = IndexEntryView;

    closed spec fn view(&self) -> IndexEntryView {
        IndexEntryView { package: self.package@, cve_ids: str_views(self.cve_ids@) }
    }
}

/// Mathematical image of the store.
pub ghost struct DatabaseView {
    pub rows: Seq<CveRowView>,
    pub index: Seq<IndexEntryView>,
    pub watermark: Option<Seq<char>>,
}

/// The store.
pub struct Database {
    cves: Vec<Cve>,
    index: Vec<IndexEntry>,
    last_mod: Option<String>,
}

impl View for Database {
    type V = DatabaseView;

    closed spec fn view(&self) -> DatabaseView {
        DatabaseView {
            rows: row_views(self.cves@),
            index: self.index@.map(|_i: int, e: IndexEntry| e@),
            watermark: match self.last_mod {
                Some(s) => Some(s@),
                None => None,
            },
        }
    }
}

/// Whether the store's package index lists a package.
pub open spec fn indexed(db: DatabaseView, package: Seq<char>) -> bool {
    exists|p: int| 0 <= p < db.index.len() && (#[trigger] db.index[p]).package == package
}

/// Well-formedness of the store: row ids are distinct, index packages are
/// distinct, and every index entry lists exactly the ids of the rows that
/// concern its package, all of which normalize.
pub open spec fn db_wf(db: DatabaseView) -> bool {
    &&& distinct_ids(db.rows)
    &&& (forall|p: int, q: int|
        0 <= p < q < db.index.len() ==> db.index[p].package != db.index[q].package)
    &&& (forall|p: int|
        0 <= p < db.index.len() ==> (#[trigger] db.index[p]).cve_ids == row_ids(
            match_rows(db.rows, db.index[p].package),
        ))
    &&& (forall|p: int|
        0 <= p < db.index.len() ==> parse_rows(
            match_rows(db.rows, (#[trigger] db.index[p]).package),
        ) is Ok)
}

fn find_row(cves: &Vec<Cve>, id: &str) -> (r: Option<usize>)
    ensures
        match r {
            Some(p) => p < cves@.len() && row_views(cves@)[p as int].id == id@,
            None => forall|p: int|
                0 <= p < cves@.len() ==> row_views(cves@)[p].id != id@,
        },
{
    let mut p: usize = 0;
    while p < cves.len()
        invariant
            p <= cves@.len(),
            forall|q: int| 0 <= q < p ==> row_views(cves@)[q].id != id@,
        decreases cves@.len() - p,
    {
        proof {
            assert(row_views(cves@)[p as int] == cves@[p as int]@);
        }
        if str_eq(cves[p].id.as_str(), id) {
            return Some(p);
        }
        p = p + 1;
    }
    None
}

fn find_entry(index: &Vec<IndexEntry>, key: &str) -> (r: Option<usize>)
    ensures
        match r {
            Some(p) => p < index@.len() && index@[p as int]@.package == key@,
            None => forall|p: int| 0 <= p < index@.len() ==> (#[trigger] index@[p]@).package != key@,
        },
{
    let mut p: usize = 0;
    while p < index.len()
        invariant
            p <= index@.len(),
            forall|q: int| 0 <= q < p ==> (#[trigger] index@[q]@).package != key@,
        decreases index@.len() - p,
    {
        if str_eq(index[p].package.as_str(), key) {
            return Some(p);
        }
        p = p + 1;
    }
    None
}

impl Database {
    /// Well-formedness; every constructor establishes it and every
    /// operation preserves it.
    pub open spec fn wf(&self) -> bool {
        db_wf(self@)
    }

    /// Opens an empty store.
    pub fn new() -> (r: Database)
        ensures
            r.wf(),
            r@.rows.len() == 0,
            r@.index.len() == 0,
            r@.watermark is None,
    {
        Database { cves: Vec::new(), index: Vec::new(), last_mod: None }
    }

    /// Count of stored records; ids are distinct, so this is the number of
    /// distinct ids ever ingested.
    pub fn cve_count(&self) -> (r: usize)
        ensures
            r == self@.rows.len(),
    {
        self.cves.len()
    }

    /// Whether a package has an index entry (a cache hit for `search`).
    pub fn in_cache(&self, package: &str) -> (r: bool)
        ensures
            r == indexed(self@, lower_seq(package@)),
    {
        let key = lower(package);
        match find_entry(&self.index, key.as_str()) {
            Some(p) => {
                proof {
                    assert(self@.index[p as int].package == lower_seq(package@));
                }
                true
            },
            None => {
                proof {
                    assert forall|p: int| 0 <= p < self@.index.len() implies (
                    #[trigger] self@.index[p]).package != lower_seq(package@) by {
                        assert(self@.index[p] == self.index@[p]@);
                    }
                }
                false
            },
        }
    }

    /// Upserts one record, filed under `id` whatever the record's own id
    /// field holds, and clears the whole package index, in one step.
    pub fn save_cve(&mut self, id: &str, record: CveVulnerability)
        requires
            old(self).wf(),
        ensures
            final(self).wf(),
            final(self)@.rows == upsert_rows(old(self)@.rows, id@, record@),
            final(self)@.index.len() == 0,
            final(self)@.watermark == old(self)@.watermark,
    {
        proof {
            lemma_upsert_distinct(self@.rows, id@, record@);
        }
        self.index.clear();
        match find_row(&self.cves, id) {
            Some(p) => {
                let ghost r0 = row_views(self.cves@);
                self.cves.set(p, Cve { id: String::from_str(id), record });
                proof {
                    let w = choose|w: int| 0 <= w < r0.len() && (#[trigger] r0[w]).id == id@;
                    if w != p {
                        assert(r0[if w < p {
                            w
                        } else {
                            p as int
                        }].id == r0[if w < p {
                            p as int
                        } else {
                            w
                        }].id);
                    }
                    assert(row_views(self.cves@) =~= r0.update(
                        p as int,
                        CveRowView { id: id@, record: record@ },
                    ));
                }
            },
            None => {
                let ghost r0 = row_views(self.cves@);
                self.cves.push(Cve { id: String::from_str(id), record });
                proof {
                    assert(row_views(self.cves@) =~= r0.push(
                        CveRowView { id: id@, record: record@ },
                    ));
                }
            },
        }
        proof {
            assert(self@.index =~= Seq::<IndexEntryView>::empty());
        }
    }

    /// Upserts a whole batch by id, then clears the package index: one
    /// atomic write as the cache protocol asks.
    pub fn save_cves(&mut self, cves: Vec<Cve>)
        requires
            old(self).wf(),
        ensures
            final(self).wf(),
            final(self)@.rows == upsert_all(old(self)@.rows, row_views(cves@)),
            final(self)@.index.len() == 0,
            final(self)@.watermark == old(self)@.watermark,
    {
        let ghost orig = self@.rows;
        let ghost batch = row_views(cves@);
        let n = cves.len();
        let mut rest = cves;
        let mut i: usize = 0;
        proof {
            assert(batch.take(0) =~= Seq::<CveRowView>::empty());
            assert(batch.skip(0) =~= batch);
        }
        self.index.clear();
        proof {
            assert(self@.index =~= Seq::<IndexEntryView>::empty());
        }
        while rest.len() > 0
            invariant
                self.wf(),
                i + rest@.len() == n,
                i <= n,
                batch.len() == n,
                row_views(rest@) == batch.skip(i as int),
                self@.rows == upsert_all(orig, batch.take(i as int)),
                self@.index.len() == 0,
                self@.watermark == old(self)@.watermark,
            decreases rest@.len(),
        {
            let ghost rest0 = rest@;
            let cve = rest.remove(0);
            proof {
                assert(row_views(rest@) =~= row_views(rest0).drop_first());
                assert(batch.skip(i as int).drop_first() =~= batch.skip(i + 1));
                assert(cve@ == row_views(rest0)[0]);
                assert(batch.take(i + 1).drop_last() =~= batch.take(i as int));
                assert(batch.take(i + 1).last() == batch[i as int]);
            }
            self.save_cve_keep_index(cve);
            i = i + 1;
        }
        proof {
            assert(batch.take(n as int) =~= batch);
        }
    }

    /// Upserts one row of a batch; the index is already clear and stays so.
    fn save_cve_keep_index(&mut self, cve: Cve)
        requires
            old(self).wf(),
            old(self)@.index.len() == 0,
        ensures
            final(self).wf(),
            final(self)@.rows == upsert_rows(old(self)@.rows, cve@.id, cve@.record),
            final(self)@.index.len() == 0,
            final(self)@.watermark == old(self)@.watermark,
    {
        proof {
            lemma_upsert_distinct(self@.rows, cve@.id, cve@.record);
        }
        let Cve { id, record } = cve;
        match find_row(&self.cves, id.as_str()) {
            Some(p) => {
                let ghost r0 = row_views(self.cves@);
                self.cves.set(p, Cve { id, record });
                proof {
                    let w = choose|w: int| 0 <= w < r0.len() && (#[trigger] r0[w]).id == id@;
                    if w != p {
                        assert(r0[if w < p {
                            w
                        } else {
                            p as int
                        }].id == r0[if w < p {
                            p as int
                        } else {
                            w
                        }].id);
                    }
                    assert(row_views(self.cves@) =~= r0.update(
                        p as int,
                        CveRowView { id: id@, record: record@ },
                    ));
                }
            },
            None => {
                let ghost r0 = row_views(self.cves@);
                self.cves.push(Cve { id, record });
                proof {
                    assert(row_views(self.cves@) =~= r0.push(
                        CveRowView { id: id@, record: record@ },
                    ));
                }
            },
        }
    }

    fn serve_from_entry(&self, e: usize) -> (r: Vec<Vulnerability>)
        requires
            self.wf(),
            e < self@.index.len(),
        ensures
            vuln_views(r@) == parse_rows(match_rows(self@.rows, self@.index[e as int].package))
                ->Ok_0,
    {
        let ghost pkg = self@.index[e as int].package;
        let ghost mrows = match_rows(self@.rows, pkg);
        let entry = &self.index[e];
        let mut out: Vec<Vulnerability> = Vec::new();
        let mut k: usize = 0;
        proof {
            lemma_parse_rows_ok(mrows);
            assert(entry@ == self@.index[e as int]);
            assert(entry@.cve_ids == row_ids(mrows));
            assert(entry@.cve_ids == str_views(entry.cve_ids@));
            assert(entry.cve_ids@.len() == str_views(entry.cve_ids@).len());
            assert(row_ids(mrows).len() == mrows.len());
            assert(vuln_views(out@) =~= ok_views(mrows).take(0));
        }
        while k < entry.cve_ids.len()
            invariant
                self.wf(),
                e < self@.index.len(),
                pkg == self@.index[e as int].package,
                mrows == match_rows(self@.rows, pkg),
                parse_rows(mrows) is Ok,
                entry@ == self@.index[e as int],
                entry.cve_ids@.len() == mrows.len(),
                k <= mrows.len(),
                vuln_views(out@) == ok_views(mrows).take(k as int),
            decreases mrows.len() - k,
        {
            proof {
                lemma_parse_rows_ok(mrows);
                lemma_match_rows_sub(self@.rows, pkg);
                assert(str_views(entry.cve_ids@)[k as int] == entry.cve_ids@[k as int]@);
                assert(entry@.cve_ids[k as int] == row_ids(mrows)[k as int]);
                assert(row_ids(mrows)[k as int] == mrows[k as int].id);
            }
            let idk = &entry.cve_ids[k];
            match find_row(&self.cves, idk.as_str()) {
                Some(p) => {
                    proof {
                        assert(self@.rows.contains(mrows[k as int]));
                        let w = choose|w: int|
                            0 <= w < self@.rows.len() && #[trigger] self@.rows[w]
                                == mrows[k as int];
                        if w != p {
                            assert(self@.rows[if w < p {
                                w
                            } else {
                                p as int
                            }].id == self@.rows[if w < p {
                                p as int
                            } else {
                                w
                            }].id);
                        }
                        assert(row_views(self.cves@)[p as int] == mrows[k as int]);
                    }
                    match self.cves[p].record.to_domain() {
                        Ok(v) => {
                            let ghost o0 = out@;
                            out.push(v);
                            proof {
                                assert(out@.drop_last() =~= o0);
                                assert(ok_views(mrows).take(k + 1).drop_last() =~= ok_views(
                                    mrows,
                                ).take(k as int));
                                assert(ok_views(mrows).take(k + 1).last() == ok_views(
                                    mrows,
                                )[k as int]);
                                assert(vuln_views(out@) =~= vuln_views(out@.drop_last()).push(v@));
                                assert(vuln_views(out@) =~= ok_views(mrows).take(k + 1));
                            }
                        },
                        Err(_e) => {
                            // unreachable: the index only lists rows whose
                            // parse succeeds
                            proof {
                                assert(cve_domain(mrows[k as int].record) is Ok);
                                assert(false);
                            }
                            return out;
                        },
                    }
                },
                None => {
                    // unreachable: every id the index lists belongs to a
                    // stored row
                    proof {
                        assert(self@.rows.contains(mrows[k as int]));
                        let w = choose|w: int|
                            0 <= w < self@.rows.len() && #[trigger] self@.rows[w]
                                == mrows[k as int];
                        assert(row_views(self.cves@)[w].id == idk@);
                        assert(false);
                    }
                    return out;
                },
            }
            k = k + 1;
        }
        proof {
            assert(ok_views(mrows).take(mrows.len() as int) =~= ok_views(mrows));
        }
        out
    }

    /// Queries the store for a package's records. An indexed package is
    /// served from its entry; an unindexed one takes a full scan, whose
    /// hits are then indexed for exactly this package. Either way the
    /// result is the domain parse of the rows that concern the package; a
    /// stored record that fails to normalize fails the search and leaves
    /// the store unchanged.
    pub fn search(&mut self, package: &str) -> (r: Result<Vec<Vulnerability>, CveError>)
        requires
            old(self).wf(),
        ensures
            final(self).wf(),
            final(self)@.rows == old(self)@.rows,
            final(self)@.watermark == old(self)@.watermark,
            old(self)@.index.len() <= final(self)@.index.len(),
            forall|p: int|
                0 <= p < old(self)@.index.len() ==> final(self)@.index[p] == old(
                    self,
                )@.index[p],
            match query_rows(old(self)@.rows, package@) {
                Ok(vs) => (r matches Ok(out) && vuln_views(out@) == vs && indexed(
                    final(self)@,
                    lower_seq(package@),
                )),
                Err(e) => (r matches Err(x) && x@ == e && final(self)@.index == old(
                    self,
                )@.index),
            },
    {
        let key = lower(package);
        proof {
            lemma_match_rows_lower(self@.rows, package@);
        }
        match find_entry(&self.index, key.as_str()) {
            Some(e) => {
                proof {
                    assert(self@.index[e as int] == self.index@[e as int]@);
                    assert(self@.index[e as int].package == lower_seq(package@));
                    assert(match_rows(self@.rows, self@.index[e as int].package) == match_rows(
                        self@.rows,
                        package@,
                    ));
                }
                let out = self.serve_from_entry(e);
                proof {
                    assert(parse_rows(match_rows(self@.rows, package@)) is Ok);
                    assert(indexed(self@, lower_seq(package@)));
                }
                Ok(out)
            },
            None => {
                proof {
                    assert forall|p: int| 0 <= p < self@.index.len() implies (
                    #[trigger] self@.index[p]).package != lower_seq(package@) by {
                        assert(self@.index[p] == self.index@[p]@);
                    }
                }
                self.search_scan(package, key)
            },
        }
    }

    /// The scan half of a search: collects the rows that concern the
    /// package, parses them, and on full success indexes the package.
    fn search_scan(&mut self, package: &str, key: String) -> (r: Result<
        Vec<Vulnerability>,
        CveError,
    >)
        requires
            old(self).wf(),
            key@ == lower_seq(package@),
            !indexed(old(self)@, lower_seq(package@)),
        ensures
            final(self).wf(),
            final(self)@.rows == old(self)@.rows,
            final(self)@.watermark == old(self)@.watermark,
            old(self)@.index.len() <= final(self)@.index.len(),
            forall|p: int|
                0 <= p < old(self)@.index.len() ==> final(self)@.index[p] == old(
                    self,
                )@.index[p],
            match query_rows(old(self)@.rows, package@) {
                Ok(vs) => (r matches Ok(out) && vuln_views(out@) == vs && indexed(
                    final(self)@,
                    lower_seq(package@),
                )),
                Err(e) => (r matches Err(x) && x@ == e && final(self)@.index == old(
                    self,
                )@.index),
            },
    {
        let ghost rows = self@.rows;
        let ghost mrows = match_rows(rows, package@);
        let mut hits: Vec<usize> = Vec::new();
        let mut i: usize = 0;
        proof {
            reveal(Seq::filter);
            assert(rows.take(0) =~= Seq::<CveRowView>::empty());
            assert(rows_at(rows, hits@) =~= match_rows(rows.take(0), package@));
        }
        while i < self.cves.len()
            invariant
                self@ == old(self)@,
                self.wf(),
                rows == row_views(self.cves@),
                i <= rows.len(),
                rows.len() == self.cves@.len(),
                forall|t: int| 0 <= t < hits@.len() ==> (#[trigger] hits@[t]) < i,
                rows_at(rows, hits@) == match_rows(rows.take(i as int), package@),
            decreases rows.len() - i,
        {
            proof {
                reveal(Seq::filter);
                assert(rows.take(i + 1).drop_last() =~= rows.take(i as int));
                assert(rows.take(i + 1).last() == rows[i as int]);
                assert(rows[i as int] == self.cves@[i as int]@);
            }
            if self.cves[i].record.matches(package) {
                let ghost h0 = hits@;
                hits.push(i);
                proof {
                    assert(rows_at(rows, hits@) =~= rows_at(rows, h0).push(rows[i as int]));
                }
            }
            i = i + 1;
        }
        proof {
            assert(rows.take(rows.len() as int) =~= rows);
        }
        let mut out: Vec<Vulnerability> = Vec::new();
        let mut ids: Vec<String> = Vec::new();
        let mut k: usize = 0;
        proof {
            assert(vuln_views(out@) =~= ok_views(mrows.take(0)));
            assert(str_views(ids@) =~= row_ids(mrows.take(0)));
        }
        while k < hits.len()
            invariant
                self@ == old(self)@,
                self.wf(),
                rows == row_views(self.cves@),
                mrows == match_rows(rows, package@),
                rows_at(rows, hits@) == mrows,
                forall|t: int| 0 <= t < hits@.len() ==> (#[trigger] hits@[t]) < rows.len(),
                k <= hits@.len(),
                hits@.len() == mrows.len(),
                forall|j: int| 0 <= j < k ==> cve_domain((#[trigger] mrows[j]).record) is Ok,
                vuln_views(out@) == ok_views(mrows.take(k as int)),
                str_views(ids@) == row_ids(mrows.take(k as int)),
            decreases hits@.len() - k,
        {
            let p = hits[k];
            proof {
                assert(mrows[k as int] == rows_at(rows, hits@)[k as int]);
                assert(mrows[k as int] == rows[hits@[k as int] as int]);
                assert(rows[p as int] == self.cves@[p as int]@);
                assert(mrows.take(k + 1).drop_last() =~= mrows.take(k as int));
                assert(mrows.take(k + 1).last() == mrows[k as int]);
            }
            match self.cves[p].record.to_domain() {
                Ok(v) => {
                    let idp = self.cves[p].id.clone();
                    let ghost o0 = out@;
                    let ghost d0 = ids@;
                    out.push(v);
                    ids.push(idp);
                    proof {
                        assert(out@.drop_last() =~= o0);
                        assert(ids@.drop_last() =~= d0);
                        assert(vuln_views(out@) =~= vuln_views(o0).push(v@));
                        assert(ok_views(mrows.take(k + 1)).drop_last() =~= ok_views(
                            mrows.take(k as int),
                        ));
                        assert(ok_views(mrows.take(k + 1)).last() == cve_domain(
                            mrows[k as int].record,
                        )->Ok_0);
                        assert(vuln_views(out@) =~= ok_views(mrows.take(k + 1)));
                        assert(str_views(ids@) =~= str_views(d0).push(ids@.last()@));
                        assert(row_ids(mrows.take(k + 1)).drop_last() =~= row_ids(
                            mrows.take(k as int),
                        ));
                        assert(row_ids(mrows.take(k + 1)).last() == mrows[k as int].id);
                        assert(str_views(ids@) =~= row_ids(mrows.take(k + 1)));
                    }
                },
                Err(err) => {
                    proof {
                        lemma_parse_rows_first_err(mrows, k as int, err@);
                    }
                    return Err(err);
                },
            }
            k = k + 1;
        }
        proof {
            assert(mrows.take(mrows.len() as int) =~= mrows);
            lemma_parse_rows_all_ok(mrows);
        }
        let ghost i0 = self@.index;
        self.index.push(IndexEntry { package: key, cve_ids: ids });
        proof {
            lemma_match_rows_lower(rows, package@);
            assert(self@.index =~= i0.push(
                IndexEntryView { package: key@, cve_ids: str_views(ids@) },
            ));
            assert forall|p: int, q: int|
                0 <= p < q < self@.index.len() implies self@.index[p].package
                != self@.index[q].package by {
                if q < i0.len() {
                    assert(self@.index[p] == i0[p] && self@.index[q] == i0[q]);
                } else {
                    assert(self@.index[p] == i0[p]);
                    assert(self@.index[q].package == key@);
                    if i0[p].package == key@ {
                        assert(old(self)@.index[p].package == lower_seq(package@));
                        assert(indexed(old(self)@, lower_seq(package@)));
                    }
                }
            }
            assert forall|p: int| 0 <= p < self@.index.len() implies (
            #[trigger] self@.index[p]).cve_ids == row_ids(
                match_rows(self@.rows, self@.index[p].package),
            ) && parse_rows(match_rows(self@.rows, self@.index[p].package)) is Ok by {
                if p < i0.len() {
                    assert(self@.index[p] == i0[p]);
                } else {
                    assert(self@.index[p].package == lower_seq(package@));
                    assert(match_rows(self@.rows, self@.index[p].package) == mrows);
                }
            }
            assert(indexed(self@, lower_seq(package@))) by {
                assert(self@.index[i0.len() as int].package == lower_seq(package@));
            }
        }
        Ok(out)
    }

    /// Records the ingestion watermark.
    pub fn save_last_mod_date(&mut self, date: &str)
        requires
            old(self).wf(),
        ensures
            final(self).wf(),
            final(self)@.rows == old(self)@.rows,
            final(self)@.index == old(self)@.index,
            final(self)@.watermark == Some(date@),
    {
        self.last_mod = Some(String::from_str(date));
    }

    /// The ingestion watermark, if one was ever recorded.
    pub fn last_mod_date(&self) -> (r: Option<&String>)
        ensures
            match self@.watermark {
                Some(w) => (r matches Some(s) && s@ == w),
                None => r is None,
            },
    {
        match &self.last_mod {
            Some(s) => Some(s),
            None => None,
        }
    }
}

} // verus!
