//! The decisions of the rewrite benchmark: which runs a configuration
//! allows, how the timings of one query add up, how the rows of a report
//! are ordered, and which equivalent query is best.

use vstd::prelude::*;
use vstd::string::StrSliceExecFns;
use crate::optimizer::{query_eq, same_query};
use rsonpath_syntax::JsonPathQuery;

verus! {

/// What to benchmark: a query, the schema its rewrites are checked against
/// (unless `no_schema`), the document, and how many timed and warm-up runs.
#[derive(Debug)]
pub struct RewriteBenchmarkConfig {
    pub query: String,
    pub schema_file: Option<String>,
    pub no_schema: bool,
    pub document_file: String,
    pub iterations: usize,
    pub warmup: usize,
}

/// The measurements of one query.
#[derive(Clone, Debug)]
pub struct BenchmarkRow {
    pub query: String,
    pub role: &'static str,
    pub query_len: usize,
    pub match_count: usize,
    pub matches_baseline: bool,
    pub compile_ns: u128,
    pub exec_mean_ns: u128,
    pub exec_min_ns: u128,
    pub exec_max_ns: u128,
}

/// The rows of a benchmark and how many rewrites were generated.
#[derive(Debug, Clone)]
pub struct RewriteBenchmarkReport {
    pub rows: Vec<BenchmarkRow>,
    pub generated_candidates: usize,
}

/// Why a configuration cannot be run.
pub enum ConfigProblem {
    /// No timed run was asked for.
    ZeroIterations,
    /// A schema file is needed unless `no_schema` is set.
    MissingSchema,
}

/// Checks a configuration before any work: there must be timed runs, and a
/// schema file unless `no_schema` is set.
pub fn check_config(config: &RewriteBenchmarkConfig) -> (r: Option<ConfigProblem>)
    ensures
        r matches Some(ConfigProblem::ZeroIterations) <==> config.iterations == 0,
        r matches Some(ConfigProblem::MissingSchema) <==> config.iterations != 0 && !config.no_schema && config.schema_file is None,
        r is None <==> config.iterations != 0 && (config.no_schema || config.schema_file is Some),
{
    if config.iterations == 0 {
        return Some(ConfigProblem::ZeroIterations);
    }
    if !config.no_schema && config.schema_file.is_none() {
        return Some(ConfigProblem::MissingSchema);
    }
    None
}

/// A benchmark of one given query against a baseline query on a document.
#[derive(Debug)]
pub struct FixedQueryBenchmarkConfig {
    pub baseline_query: String,
    pub query: String,
    pub role: &'static str,
    pub document_file: String,
    pub iterations: usize,
    pub warmup: usize,
}

/// Checks a fixed-query configuration before any work: there must be timed runs.
pub fn check_fixed_config(config: &FixedQueryBenchmarkConfig) -> (r: Option<ConfigProblem>)
    ensures
        r matches Some(ConfigProblem::ZeroIterations) <==> config.iterations == 0,
        r is None <==> config.iterations != 0,
{
    if config.iterations == 0 {
        Some(ConfigProblem::ZeroIterations)
    } else {
        None
    }
}

/// Whether the number of matches that a counting run reports agrees with the
/// number of match positions: the count must fit in `usize` and be equal.
pub fn counts_agree(count: u64, indices: usize) -> (r: bool)
    ensures
        r == (count == indices),
{
    (count as u128) == (indices as u128)
}

/// Whether a run's match positions agree with the baseline's: always when
/// there is no baseline to compare with, else when both list the same
/// positions in the same order.
pub fn matches_baseline(expected: Option<&[usize]>, indices: &[usize]) -> (r: bool)
    ensures
        r == match expected {
            None => true,
            Some(e) => e@ == indices@,
        },
{
    match expected {
        None => true,
        Some(e) => {
            if e.len() != indices.len() {
                return false;
            }
            let mut i: usize = 0;
            while i < e.len()
                invariant
                    expected == Some(e),
                    e@.len() == indices@.len(),
                    i <= e@.len(),
                    forall|k: int| 0 <= k < i ==> e@[k] == indices@[k],
                decreases e@.len() - i,
            {
                if e[i] != indices[i] {
                    proof {
                        assert(e@ != indices@) by {
                            if e@ == indices@ {
                                assert(e@[i as int] == indices@[i as int]);
                            }
                        }
                    }
                    return false;
                }
                i += 1;
            }
            proof {
                assert(e@ =~= indices@);
            }
            true
        },
    }
}

/// The positions of the candidates that are benchmarked besides the
/// baseline: those that do not compare equal to the baseline query, in
/// their order.
pub fn candidates_besides_baseline(candidates: &[JsonPathQuery], baseline: &JsonPathQuery) -> (r: Vec<usize>)
    ensures
        forall|k: int| 0 <= k < r@.len() ==> (#[trigger] r@[k]) < candidates@.len() && !query_eq(candidates@[r@[k] as int], *baseline),
        forall|k1: int, k2: int| 0 <= k1 < k2 < r@.len() ==> (#[trigger] r@[k1]) < (#[trigger] r@[k2]),
        forall|i: int| 0 <= i < candidates@.len() && !query_eq(#[trigger] candidates@[i], *baseline)
            ==> exists|k: int| 0 <= k < r@.len() && r@[k] == i,
{
    let mut r: Vec<usize> = Vec::new();
    let mut i: usize = 0;
    while i < candidates.len()
        invariant
            i <= candidates@.len(),
            forall|k: int| 0 <= k < r@.len() ==> (#[trigger] r@[k]) < i && !query_eq(candidates@[r@[k] as int], *baseline),
            forall|k1: int, k2: int| 0 <= k1 < k2 < r@.len() ==> (#[trigger] r@[k1]) < (#[trigger] r@[k2]),
            forall|m: int| 0 <= m < i && !query_eq(#[trigger] candidates@[m], *baseline)
                ==> exists|k: int| 0 <= k < r@.len() && r@[k] == m,
        decreases candidates@.len() - i,
    {
        if !same_query(&candidates[i], baseline) {
            let ghost before = r@;
            r.push(i);
            proof {
                assert forall|m: int| 0 <= m < i + 1 && !query_eq(#[trigger] candidates@[m], *baseline)
                    implies exists|k: int| 0 <= k < r@.len() && r@[k] == m by {
                    if m < i {
                        let k0 = choose|k: int| 0 <= k < before.len() && before[k] == m;
                        assert(r@[k0] == before[k0]);
                    } else {
                        assert(r@[r@.len() - 1] == m);
                    }
                }
            }
        }
        i += 1;
    }
    r
}

/// The timings of the runs of one query so far.
pub struct RunTimings {
    pub total_ns: u128,
    pub min_ns: u128,
    pub max_ns: u128,
}

/// The sum of the timings.
pub open spec fn sum_ns(samples: Seq<u128>) -> int
    decreases samples.len(),
{
    if samples.len() == 0 {
        0
    } else {
        sum_ns(samples.drop_last()) + samples.last()
    }
}

impl RunTimings {
    /// No run yet: total 0, minimum `u128::MAX`, maximum 0.
    pub fn new() -> (r: Self)
        ensures
            r.total_ns == 0,
            r.min_ns == u128::MAX,
            r.max_ns == 0,
    {
        Self { total_ns: 0, min_ns: u128::MAX, max_ns: 0 }
    }

    /// Adds a run that took `elapsed_ns`.
    pub fn record(&mut self, elapsed_ns: u128)
        requires
            old(self).total_ns + elapsed_ns <= u128::MAX,
        ensures
            final(self).total_ns == old(self).total_ns + elapsed_ns,
            final(self).min_ns == if elapsed_ns < old(self).min_ns { elapsed_ns } else { old(self).min_ns },
            final(self).max_ns == if elapsed_ns > old(self).max_ns { elapsed_ns } else { old(self).max_ns },
    {
        self.total_ns = self.total_ns + elapsed_ns;
        if elapsed_ns < self.min_ns {
            self.min_ns = elapsed_ns;
        }
        if elapsed_ns > self.max_ns {
            self.max_ns = elapsed_ns;
        }
    }

    /// The mean time of `iterations` runs, rounded down.
    pub fn mean_ns(&self, iterations: usize) -> (r: u128)
        requires
            iterations > 0,
        ensures
            r == self.total_ns / (iterations as u128),
    {
        self.total_ns / (iterations as u128)
    }
}

/// Whether the row is that of the query that was asked for.
pub open spec fn is_original(row: BenchmarkRow) -> bool {
    row.role@ == "original"@
}

/// Whether two texts are equal.
fn same_text(a: &str, b: &str) -> (r: bool)
    ensures
        r == (a@ == b@),
{
    let n = a.unicode_len();
    if n != b.unicode_len() {
        return false;
    }
    let mut i: usize = 0;
    while i < n
        invariant
            n == a@.len(),
            n == b@.len(),
            i <= n,
            forall|j: int| 0 <= j < i ==> a@[j] == b@[j],
        decreases n - i,
    {
        if a.get_char(i) != b.get_char(i) {
            return false;
        }
        i += 1;
    }
    proof {
        assert(a@ =~= b@);
    }
    true
}

/// A copy of a row.
fn copy_row(row: &BenchmarkRow) -> (r: BenchmarkRow)
    ensures
        r == *row,
{
    BenchmarkRow {
        query: row.query.clone(),
        role: row.role,
        query_len: row.query_len,
        match_count: row.match_count,
        matches_baseline: row.matches_baseline,
        compile_ns: row.compile_ns,
        exec_mean_ns: row.exec_mean_ns,
        exec_min_ns: row.exec_min_ns,
        exec_max_ns: row.exec_max_ns,
    }
}

/// The rows whose mean time is `k`, in order.
pub open spec fn with_mean(rows: Seq<BenchmarkRow>, k: u128) -> Seq<BenchmarkRow> {
    rows.filter(|r: BenchmarkRow| r.exec_mean_ns == k)
}

/// Rows by increasing mean time.
pub open spec fn by_mean(rows: Seq<BenchmarkRow>) -> bool {
    forall|i: int, j: int| 0 <= i < j < rows.len() ==> (#[trigger] rows[i]).exec_mean_ns <= (#[trigger] rows[j]).exec_mean_ns
}

/// The rows of the query asked for, then the others.
pub open spec fn originals(rows: Seq<BenchmarkRow>) -> Seq<BenchmarkRow> {
    rows.filter(|r: BenchmarkRow| is_original(r))
}

/// The rows of the rewrites.
pub open spec fn rewrites(rows: Seq<BenchmarkRow>) -> Seq<BenchmarkRow> {
    rows.filter(|r: BenchmarkRow| !is_original(r))
}

proof fn lemma_filter_push(s: Seq<BenchmarkRow>, x: BenchmarkRow, pred: spec_fn(BenchmarkRow) -> bool)
    ensures
        s.push(x).filter(pred) == if pred(x) { s.filter(pred).push(x) } else { s.filter(pred) },
{
    reveal(Seq::filter);
    assert(s.push(x).drop_last() =~= s);
}

proof fn lemma_filter_none(s: Seq<BenchmarkRow>, pred: spec_fn(BenchmarkRow) -> bool)
    requires
        forall|i: int| 0 <= i < s.len() ==> !pred(#[trigger] s[i]),
    ensures
        s.filter(pred) == Seq::<BenchmarkRow>::empty(),
    decreases s.len(),
{
    reveal(Seq::filter);
    if s.len() > 0 {
        lemma_filter_none(s.drop_last(), pred);
    }
}

/// Inserts `row` after every row whose mean time is not larger: the rows
/// stay ordered by mean time, and rows of equal time keep their order.
fn insert_by_mean(rows: &mut Vec<BenchmarkRow>, row: BenchmarkRow)
    requires
        by_mean(old(rows)@),
    ensures
        by_mean(final(rows)@),
        forall|k: u128| #[trigger] with_mean(final(rows)@, k) == with_mean(old(rows)@.push(row), k),
{
    let mut p: usize = 0;
    while p < rows.len() && rows[p].exec_mean_ns <= row.exec_mean_ns
        invariant
            p <= rows@.len(),
            rows@ == old(rows)@,
            forall|i: int| 0 <= i < p ==> (#[trigger] rows@[i]).exec_mean_ns <= row.exec_mean_ns,
        decreases rows@.len() - p,
    {
        p += 1;
    }
    let ghost before = rows@;
    proof {
        assert forall|i: int| p <= i < before.len() implies (#[trigger] before[i]).exec_mean_ns > row.exec_mean_ns by {
            assert(before[p as int].exec_mean_ns > row.exec_mean_ns);
            if i > p {
                assert(before[p as int].exec_mean_ns <= before[i].exec_mean_ns);
            }
        }
    }
    rows.insert(p, row);
    proof {
        let after = rows@;
        let head = before.take(p as int);
        let tail = before.skip(p as int);
        assert(before =~= head + tail);
        assert(after =~= head.push(row) + tail);
        assert forall|i: int, j: int| 0 <= i < j < after.len() implies (#[trigger] after[i]).exec_mean_ns <= (#[trigger] after[j]).exec_mean_ns by {
            if j < p {
                assert(after[i] == before[i] && after[j] == before[j]);
            } else if j == p {
                assert(after[i] == before[i]);
            } else if i < p {
                assert(after[i] == before[i] && after[j] == before[j - 1]);
            } else if i == p {
                assert(after[j] == before[j - 1]);
            } else {
                assert(after[i] == before[i - 1] && after[j] == before[j - 1]);
            }
        }
        assert forall|k: u128| #[trigger] with_mean(after, k) == with_mean(before.push(row), k) by {
            let pred = |r: BenchmarkRow| r.exec_mean_ns == k;
            Seq::filter_distributes_over_add(head.push(row), tail, pred);
            Seq::filter_distributes_over_add(head, tail, pred);
            lemma_filter_push(head, row, pred);
            lemma_filter_push(before, row, pred);
            if row.exec_mean_ns == k {
                assert forall|i: int| 0 <= i < tail.len() implies !pred(#[trigger] tail[i]) by {
                    assert(tail[i] == before[p + i]);
                }
                lemma_filter_none(tail, pred);
                assert(head.filter(pred) + tail.filter(pred) =~= head.filter(pred));
                assert(head.filter(pred).push(row) + tail.filter(pred) =~= head.filter(pred).push(row));
            }
        }
    }
}

/// The rows of a report: the rows of the query asked for, in order, then
/// the rewrites by increasing mean time, rows of equal time in order.
pub fn order_report_rows(rows: Vec<BenchmarkRow>) -> (r: Vec<BenchmarkRow>)
    ensures
        r@ == originals(rows@) + r@.skip(originals(rows@).len() as int),
        by_mean(r@.skip(originals(rows@).len() as int)),
        forall|k: u128| #[trigger] with_mean(r@.skip(originals(rows@).len() as int), k) == with_mean(rewrites(rows@), k),
{
    let mut baseline: Vec<BenchmarkRow> = Vec::new();
    let mut sorted: Vec<BenchmarkRow> = Vec::new();
    let mut i: usize = 0;
    let ghost orig_pred = |r: BenchmarkRow| is_original(r);
    let ghost rew_pred = |r: BenchmarkRow| !is_original(r);
    proof {
        reveal(Seq::filter);
        assert(rows@.take(0) =~= Seq::<BenchmarkRow>::empty());
    }
    while i < rows.len()
        invariant
            i <= rows@.len(),
            baseline@ == rows@.take(i as int).filter(orig_pred),
            by_mean(sorted@),
            forall|k: u128| #[trigger] with_mean(sorted@, k) == with_mean(rows@.take(i as int).filter(rew_pred), k),
            orig_pred == (|r: BenchmarkRow| is_original(r)),
            rew_pred == (|r: BenchmarkRow| !is_original(r)),
        decreases rows@.len() - i,
    {
                proof {
            assert(rows@.take(i + 1) =~= rows@.take(i as int).push(rows@[i as int]));
            lemma_filter_push(rows@.take(i as int), rows@[i as int], orig_pred);
            lemma_filter_push(rows@.take(i as int), rows@[i as int], rew_pred);
        }
        let ghost rv = rows@[i as int];
        if same_text(rows[i].role, "original") {
            proof {
                reveal_strlit("original");
            }
            baseline.push(copy_row(&rows[i]));
            proof {
                assert(baseline@.last() == rv);
            }
        } else {
            let ghost before = sorted@;
            insert_by_mean(&mut sorted, copy_row(&rows[i]));
            proof {
                assert(!is_original(rv));
                assert(rew_pred(rv));
                assert(rows@.take(i + 1).filter(rew_pred) == rows@.take(i as int).filter(rew_pred).push(rv));
                assert forall|k: u128| #[trigger] with_mean(sorted@, k) == with_mean(rows@.take(i + 1).filter(rew_pred), k) by {
                    let pred = |r: BenchmarkRow| r.exec_mean_ns == k;
                    lemma_filter_push(before, rv, pred);
                    lemma_filter_push(rows@.take(i as int).filter(rew_pred), rv, pred);
                    assert(with_mean(sorted@, k) == with_mean(before.push(rv), k));
                    assert(with_mean(before, k) == with_mean(rows@.take(i as int).filter(rew_pred), k));
                }
            }
        }
        i += 1;
    }
    proof {
        assert(rows@.take(rows@.len() as int) =~= rows@);
    }
    let n = baseline.len();
    let mut ordered = baseline;
    let ghost sv = sorted@;
    let mut j: usize = 0;
    while j < sorted.len()
        invariant
            j <= sorted@.len(),
            sv == sorted@,
            ordered@.len() == n + j,
            ordered@.take(n as int) == originals(rows@),
            ordered@.skip(n as int) == sv.take(j as int),
            n == originals(rows@).len(),
        decreases sorted@.len() - j,
    {
        let ghost before = ordered@;
        ordered.push(copy_row(&sorted[j]));
        proof {
            assert(ordered@.take(n as int) =~= before.take(n as int));
            assert(ordered@.skip(n as int) =~= before.skip(n as int).push(sv[j as int]));
            assert(sv.take(j + 1) =~= sv.take(j as int).push(sv[j as int]));
        }
        j += 1;
    }
    proof {
        assert(sv.take(sv.len() as int) =~= sv);
        assert(ordered@ =~= ordered@.take(n as int) + ordered@.skip(n as int));
    }
    ordered
}

/// Row `i` is the best equivalent row: it matches the baseline, no matching
/// row is faster, and every matching row before it is slower.
pub open spec fn is_best(rows: Seq<BenchmarkRow>, i: int) -> bool {
    &&& 0 <= i < rows.len()
    &&& rows[i].matches_baseline
    &&& forall|j: int| 0 <= j < rows.len() && (#[trigger] rows[j]).matches_baseline ==> rows[i].exec_mean_ns <= rows[j].exec_mean_ns
    &&& forall|j: int| 0 <= j < i && (#[trigger] rows[j]).matches_baseline ==> rows[j].exec_mean_ns > rows[i].exec_mean_ns
}

/// The fastest row that matches the baseline, the first of equally fast
/// ones; `None` when no row matches.
pub fn best_equivalent_row(report: &RewriteBenchmarkReport) -> (r: Option<&BenchmarkRow>)
    ensures
        r is None <==> forall|j: int| 0 <= j < report.rows@.len() ==> !(#[trigger] report.rows@[j]).matches_baseline,
        r matches Some(row) ==> exists|i: int| is_best(report.rows@, i) && *row == report.rows@[i],
{
    let rows = &report.rows;
    let mut best: Option<usize> = None;
    let mut i: usize = 0;
    while i < rows.len()
        invariant
            *rows == report.rows,
            i <= rows@.len(),
            best is None ==> forall|j: int| 0 <= j < i ==> !(#[trigger] rows@[j]).matches_baseline,
            best matches Some(b) ==> b < i && is_best(rows@.take(i as int), b as int),
        decreases rows@.len() - i,
    {
        let ghost prefix = rows@.take(i as int);
        let ghost next = rows@.take(i + 1);
        proof {
            assert forall|j: int| 0 <= j < i implies #[trigger] next[j] == prefix[j] by {}
        }
        if rows[i].matches_baseline {
            match best {
                None => {
                    best = Some(i);
                },
                Some(b) => {
                    if rows[i].exec_mean_ns < rows[b].exec_mean_ns {
                        best = Some(i);
                        proof {
                            assert forall|j: int| 0 <= j < i && (#[trigger] next[j]).matches_baseline implies next[j].exec_mean_ns > next[i as int].exec_mean_ns by {
                                assert(prefix[j].exec_mean_ns >= prefix[b as int].exec_mean_ns);
                            }
                        }
                    }
                },
            }
        }
        i += 1;
    }
    proof {
        assert(rows@.take(rows@.len() as int) =~= rows@);
    }
    match best {
        None => None,
        Some(b) => Some(&rows[b]),
    }
}

} // verus!
