use vstd::prelude::*;
use crate::aggregate::{
    AggregateError, Summary, aggregate, before, fits, group, has_product,
    is_aggregate_of, occurs, summary_views,
};
use crate::ingest::{LoadError, all_rows, byte_views, load};
use crate::output::{render, rendered};
use crate::stages::{
    CleanStats, clean, clean_views, cleaned, raw_views, removal_stats, transform, transformed_row,
    transformed_views, TransformedRow,
};

verus! {

/// A failed run: the stage that failed and why.
#[derive(Clone, Copy, Debug, PartialEq, Eq)]
pub enum PipelineError {
    Load(LoadError),
    Aggregate(AggregateError),
}

/// What a successful run reports.
#[derive(Debug)]
pub struct PipelineReport {
    pub raw_count: u64,
    pub cleaned_count: u64,
    pub stats: CleanStats,
    pub product_count: u64,
    pub output: Vec<u8>,
}

/// The transformed rows that the input files give, if they load.
pub open spec fn transformed_input(files: Seq<Seq<u8>>) -> Option<Seq<TransformedRow>> {
    match all_rows(files) {
        Some(rows) => Some(cleaned(rows).map_values(|c| transformed_row(c))),
        None => None,
    }
}

/// `out` is a result file that a run on `files` may write.
pub open spec fn is_output_of(files: Seq<Seq<u8>>, out: Seq<u8>) -> bool {
    &&& transformed_input(files) is Some
    &&& exists|s: Seq<Summary>|
        is_aggregate_of(transformed_input(files).unwrap(), s) && out == rendered(s)
}

/// Runs the five stages on the contents of the input files and returns the
/// result file's bytes with the run's counts.
pub fn run_stages(files: &Vec<Vec<u8>>) -> (r: Result<PipelineReport, PipelineError>)
    ensures
        match r {
            Ok(rep) => {
                &&& files.len() > 0
                &&& is_output_of(byte_views(files@), rep.output@)
                &&& rep.raw_count == all_rows(byte_views(files@)).unwrap().len()
                &&& rep.cleaned_count == cleaned(all_rows(byte_views(files@)).unwrap()).len()
                &&& rep.cleaned_count <= rep.raw_count
                &&& rep.stats == removal_stats_spec(rep.raw_count, rep.cleaned_count)
            },
            Err(PipelineError::Load(LoadError::NoFiles)) => files.len() == 0,
            Err(PipelineError::Load(LoadError::MissingColumn(_))) => files.len() > 0 && all_rows(
                byte_views(files@),
            ) is None,
            Err(PipelineError::Aggregate(_)) => files.len() > 0 && transformed_input(
                byte_views(files@),
            ) is Some && !fits(transformed_input(byte_views(files@)).unwrap()),
        },
{
    let raw = match load(files) {
        Ok(raw) => raw,
        Err(e) => {
            return Err(PipelineError::Load(e));
        },
    };
    let ghost rv = raw_views(raw@);
    let cleaned_rows = clean(&raw);
    let raw_count = raw.len() as u64;
    let cleaned_count = cleaned_rows.len() as u64;
    let stats = removal_stats(raw_count, cleaned_count);
    let ghost cv = clean_views(cleaned_rows@);
    let transformed = transform(cleaned_rows);
    let ghost tv = transformed_views(transformed@);
    assert(tv == transformed_input(byte_views(files@)).unwrap());
    let summaries = match aggregate(&transformed) {
        Ok(s) => s,
        Err(e) => {
            return Err(PipelineError::Aggregate(e));
        },
    };
    let output = render(&summaries);
    assert(is_aggregate_of(tv, summary_views(summaries@)));
    let product_count = summaries.len() as u64;
    Ok(PipelineReport { raw_count, cleaned_count, stats, product_count, output })
}

pub open spec fn removal_stats_spec(raw_count: u64, cleaned_count: u64) -> CleanStats {
    CleanStats {
        removed: (raw_count - cleaned_count) as u64,
        removed_pct_centi: crate::stages::removed_pct_centi_of(
            raw_count as int,
            cleaned_count as int,
        ) as u64,
    }
}

/// Each summary of `a` is one of `b`.
pub open spec fn contained(a: Seq<Summary>, b: Seq<Summary>) -> bool {
    forall|i: int| 0 <= i < a.len() ==> has_summary(b, #[trigger] a[i])
}

pub open spec fn has_summary(b: Seq<Summary>, x: Summary) -> bool {
    exists|j: int| 0 <= j < b.len() && #[trigger] b[j] == x
}

pub open spec fn strictly_ordered(s: Seq<Summary>) -> bool {
    forall|i: int, j: int| 0 <= i < j < s.len() ==> before(#[trigger] s[i], #[trigger] s[j])
}

proof fn lemma_ordered_unique(a: Seq<Summary>, b: Seq<Summary>)
    requires
        strictly_ordered(a),
        strictly_ordered(b),
        contained(a, b),
        contained(b, a),
    ensures
        a == b,
    decreases a.len() + b.len(),
{
    if a.len() == 0 || b.len() == 0 {
        if a.len() > 0 {
            assert(has_summary(b, a[0]));
        }
        if b.len() > 0 {
            assert(has_summary(a, b[0]));
        }
        assert(a =~= b);
    } else {
        assert(has_summary(b, a[0]));
        assert(has_summary(a, b[0]));
        let j = choose|j: int| 0 <= j < b.len() && #[trigger] b[j] == a[0];
        let i = choose|i: int| 0 <= i < a.len() && #[trigger] a[i] == b[0];
        if j > 0 {
            assert(before(b[0], b[j]));
            if i > 0 {
                assert(before(a[0], a[i]));
            }
        }
        assert(a[0] == b[0]);
        let a1 = a.drop_first();
        let b1 = b.drop_first();
        assert forall|x: int| 0 <= x < a1.len() implies has_summary(b1, #[trigger] a1[x]) by {
            assert(a1[x] == a[x + 1]);
            assert(has_summary(b, a[x + 1]));
            let y = choose|y: int| 0 <= y < b.len() && #[trigger] b[y] == a[x + 1];
            assert(before(a[0], a[x + 1]));
            assert(y > 0);
            assert(b1[y - 1] == a1[x]);
        }
        assert forall|x: int| 0 <= x < b1.len() implies has_summary(a1, #[trigger] b1[x]) by {
            assert(b1[x] == b[x + 1]);
            assert(has_summary(a, b[x + 1]));
            let y = choose|y: int| 0 <= y < a.len() && #[trigger] a[y] == b[x + 1];
            assert(before(b[0], b[x + 1]));
            assert(y > 0);
            assert(a1[y - 1] == b1[x]);
        }
        assert forall|x: int, y: int| 0 <= x < y < a1.len() implies before(
            #[trigger] a1[x],
            #[trigger] a1[y],
        ) by {
            assert(before(a[x + 1], a[y + 1]));
        }
        assert forall|x: int, y: int| 0 <= x < y < b1.len() implies before(
            #[trigger] b1[x],
            #[trigger] b1[y],
        ) by {
            assert(before(b[x + 1], b[y + 1]));
        }
        lemma_ordered_unique(a1, b1);
        assert(a =~= seq![a[0]] + a1);
        assert(b =~= seq![b[0]] + b1);
    }
}

proof fn lemma_aggregates_contained(v: Seq<TransformedRow>, a: Seq<Summary>, b: Seq<Summary>)
    requires
        is_aggregate_of(v, a),
        is_aggregate_of(v, b),
    ensures
        contained(a, b),
{
    assert forall|i: int| 0 <= i < a.len() implies has_summary(b, #[trigger] a[i]) by {
        let p = a[i].product_id;
        assert(occurs(v, p));
        let w = choose|w: int| 0 <= w < v.len() && (#[trigger] v[w]).product_id == p;
        assert(has_product(b, v[w].product_id));
        let j = choose|j: int| 0 <= j < b.len() && (#[trigger] b[j]).product_id == p;
        assert(b[j] == group(v, p));
    }
}

/// Only one sequence of summaries is the aggregate of given rows.
pub proof fn lemma_aggregate_unique(v: Seq<TransformedRow>, a: Seq<Summary>, b: Seq<Summary>)
    requires
        is_aggregate_of(v, a),
        is_aggregate_of(v, b),
    ensures
        a == b,
{
    lemma_aggregates_contained(v, a, b);
    lemma_aggregates_contained(v, b, a);
    lemma_ordered_unique(a, b);
}

/// A run is repeatable: two runs on the same input files write the same
/// result bytes.
pub proof fn lemma_runs_agree(files: Seq<Seq<u8>>, out1: Seq<u8>, out2: Seq<u8>)
    requires
        is_output_of(files, out1),
        is_output_of(files, out2),
    ensures
        out1 == out2,
{
    let v = transformed_input(files).unwrap();
    let s1 = choose|s: Seq<Summary>| is_aggregate_of(v, s) && out1 == rendered(s);
    let s2 = choose|s: Seq<Summary>| is_aggregate_of(v, s) && out2 == rendered(s);
    lemma_aggregate_unique(v, s1, s2);
}

/// Whatever the input, the clean stage keeps at most the rows it is given,
/// and the share it removed lies between none and all.
pub proof fn lemma_clean_counts(files: Seq<Seq<u8>>, raw_count: u64, cleaned_count: u64)
    requires
        all_rows(files) is Some,
        raw_count == all_rows(files).unwrap().len(),
        cleaned_count == cleaned(all_rows(files).unwrap()).len(),
    ensures
        cleaned_count <= raw_count,
        0 <= removal_stats_spec(raw_count, cleaned_count).removed_pct_centi <= 10000,
{
    crate::stages::lemma_cleaned_at_most_raw(all_rows(files).unwrap());
    let r = raw_count as int;
    let c = cleaned_count as int;
    if r > 0 {
        vstd::arithmetic::div_mod::lemma_div_is_ordered((r - c) * 10000, r * 10000, r);
        vstd::arithmetic::div_mod::lemma_div_by_multiple(10000, r);
        assert(0 <= (r - c) * 10000) by (nonlinear_arith)
            requires
                c <= r,
        ;
        assert((r - c) * 10000 <= r * 10000) by (nonlinear_arith)
            requires
                0 <= c <= r,
        ;
        vstd::arithmetic::div_mod::lemma_div_pos_is_pos((r - c) * 10000, r);
    }
}

} // verus!
