use vstd::prelude::*;
use crate::point::Point;
use crate::pipeline::{Element, Pipeline, spec_run, run_elements, lemma_run_append};
use crate::stats::{StatsState, spec_accum_seq, spec_stats_empty};
use crate::counter::{CounterState, CounterBounds, CounterError, spec_counter_new,
    spec_counter_accum, spec_counter_splice};
use crate::cardinality::{SketchState, CardinalityError, spec_hash};
use crate::ratio::Ratio;

verus! {

// Fusion collapses "apply a pipeline, then reduce" into one object: the
// pending pipeline's elements concatenated with any elements the terminal
// reducer carries of its own, plus the reducer's configuration.  The rewrite
// is purely structural - it never touches point data - and evaluating the
// fused chain is provably the same as evaluating the pipeline first and
// handing the result to the terminal (see the fusion equivalence lemmas).

/// Which reducer terminates a fused pipeline, with its configuration.
#[derive(Clone, Copy, PartialEq, Eq, Structural, Debug)]
pub enum TerminalKind {
    /// Total of the values.
    Sum,
    /// Mean of the values.
    Average,
    /// Count of the points.
    NumVals,
    /// Full moment statistics.
    StatsAgg,
    /// Reset-aware counter summary, with an optional extrapolation range.
    CounterAgg { bounds: Option<CounterBounds> },
    /// Approximate distinct count at a precision.
    Cardinality { precision: u8 },
}

/// A kind's configuration is valid.
pub open spec fn kind_wf(kind: TerminalKind) -> bool {
    match kind {
        TerminalKind::CounterAgg { bounds } => bounds matches Some(b) ==> b.left < b.right,
        TerminalKind::Cardinality { precision } => 4 <= precision <= 16,
        _ => true,
    }
}

/// A terminal reducer as attached to a pipeline: its configuration plus any
/// leading transform elements of its own.
pub struct TerminalSpec {
    /// Transforms the reducer itself requires, run after the pending
    /// pipeline's elements.
    pub elements: Vec<Element>,
    /// The reducer and its configuration.
    pub kind: TerminalKind,
}

/// A pipeline and its terminal reducer, fused into one executable unit.
pub struct FusedPipeline {
    /// The concatenated transform chain.
    pub elements: Vec<Element>,
    /// The reducer and its configuration.
    pub kind: TerminalKind,
}

impl TerminalSpec {
    /// A plain sum terminal.
    pub fn sum() -> (r: TerminalSpec)
        ensures
            r.elements@ =~= Seq::<Element>::empty(),
            r.kind == TerminalKind::Sum,
            kind_wf(r.kind),
    {
        TerminalSpec { elements: Vec::new(), kind: TerminalKind::Sum }
    }

    /// A plain average terminal.
    pub fn average() -> (r: TerminalSpec)
        ensures
            r.elements@ =~= Seq::<Element>::empty(),
            r.kind == TerminalKind::Average,
            kind_wf(r.kind),
    {
        TerminalSpec { elements: Vec::new(), kind: TerminalKind::Average }
    }

    /// A plain point-count terminal.
    pub fn num_vals() -> (r: TerminalSpec)
        ensures
            r.elements@ =~= Seq::<Element>::empty(),
            r.kind == TerminalKind::NumVals,
            kind_wf(r.kind),
    {
        TerminalSpec { elements: Vec::new(), kind: TerminalKind::NumVals }
    }

    /// A plain statistics terminal.
    pub fn stats_agg() -> (r: TerminalSpec)
        ensures
            r.elements@ =~= Seq::<Element>::empty(),
            r.kind == TerminalKind::StatsAgg,
            kind_wf(r.kind),
    {
        TerminalSpec { elements: Vec::new(), kind: TerminalKind::StatsAgg }
    }

    /// A counter terminal; an extrapolation range whose left edge is not
    /// below its right edge is refused.
    pub fn counter_agg(bounds: Option<(i64, i64)>) -> (r: Result<TerminalSpec, CounterError>)
        ensures
            match bounds {
                None => r is Ok && r->Ok_0.kind == (TerminalKind::CounterAgg { bounds: None }),
                Some((left, right)) => {
                    if left < right {
                        r is Ok && r->Ok_0.kind == (TerminalKind::CounterAgg {
                            bounds: Some(CounterBounds { left, right }),
                        })
                    } else {
                        r == Err::<TerminalSpec, CounterError>(CounterError::BadBounds)
                    }
                },
            },
            r is Ok ==> r->Ok_0.elements@ =~= Seq::<Element>::empty() && kind_wf(r->Ok_0.kind),
    {
        match bounds {
            None => Ok(
                TerminalSpec { elements: Vec::new(), kind: TerminalKind::CounterAgg { bounds: None } },
            ),
            Some((left, right)) => {
                if left < right {
                    Ok(
                        TerminalSpec {
                            elements: Vec::new(),
                            kind: TerminalKind::CounterAgg {
                                bounds: Some(CounterBounds { left, right }),
                            },
                        },
                    )
                } else {
                    Err(CounterError::BadBounds)
                }
            },
        }
    }

    /// A cardinality terminal; precisions outside 4 to 16 are refused.
    pub fn cardinality(precision: u8) -> (r: Result<TerminalSpec, CardinalityError>)
        ensures
            (4 <= precision <= 16) ==> r is Ok && r->Ok_0.kind == (TerminalKind::Cardinality {
                precision,
            }) && r->Ok_0.elements@ =~= Seq::<Element>::empty() && kind_wf(r->Ok_0.kind),
            !(4 <= precision <= 16) ==> r == Err::<TerminalSpec, CardinalityError>(
                CardinalityError::BadPrecision,
            ),
    {
        if precision < 4 || precision > 16 {
            Err(CardinalityError::BadPrecision)
        } else {
            Ok(TerminalSpec { elements: Vec::new(), kind: TerminalKind::Cardinality { precision } })
        }
    }

    /// Carry a leading transform element of the reducer's own.
    pub fn with_element(self, e: Element) -> (r: TerminalSpec)
        ensures
            r.elements@ == self.elements@.push(e),
            r.kind == self.kind,
    {
        let mut elements = self.elements;
        elements.push(e);
        TerminalSpec { elements, kind: self.kind }
    }
}

/// Fuse a pending pipeline with the terminal being attached: the fused chain
/// is the pipeline's elements followed by the terminal's own, in that order,
/// under the terminal's configuration.  Only the element lists are copied;
/// no point data is touched.
pub fn try_fuse(pipeline: Pipeline, terminal: TerminalSpec) -> (r: FusedPipeline)
    ensures
        r.elements@ == pipeline.elements@ + terminal.elements@,
        r.kind == terminal.kind,
{
    let mut elements = pipeline.elements;
    let mut tail = terminal.elements;
    elements.append(&mut tail);
    FusedPipeline { elements, kind: terminal.kind }
}

/// Fusing with a terminal that carries no elements of its own keeps the
/// pipeline's chain exactly: the rewrite is idempotent on no-op attachments.
pub proof fn lemma_fuse_noop(pipeline: Seq<Element>, rows: Seq<Point>)
    ensures
        spec_run(pipeline + Seq::<Element>::empty(), rows) == spec_run(pipeline, rows),
{
    assert(pipeline + Seq::<Element>::empty() =~= pipeline);
}

/// Strictly increasing timestamps.
pub open spec fn strictly_increasing_ts(pts: Seq<Point>) -> bool {
    forall|i: int, j: int| 0 <= i < j < pts.len() ==> pts[i].ts < pts[j].ts
}

/// The counter state over a non-empty, time-ordered point sequence.
#[verifier::opaque]
pub open spec fn spec_counter_fold(pts: Seq<Point>) -> CounterState
    decreases pts.len(),
{
    if pts.len() <= 1 {
        spec_counter_new(pts[0])
    } else {
        spec_counter_accum(spec_counter_fold(pts.drop_last()), pts.last())
    }
}

/// What reducing a point sequence with the counter yields: absence on an
/// empty sequence, an error on a disordered one, the folded state otherwise
/// (with the configured bounds attached).
pub open spec fn spec_counter_reduce(pts: Seq<Point>, bounds: Option<CounterBounds>) -> Result<
    Option<CounterState>,
    CounterError,
> {
    if pts.len() == 0 {
        Ok(None)
    } else if !strictly_increasing_ts(pts) {
        Err(CounterError::OutOfOrder)
    } else {
        Ok(Some(CounterState { bounds, ..spec_counter_fold(pts) }))
    }
}

/// The hashes of every value in a point sequence.
pub open spec fn spec_hashes_of(pts: Seq<Point>) -> Set<u64>
    decreases pts.len(),
{
    if pts.len() == 0 {
        Set::empty()
    } else {
        spec_hashes_of(pts.drop_last()).insert(spec_hash(pts.last().val))
    }
}

/// Run the fused chain, then fold the surviving points into a statistics
/// state.  Serves the statistics terminal and, through its accessors, the
/// sum, average and point-count terminals.
pub fn run_pipeline_then_stats_agg(tv: Vec<Point>, fused: &FusedPipeline) -> (r: StatsState)
    requires
        fused.kind == TerminalKind::StatsAgg || fused.kind == TerminalKind::Sum || fused.kind
            == TerminalKind::Average || fused.kind == TerminalKind::NumVals,
    ensures
        r == spec_accum_seq(spec_stats_empty(), spec_run(fused.elements@, tv@)),
{
    let out = run_elements(&fused.elements, tv);
    StatsState::from_points(&out)
}

/// Run the fused chain and finalize with the sum of the surviving values.
pub fn run_pipeline_then_sum(tv: Vec<Point>, fused: &FusedPipeline) -> (r: i128)
    requires
        fused.kind == TerminalKind::Sum,
    ensures
        r == spec_accum_seq(spec_stats_empty(), spec_run(fused.elements@, tv@)).sx,
{
    let stats = run_pipeline_then_stats_agg(tv, fused);
    stats.sum()
}

/// Run the fused chain and finalize with the mean of the surviving values,
/// absent when none survive.
pub fn run_pipeline_then_average(tv: Vec<Point>, fused: &FusedPipeline) -> (r: Option<Ratio>)
    requires
        fused.kind == TerminalKind::Average,
    ensures
        r == crate::stats::spec_stats_average(
            spec_accum_seq(spec_stats_empty(), spec_run(fused.elements@, tv@)),
        ),
{
    let stats = run_pipeline_then_stats_agg(tv, fused);
    stats.average()
}

/// Run the fused chain and finalize with the number of surviving points.
pub fn run_pipeline_then_num_vals(tv: Vec<Point>, fused: &FusedPipeline) -> (r: u64)
    requires
        fused.kind == TerminalKind::NumVals,
    ensures
        r == spec_accum_seq(spec_stats_empty(), spec_run(fused.elements@, tv@)).n,
{
    let stats = run_pipeline_then_stats_agg(tv, fused);
    stats.num_vals()
}

/// Every pair of adjacent timestamps increasing makes the whole sequence
/// strictly increasing.
proof fn lemma_adjacent_increasing(pts: Seq<Point>, i: int, j: int)
    requires
        forall|k: int| 0 <= k < pts.len() - 1 ==> #[trigger] pts[k].ts < pts[k + 1].ts,
        0 <= i < j < pts.len(),
    ensures
        pts[i].ts < pts[j].ts,
    decreases j - i,
{
    if j > i + 1 {
        lemma_adjacent_increasing(pts, i, j - 1);
    }
}

/// One more point folds into a counter state by one accumulation.
proof fn lemma_counter_fold_step(pts: Seq<Point>, i: int)
    requires
        1 <= i < pts.len(),
    ensures
        spec_counter_fold(pts.take(i + 1)) == spec_counter_accum(
            spec_counter_fold(pts.take(i)),
            pts[i],
        ),
{
    reveal(spec_counter_fold);
    assert(pts.take(i + 1).drop_last() =~= pts.take(i));
    assert(pts.take(i + 1).last() == pts[i]);
}

/// Run the fused chain, then fold the surviving points into a counter state
/// under the terminal's bounds.  An empty result is absence; points out of
/// time order are an error.
#[verifier::rlimit(100)]
pub fn run_pipeline_then_counter_agg(tv: Vec<Point>, fused: &FusedPipeline) -> (r: Result<
    Option<CounterState>,
    CounterError,
>)
    requires
        fused.kind matches TerminalKind::CounterAgg { .. },
        kind_wf(fused.kind),
    ensures
        r == spec_counter_reduce(
            spec_run(fused.elements@, tv@),
            fused.kind->CounterAgg_bounds,
        ),
        r matches Ok(Some(state)) ==> state.wf(),
{
    let bounds = match fused.kind {
        TerminalKind::CounterAgg { bounds } => bounds,
        _ => None,
    };
    let out = run_elements(&fused.elements, tv);
    let ghost pts = out@;
    if out.len() == 0 {
        return Ok(None);
    }
    let mut state = CounterState::new(out[0]);
    proof {
        reveal(spec_counter_fold);
        assert(pts.take(1).len() == 1 && pts.take(1)[0] == pts[0]);
        assert(state == spec_counter_fold(pts.take(1)));
    }
    let n = out.len();
    let mut i: usize = 1;
    while i < n
        invariant
            1 <= i <= n,
            n == pts.len(),
            out@ == pts,
            state == spec_counter_fold(pts.take(i as int)),
            state.wf(),
            state.bounds is None,
            state.last == pts[i - 1],
            forall|k: int| 0 <= k < i - 1 ==> #[trigger] pts[k].ts < pts[k + 1].ts,
            pts == spec_run(fused.elements@, tv@),
            fused.kind matches TerminalKind::CounterAgg { .. },
            bounds == fused.kind->CounterAgg_bounds,
        decreases n - i,
    {
        let p = out[i];
        if p.ts <= state.last.ts {
            proof {
                assert(!(pts[i - 1].ts < pts[i as int].ts));
                assert(!strictly_increasing_ts(pts));
            }
            return Err(CounterError::OutOfOrder);
        }
        state.accumulate(p);
        proof {
            lemma_counter_fold_step(pts, i as int);
        }
        i = i + 1;
    }
    proof {
        assert(pts.take(n as int) =~= pts);
        assert forall|a: int, b: int| 0 <= a < b < pts.len() implies pts[a].ts < pts[b].ts by {
            lemma_adjacent_increasing(pts, a, b);
        }
    }
    let with_bounds = match bounds {
        None => state,
        Some(b) => CounterState { bounds: Some(b), ..state },
    };
    Ok(Some(with_bounds))
}

/// Run the fused chain, then absorb every surviving value into a cardinality
/// sketch at the terminal's precision.
pub fn run_pipeline_then_cardinality(tv: Vec<Point>, fused: &FusedPipeline) -> (r: SketchState)
    requires
        fused.kind matches TerminalKind::Cardinality { .. },
        kind_wf(fused.kind),
    ensures
        r.wf(),
        r.precision == fused.kind->Cardinality_precision,
        r.hashes@ == spec_hashes_of(spec_run(fused.elements@, tv@)),
{
    let precision = match fused.kind {
        TerminalKind::Cardinality { precision } => precision,
        _ => 4,
    };
    let out = run_elements(&fused.elements, tv);
    let ghost pts = out@;
    let mut sketch = match SketchState::new(precision) {
        Ok(s) => s,
        Err(_) => {
            proof {
                assert(false);
            }
            unreached()
        },
    };
    let n = out.len();
    let mut i: usize = 0;
    while i < n
        invariant
            i <= n,
            n == pts.len(),
            out@ == pts,
            sketch.wf(),
            sketch.precision == precision,
            4 <= precision <= 16,
            sketch.hashes@ == spec_hashes_of(pts.take(i as int)),
        decreases n - i,
    {
        sketch = sketch.insert(out[i].val);
        proof {
            assert(pts.take(i + 1).drop_last() =~= pts.take(i as int));
            assert(pts.take(i + 1).last() == pts[i as int]);
        }
        i = i + 1;
    }
    proof {
        assert(pts.take(n as int) =~= pts);
    }
    sketch
}

/// A folded counter state counts its points.
proof fn lemma_counter_fold_n(pts: Seq<Point>)
    requires
        1 <= pts.len() < u64::MAX,
    ensures
        spec_counter_fold(pts).n == pts.len(),
    decreases pts.len(),
{
    reveal(spec_counter_fold);
    if pts.len() > 1 {
        lemma_counter_fold_n(pts.drop_last());
    }
}

/// Merging two partial counter states is exactly accumulating the later
/// partial's points into the earlier state, however the points were split:
/// the boundary between the partials is examined once, so a reset across it
/// is registered exactly once, never twice and never missed.
pub proof fn lemma_counter_merge_accumulates(a: CounterState, pts: Seq<Point>)
    requires
        a.n >= 1,
        1 <= pts.len() < u64::MAX,
    ensures
        spec_counter_splice(a, spec_counter_fold(pts)) == crate::counter::spec_counter_accum_seq(
            a,
            pts,
        ),
    decreases pts.len(),
{
    reveal(spec_counter_fold);
    if pts.len() == 1 {
        crate::counter::lemma_counter_splice_single(a, pts[0]);
        assert(pts.drop_last() =~= Seq::<Point>::empty());
        assert(pts.last() == pts[0]);
    } else {
        let pre = pts.drop_last();
        lemma_counter_merge_accumulates(a, pre);
        lemma_counter_fold_n(pre);
        crate::counter::lemma_counter_splice_accum(a, spec_counter_fold(pre), pts.last());
    }
}

/// Fusion equivalence for the statistics family (statistics, sum, average,
/// point count): reducing after the fused chain is reducing the pipeline's
/// output with the terminal's own chain.  The finalized summaries agree
/// because they are functions of this state.
pub proof fn lemma_fusion_stats_equivalence(
    pipeline: Seq<Element>,
    terminal: Seq<Element>,
    rows: Seq<Point>,
)
    ensures
        spec_accum_seq(spec_stats_empty(), spec_run(pipeline + terminal, rows)) == spec_accum_seq(
            spec_stats_empty(),
            spec_run(terminal, spec_run(pipeline, rows)),
        ),
{
    lemma_run_append(pipeline, terminal, rows);
}

/// Fusion equivalence for the counter terminal.
pub proof fn lemma_fusion_counter_equivalence(
    pipeline: Seq<Element>,
    terminal: Seq<Element>,
    bounds: Option<CounterBounds>,
    rows: Seq<Point>,
)
    ensures
        spec_counter_reduce(spec_run(pipeline + terminal, rows), bounds) == spec_counter_reduce(
            spec_run(terminal, spec_run(pipeline, rows)),
            bounds,
        ),
{
    lemma_run_append(pipeline, terminal, rows);
}

/// Fusion equivalence for the cardinality terminal.
pub proof fn lemma_fusion_cardinality_equivalence(
    pipeline: Seq<Element>,
    terminal: Seq<Element>,
    rows: Seq<Point>,
)
    ensures
        spec_hashes_of(spec_run(pipeline + terminal, rows)) == spec_hashes_of(
            spec_run(terminal, spec_run(pipeline, rows)),
        ),
{
    lemma_run_append(pipeline, terminal, rows);
}

} // verus!

