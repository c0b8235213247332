//! Laws of the aggregation model.
//!
//! `update`'s contract pins each call's outcome to the pure transition
//! [`step_state`] / [`step_emits`].  The laws here speak about whole runs
//! of that transition: what a sequence of ticks can and cannot produce.

use vstd::prelude::*;
use crate::aggregator::AggregatorModel;
use crate::aggregator::MIN_SAMPLES;
use crate::aggregator::cutoff_spec;
use crate::aggregator::evict_spec;
use crate::aggregator::step_emits;
use crate::aggregator::step_state;
use crate::bars::PricedTick;

verus! {

/// One processed tick of a run: its transaction timestamp, its parsed ask
/// price in millionths, and its symbol.
pub ghost struct TickInput {
    pub ts: u64,
    pub micros: i64,
    pub symbol: Seq<char>,
}

/// The aggregator state a sequence of (successfully parsed) ticks leads
/// to, one [`step_state`] per tick.
pub open spec fn run_state(m: AggregatorModel, ticks: Seq<TickInput>) -> AggregatorModel
    decreases ticks.len(),
{
    if ticks.len() == 0 {
        m
    } else {
        run_state(
            step_state(m, ticks[0].ts, ticks[0].micros, ticks[0].symbol),
            ticks.drop_first(),
        )
    }
}

proof fn lemma_evict_len(buf: Seq<PricedTick>, cutoff: u64)
    ensures
        evict_spec(buf, cutoff).len() <= buf.len(),
    decreases buf.len(),
{
    if buf.len() > 0 && buf[0].ts < cutoff {
        lemma_evict_len(buf.drop_first(), cutoff);
    }
}

/// Determinism law: the outcome of a run is a function of the starting
/// state and the tick sequence alone — two aggregators built with the same
/// window size and parallelism degree and fed the same ticks end with the
/// same buffer and the same bar history.
pub proof fn lemma_run_deterministic(
    m1: AggregatorModel,
    m2: AggregatorModel,
    ticks: Seq<TickInput>,
)
    requires
        m1 == m2,
    ensures
        run_state(m1, ticks) == run_state(m2, ticks),
{
}

/// Threshold gating law, one step: while the buffer holds fewer than the
/// minimum samples even after the new tick, the call emits no bar.
pub proof fn lemma_below_threshold_no_bar(
    m: AggregatorModel,
    ts: u64,
    micros: i64,
    symbol: Seq<char>,
)
    requires
        m.buffer.len() + 1 < MIN_SAMPLES,
    ensures
        step_emits(m, ts, micros, symbol) is None,
        step_state(m, ts, micros, symbol).history == m.history,
{
    lemma_evict_len(m.buffer, cutoff_spec(ts, m.window_size));
}

/// Threshold gating law, whole runs: feeding fewer ticks than the minimum
/// sample count to an aggregator whose buffer cannot reach it yields no
/// bar on any call and leaves the history untouched — in particular a
/// fresh aggregator fed fewer than four ticks ends with an empty history.
pub proof fn lemma_threshold_gating(m: AggregatorModel, ticks: Seq<TickInput>)
    requires
        m.buffer.len() + ticks.len() < MIN_SAMPLES,
    ensures
        run_state(m, ticks).history == m.history,
        run_state(m, ticks).buffer.len() <= m.buffer.len() + ticks.len(),
        forall|k: int|
            0 <= k < ticks.len() ==> #[trigger] step_emits(
                run_state(m, ticks.take(k)),
                ticks[k].ts,
                ticks[k].micros,
                ticks[k].symbol,
            ) is None,
    decreases ticks.len(),
{
    if ticks.len() > 0 {
        let t = ticks[0];
        lemma_evict_len(m.buffer, cutoff_spec(t.ts, m.window_size));
        let m1 = step_state(m, t.ts, t.micros, t.symbol);
        assert(m1.buffer.len() <= m.buffer.len() + 1);
        lemma_below_threshold_no_bar(m, t.ts, t.micros, t.symbol);
        let rest = ticks.drop_first();
        lemma_threshold_gating(m1, rest);
        assert(ticks.take(0) =~= Seq::<TickInput>::empty());
        assert(run_state(m, ticks.take(0)) == m);
        assert forall|k: int| 1 <= k < ticks.len() implies #[trigger] step_emits(
            run_state(m, ticks.take(k)),
            ticks[k].ts,
            ticks[k].micros,
            ticks[k].symbol,
        ) is None by {
            assert(ticks.take(k).drop_first() =~= rest.take(k - 1));
            assert(ticks.take(k)[0] == t);
            assert(run_state(m, ticks.take(k)) == run_state(m1, rest.take(k - 1)));
            assert(ticks[k] == rest[k - 1]);
            assert(step_emits(
                run_state(m1, rest.take(k - 1)),
                rest[k - 1].ts,
                rest[k - 1].micros,
                rest[k - 1].symbol,
            ) is None);
        }
    }
}

/// Monotonic history growth law: over any run, the history only ever
/// grows by appending — what was recorded stays, in order.
pub proof fn lemma_history_monotonic(m: AggregatorModel, ticks: Seq<TickInput>)
    ensures
        m.history.is_prefix_of(run_state(m, ticks).history),
    decreases ticks.len(),
{
    if ticks.len() == 0 {
        assert(m.history =~= run_state(m, ticks).history.subrange(0, m.history.len() as int));
    } else {
        let t = ticks[0];
        let m1 = step_state(m, t.ts, t.micros, t.symbol);
        lemma_history_monotonic(m1, ticks.drop_first());
        let fin = run_state(m1, ticks.drop_first());
        assert(run_state(m, ticks) == fin);
        assert(m1.history =~= fin.history.subrange(0, m1.history.len() as int));
        assert(m.history.len() <= m1.history.len());
        assert(m.history =~= fin.history.subrange(0, m.history.len() as int)) by {
            assert(forall|i: int|
                0 <= i < m.history.len() ==> m.history[i] == #[trigger] m1.history[i]);
            assert(forall|i: int|
                0 <= i < m1.history.len() ==> m1.history[i] == #[trigger] fin.history[i]);
        }
    }
}

} // verus!
