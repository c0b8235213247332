//! The rolling-window aggregator.
//!
//! [`RollingOHLC`] keeps a time-ordered buffer of ticks.  On each update it
//! evicts ticks that fell out of the trailing window, appends the new tick,
//! and — once the buffer holds at least [`MIN_SAMPLES`] ticks — partitions
//! the buffer into contiguous chunks, aggregates each chunk into a bar in
//! parallel, appends every bar to an append-only history, and returns the
//! bar of the last chunk.
//!
//! The design assumes a single-symbol stream with non-decreasing
//! transaction timestamps; each bar carries the symbol of the tick that
//! triggered it.

use vstd::prelude::*;
use vstd::arithmetic::div_mod::lemma_div_non_zero;
use std::collections::VecDeque;
use crate::bars::OHLC;
use crate::bars::OhlcModel;
use crate::bars::PricedTick;
use crate::bars::bar_of_chunk;
use crate::bars::chunk_of;
use crate::bars::num_chunks;
use crate::bars::par_chunk_bars;
use crate::bars::ticks_in_range;
use crate::price::parse_price;
use crate::price::parse_price_spec;

verus! {

/// Fewest buffered ticks for which bars are computed.
pub const MIN_SAMPLES: usize = 4;

/// One best-bid/best-ask market update.  Only the transaction timestamp,
/// the symbol and the ask price are consumed by the aggregation; the other
/// fields ride along unread.
#[derive(Clone, Debug)]
pub struct BookTicker {
    pub event_type: String,
    pub update_id: u64,
    pub symbol: String,
    pub bid_price: String,
    pub bid_qty: String,
    pub ask_price: String,
    pub ask_qty: String,
    pub transaction_time: u64,
    pub event_time: u64,
}

/// The error `update` reports when a tick's ask price is not a decimal
/// number in range; it identifies the offending tick.
#[derive(Clone, Debug)]
pub struct InvalidPrice {
    pub update_id: u64,
    pub price: String,
}

/// Mathematical content of an aggregator.
pub ghost struct AggregatorModel {
    pub window_size: u64,
    pub parallelism: nat,
    pub buffer: Seq<PricedTick>,
    pub history: Seq<OhlcModel>,
}

/// Buffered ticks stand in non-decreasing timestamp order.
pub open spec fn buffer_sorted(buf: Seq<PricedTick>) -> bool {
    forall|i: int, j: int| 0 <= i <= j < buf.len() ==> buf[i].ts <= buf[j].ts
}

/// Well-formed aggregator: at least one worker, and a buffer that is
/// time-ordered with every ask price in range.
pub open spec fn model_wf(m: AggregatorModel) -> bool {
    &&& m.parallelism >= 1
    &&& buffer_sorted(m.buffer)
    &&& ticks_in_range(m.buffer)
}

/// The oldest timestamp retained after a tick at `ts`: `ts` less the
/// window, saturating at zero so that early ticks evict nothing.
pub open spec fn cutoff_spec(ts: u64, window: u64) -> u64 {
    if ts >= window {
        (ts - window) as u64
    } else {
        0
    }
}

/// Trim from the front of the buffer every tick older than the cutoff,
/// stopping at the first that is not.
pub open spec fn evict_spec(buf: Seq<PricedTick>, cutoff: u64) -> Seq<PricedTick>
    decreases buf.len(),
{
    if buf.len() > 0 && buf[0].ts < cutoff {
        evict_spec(buf.drop_first(), cutoff)
    } else {
        buf
    }
}

/// Ticks per chunk: the buffer length divided by the chunk count — the
/// lesser of the length and the parallelism degree — rounded up.
pub open spec fn chunk_size_spec(len: nat, par: nat) -> nat {
    let nc = (if len <= par { len } else { par }) as int;
    if nc == 0 {
        1
    } else {
        ((len as int) / nc + (if (len as int) % nc == 0 { 0int } else { 1int })) as nat
    }
}

/// The chunk size is the true ceiling of length over chunk count: few
/// enough ticks per chunk that the chunk count is not exceeded, and not
/// one fewer.
pub proof fn lemma_chunk_size_is_ceiling(len: nat, par: nat)
    requires
        1 <= len,
        1 <= par,
    ensures
        ({
            let nc = if len <= par { len } else { par };
            let cs = chunk_size_spec(len, par);
            &&& 1 <= cs
            &&& cs * nc >= len
            &&& (cs - 1) * nc < len
        }),
{
    let nc = (if len <= par { len } else { par }) as int;
    let l = len as int;
    let q = l / nc;
    let r = l % nc;
    vstd::arithmetic::div_mod::lemma_fundamental_div_mod(l, nc);
    vstd::arithmetic::div_mod::lemma_mod_bound(l, nc);
    vstd::arithmetic::div_mod::lemma_div_pos_is_pos(l, nc);
    let csi = chunk_size_spec(len, par) as int;
    if r == 0 {
        assert(csi == q);
        assert(q >= 1 && q * nc == l && (q - 1) * nc < l) by (nonlinear_arith)
            requires
                nc >= 1,
                l >= 1,
                q >= 0,
                l == nc * q,
        ;
    } else {
        assert(csi == q + 1);
        assert((q + 1) * nc >= l && q * nc < l) by (nonlinear_arith)
            requires
                nc >= 1,
                l >= 1,
                q >= 0,
                l == nc * q + r,
                1 <= r < nc,
        ;
    }
    assert(1 <= csi);
    assert(csi * nc >= l);
    assert((csi - 1) * nc < l);
}

/// The bars one aggregation pass appends: one per chunk, in chunk order.
pub open spec fn bars_spec(buf: Seq<PricedTick>, par: nat, symbol: Seq<char>) -> Seq<OhlcModel> {
    let cs = chunk_size_spec(buf.len(), par);
    Seq::new(num_chunks(buf.len(), cs), |i: int| bar_of_chunk(chunk_of(buf, cs, i), symbol))
}

/// The aggregator state after one update with a tick at `ts` whose ask
/// price is `micros` millionths.
pub open spec fn step_state(m: AggregatorModel, ts: u64, micros: i64, symbol: Seq<char>)
    -> AggregatorModel {
    let buf1 = evict_spec(m.buffer, cutoff_spec(ts, m.window_size)).push(
        PricedTick { ts: ts, ask_micros: micros },
    );
    let hist1 = if buf1.len() < MIN_SAMPLES {
        m.history
    } else {
        m.history + bars_spec(buf1, m.parallelism, symbol)
    };
    AggregatorModel {
        window_size: m.window_size,
        parallelism: m.parallelism,
        buffer: buf1,
        history: hist1,
    }
}

/// The bar one update returns: the last chunk's, or none below threshold.
pub open spec fn step_emits(m: AggregatorModel, ts: u64, micros: i64, symbol: Seq<char>)
    -> Option<OhlcModel> {
    let buf1 = evict_spec(m.buffer, cutoff_spec(ts, m.window_size)).push(
        PricedTick { ts: ts, ask_micros: micros },
    );
    if buf1.len() < MIN_SAMPLES {
        None
    } else {
        Some(bars_spec(buf1, m.parallelism, symbol).last())
    }
}

/// Eviction keeps order, ranges and the timestamp bound, and leaves no
/// tick older than the cutoff.
proof fn lemma_evict_props(buf: Seq<PricedTick>, cutoff: u64, t: u64)
    requires
        buffer_sorted(buf),
        ticks_in_range(buf),
        forall|i: int| 0 <= i < buf.len() ==> #[trigger] buf[i].ts <= t,
    ensures
        buffer_sorted(evict_spec(buf, cutoff)),
        ticks_in_range(evict_spec(buf, cutoff)),
        forall|i: int|
            0 <= i < evict_spec(buf, cutoff).len() ==> #[trigger] evict_spec(buf, cutoff)[i].ts
                <= t,
        forall|i: int|
            0 <= i < evict_spec(buf, cutoff).len() ==> #[trigger] evict_spec(buf, cutoff)[i].ts
                >= cutoff,
        evict_spec(buf, cutoff).len() <= buf.len(),
    decreases buf.len(),
{
    if buf.len() > 0 && buf[0].ts < cutoff {
        let d = buf.drop_first();
        assert(forall|i: int| 0 <= i < d.len() ==> d[i] == buf[i + 1]);
        lemma_evict_props(d, cutoff, t);
    }
}

/// Relies on `rayon::current_num_threads`: the current thread pool always
/// holds at least one worker thread.
#[verifier::external_body]
fn current_thread_count() -> (r: usize)
    ensures
        r >= 1,
{
    rayon::current_num_threads()
}

fn clone_bar(b: &OHLC) -> (r: OHLC)
    ensures
        r@ == b@,
{
    OHLC {
        symbol: b.symbol.clone(),
        timestamp: b.timestamp,
        open: b.open.clone(),
        high: b.high.clone(),
        low: b.low.clone(),
        close: b.close.clone(),
    }
}

/// The rolling-window aggregation engine: a bounded time-ordered tick
/// buffer and the append-only history of every bar computed so far.
pub struct RollingOHLC {
    window_size: u64,
    parallelism: usize,
    price_data: VecDeque<PricedTick>,
    ohlc_data: Vec<OHLC>,
}

impl View for RollingOHLC {
    type V = AggregatorModel;

    closed spec fn view(&self) -> AggregatorModel {
        AggregatorModel {
            window_size: self.window_size,
            parallelism: self.parallelism as nat,
            buffer: self.price_data@,
            history: self.ohlc_data@.map_values(|b: OHLC| b@),
        }
    }
}

impl RollingOHLC {
    /// Create an aggregator with the given window size, using the ambient
    /// worker pool's thread count as the parallelism degree.
    pub fn new(window_size: u64) -> (r: Self)
        ensures
            model_wf(r@),
            r@.window_size == window_size,
            r@.buffer == Seq::<PricedTick>::empty(),
            r@.history == Seq::<OhlcModel>::empty(),
    {
        let parallelism = current_thread_count();
        Self::with_parallelism(window_size, parallelism)
    }

    /// Create an aggregator with an explicit parallelism degree, which
    /// fixes how the buffer is partitioned into chunks.
    pub fn with_parallelism(window_size: u64, parallelism: usize) -> (r: Self)
        requires
            parallelism >= 1,
        ensures
            model_wf(r@),
            r@.window_size == window_size,
            r@.parallelism == parallelism,
            r@.buffer == Seq::<PricedTick>::empty(),
            r@.history == Seq::<OhlcModel>::empty(),
    {
        let r = RollingOHLC {
            window_size,
            parallelism,
            price_data: VecDeque::new(),
            ohlc_data: Vec::new(),
        };
        proof {
            assert(r@.history =~= Seq::<OhlcModel>::empty());
        }
        r
    }

    /// The computed bars so far, in emission order.
    pub fn get_ohlc_data(&self) -> (r: &[OHLC])
        ensures
            r@.map_values(|b: OHLC| b@) == self@.history,
            r@.len() == self@.history.len(),
    {
        self.ohlc_data.as_slice()
    }

    /// Feed one tick.  Stale ticks are evicted, the tick is appended, and
    /// if at least [`MIN_SAMPLES`] ticks remain in the window, one bar per
    /// chunk is appended to the history and the last is returned.  A
    /// malformed ask price fails only this call and leaves the state
    /// untouched.  Timestamps must arrive in non-decreasing order.
    pub fn update(&mut self, tick: BookTicker) -> (r: Result<Option<OHLC>, InvalidPrice>)
        requires
            model_wf(old(self)@),
            old(self)@.buffer.len() > 0 ==> old(self)@.buffer.last().ts <= tick.transaction_time,
        ensures
            model_wf(final(self)@),
            final(self)@.window_size == old(self)@.window_size,
            final(self)@.parallelism == old(self)@.parallelism,
            old(self)@.history.is_prefix_of(final(self)@.history),
            r is Ok ==> parse_price_spec(tick.ask_price@) is Some,
            r is Ok ==> final(self)@ == step_state(
                old(self)@,
                tick.transaction_time,
                parse_price_spec(tick.ask_price@).unwrap() as i64,
                tick.symbol@,
            ),
            r is Ok ==> (match r.unwrap() {
                Some(b) => step_emits(
                    old(self)@,
                    tick.transaction_time,
                    parse_price_spec(tick.ask_price@).unwrap() as i64,
                    tick.symbol@,
                ) == Some(b@),
                None => step_emits(
                    old(self)@,
                    tick.transaction_time,
                    parse_price_spec(tick.ask_price@).unwrap() as i64,
                    tick.symbol@,
                ) is None,
            }),
            r is Ok ==> forall|i: int|
                0 <= i < final(self)@.buffer.len() ==> #[trigger] final(self)@.buffer[i].ts
                    >= cutoff_spec(tick.transaction_time, old(self)@.window_size),
            r is Err ==> parse_price_spec(tick.ask_price@) is None && final(self)@ == old(self)@
                && r.unwrap_err().update_id == tick.update_id && r.unwrap_err().price@
                == tick.ask_price@,
    {
        // parse first, so that a malformed price corrupts nothing
        let parsed = parse_price(tick.ask_price.as_str());
        let micros: i64 = match parsed {
            Some(m) => m,
            None => {
                return Err(
                    InvalidPrice { update_id: tick.update_id, price: tick.ask_price },
                );
            },
        };
        let ghost m0 = self@;
        let ghost buf0 = self.price_data@;

        // evict every tick that fell out of the trailing window
        let cutoff: u64 = if tick.transaction_time >= self.window_size {
            tick.transaction_time - self.window_size
        } else {
            0
        };
        proof {
            lemma_evict_props(buf0, cutoff, tick.transaction_time);
        }
        while self.price_data.len() > 0 && self.price_data[0].ts < cutoff
            invariant
                buffer_sorted(self.price_data@),
                ticks_in_range(self.price_data@),
                forall|i: int|
                    0 <= i < self.price_data@.len() ==> #[trigger] self.price_data@[i].ts
                        <= tick.transaction_time,
                evict_spec(self.price_data@, cutoff) == evict_spec(buf0, cutoff),
                self.window_size == m0.window_size,
                self.parallelism == m0.parallelism,
                self.ohlc_data@.map_values(|b: OHLC| b@) == m0.history,
            decreases self.price_data@.len(),
        {
            let ghost pre = self.price_data@;
            self.price_data.pop_front();
            proof {
                assert(self.price_data@ == pre.drop_first());
                assert(forall|i: int|
                    0 <= i < self.price_data@.len() ==> self.price_data@[i] == pre[i + 1]);
            }
        }
        proof {
            assert(evict_spec(self.price_data@, cutoff) == self.price_data@);
        }

        // append the new tick
        let new_tick = PricedTick { ts: tick.transaction_time, ask_micros: micros };
        self.price_data.push_back(new_tick);
        let ghost buf1 = self.price_data@;
        proof {
            assert(buf1 == evict_spec(buf0, cutoff).push(new_tick));
            assert(cutoff == cutoff_spec(tick.transaction_time, m0.window_size));
            assert(forall|i: int|
                0 <= i < buf1.len() - 1 ==> buf1[i] == evict_spec(buf0, cutoff)[i]);
            lemma_evict_props(buf0, cutoff, tick.transaction_time);
            assert(buffer_sorted(buf1));
            assert(ticks_in_range(buf1));
            assert(forall|i: int| 0 <= i < buf1.len() ==> #[trigger] buf1[i].ts >= cutoff);
        }

        // below the sample threshold no bar is computed
        if self.price_data.len() < MIN_SAMPLES {
            proof {
                assert(self@ == step_state(m0, tick.transaction_time, micros, tick.symbol@));
            }
            return Ok(None);
        }

        // snapshot the buffer, front to back, for the parallel pass
        let len: usize = self.price_data.len();
        let mut snapshot: Vec<PricedTick> = Vec::new();
        let mut i: usize = 0;
        while i < len
            invariant
                i <= len,
                len == self.price_data@.len(),
                snapshot@ == self.price_data@.take(i as int),
            decreases len - i,
        {
            let t: PricedTick = self.price_data[i];
            snapshot.push(t);
            proof {
                assert(self.price_data@.take(i + 1) =~= self.price_data@.take(i as int).push(
                    self.price_data@[i as int],
                ));
            }
            i = i + 1;
        }
        proof {
            assert(snapshot@ =~= buf1);
        }

        // partition: chunk count is the lesser of length and parallelism,
        // chunk size the length over the count, rounded up
        let nc: usize = if len <= self.parallelism {
            len
        } else {
            self.parallelism
        };
        proof {
            let l = len as int;
            let n = nc as int;
            vstd::arithmetic::div_mod::lemma_fundamental_div_mod(l, n);
            vstd::arithmetic::div_mod::lemma_mod_bound(l, n);
            vstd::arithmetic::div_mod::lemma_div_pos_is_pos(l, n);
            if l % n != 0 {
                assert(l / n + 1 <= l) by (nonlinear_arith)
                    requires
                        n >= 1,
                        l >= 1,
                        l == n * (l / n) + l % n,
                        1 <= l % n < n,
                        l / n >= 0,
                ;
            }
        }
        let cs: usize = len / nc + (if len % nc == 0 {
            0
        } else {
            1
        });
        proof {
            assert(cs == chunk_size_spec(buf1.len(), m0.parallelism));
            lemma_div_non_zero(len as int, nc as int);
            assert(cs >= 1);
            lemma_div_non_zero(len as int + cs - 1, cs as int);
            assert(num_chunks(buf1.len(), cs as nat) >= 1);
        }

        // aggregate every chunk in parallel
        let bars = par_chunk_bars(&snapshot, cs, &tick.symbol);
        let ghost bars_m = bars_spec(buf1, m0.parallelism, tick.symbol@);
        proof {
            assert(bars@.map_values(|b: OHLC| b@) =~= bars_m);
        }

        // record the bars in chunk order
        let nbars: usize = bars.len();
        let ghost hist0 = m0.history;
        let mut b: usize = 0;
        while b < nbars
            invariant
                b <= nbars,
                nbars == bars@.len(),
                self.ohlc_data@.map_values(|o: OHLC| o@) == hist0 + bars@.take(
                    b as int,
                ).map_values(|o: OHLC| o@),
                self.price_data@ == buf1,
                self.window_size == m0.window_size,
                self.parallelism == m0.parallelism,
            decreases nbars - b,
        {
            let bar = clone_bar(&bars[b]);
            let ghost barg = bar;
            let ghost hpre = self.ohlc_data@;
            self.ohlc_data.push(bar);
            proof {
                let f = |o: OHLC| o@;
                assert(self.ohlc_data@ == hpre.push(barg));
                hpre.lemma_push_map_commute(f, barg);
                bars@.lemma_map_take_succ(f, b as int);
                assert(f(barg) == bars@[b as int]@);
                assert(hist0 + bars@.take(b as int).map_values(f).push(f(barg)) =~= (hist0
                    + bars@.take(b as int).map_values(f)).push(f(barg)));
                assert(self.ohlc_data@.map_values(|o: OHLC| o@) =~= hist0 + bars@.take(
                    b + 1,
                ).map_values(|o: OHLC| o@));
            }
            b = b + 1;
        }
        proof {
            assert(bars@.take(nbars as int) =~= bars@);
            assert(self@.history =~= hist0 + bars_m);
            assert(self@ == step_state(m0, tick.transaction_time, micros, tick.symbol@));
        }

        // the most recent chunk's bar is the call's result
        let last = clone_bar(&bars[nbars - 1]);
        proof {
            assert(last@ == bars_m.last());
        }
        Ok(Some(last))
    }
}

} // verus!
