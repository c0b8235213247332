//! OHLC bars computed over contiguous chunks of the tick buffer.
//!
//! The buffer is partitioned into chunks of a fixed size; each chunk yields
//! one bar whose open and close are the ask prices at the chunk's ends and
//! whose high and low are the true extremes of the chunk.  The chunks are
//! aggregated in parallel on rayon's worker pool; the parallel map is the
//! only step taken on trust here, and it only runs the verified
//! [`chunk_bar`] on each chunk.

use vstd::prelude::*;
use rayon::iter::ParallelIterator;
use rayon::slice::ParallelSlice;
use crate::price::format_micros;
use crate::price::format_price;
use crate::price::in_price_range;

verus! {

/// One buffered tick: its transaction timestamp and its ask price in
/// millionths.
#[derive(Clone, Copy)]
pub struct PricedTick {
    pub ts: u64,
    pub ask_micros: i64,
}

/// One open/high/low/close bar, prices rendered with six fraction digits.
#[derive(Clone, Debug)]
pub struct OHLC {
    pub symbol: String,
    pub timestamp: u64,
    pub open: String,
    pub high: String,
    pub low: String,
    pub close: String,
}

/// Mathematical content of a bar.
pub ghost struct OhlcModel {
    pub symbol: Seq<char>,
    pub timestamp: u64,
    pub open: Seq<char>,
    pub high: Seq<char>,
    pub low: Seq<char>,
    pub close: Seq<char>,
}

impl View for OHLC {
    type V = OhlcModel;

    open spec fn view(&self) -> OhlcModel {
        OhlcModel {
            symbol: self.symbol@,
            timestamp: self.timestamp,
            open: self.open@,
            high: self.high@,
            low: self.low@,
            close: self.close@,
        }
    }
}

pub open spec fn ticks_in_range(c: Seq<PricedTick>) -> bool {
    forall|i: int| 0 <= i < c.len() ==> in_price_range(c[i].ask_micros as int)
}

/// The largest ask price in a chunk, in millionths.
pub open spec fn chunk_high(c: Seq<PricedTick>) -> int
    decreases c.len(),
{
    if c.len() <= 1 {
        c[0].ask_micros as int
    } else {
        let rest = chunk_high(c.drop_last());
        let lastv = c.last().ask_micros as int;
        if lastv > rest {
            lastv
        } else {
            rest
        }
    }
}

/// The smallest ask price in a chunk, in millionths.
pub open spec fn chunk_low(c: Seq<PricedTick>) -> int
    decreases c.len(),
{
    if c.len() <= 1 {
        c[0].ask_micros as int
    } else {
        let rest = chunk_low(c.drop_last());
        let lastv = c.last().ask_micros as int;
        if lastv < rest {
            lastv
        } else {
            rest
        }
    }
}

/// The bar a chunk yields: open and close from the chunk's first and last
/// ask price, high and low its extremes, the timestamp that of its last
/// tick, and the symbol that of the tick that triggered the aggregation.
pub open spec fn bar_of_chunk(c: Seq<PricedTick>, symbol: Seq<char>) -> OhlcModel {
    OhlcModel {
        symbol: symbol,
        timestamp: c.last().ts,
        open: format_micros(c[0].ask_micros as int),
        high: format_micros(chunk_high(c)),
        low: format_micros(chunk_low(c)),
        close: format_micros(c.last().ask_micros as int),
    }
}

/// Chunk aggregate law: the high and low of a chunk are the true maximum
/// and minimum ask price within it; in particular the high is at least and
/// the low at most each of the open and the close.
pub proof fn lemma_chunk_extremes(c: Seq<PricedTick>)
    requires
        c.len() >= 1,
    ensures
        forall|i: int| 0 <= i < c.len() ==> chunk_low(c) <= #[trigger] (c[i].ask_micros as int) <= chunk_high(c),
        exists|i: int| 0 <= i < c.len() && c[i].ask_micros as int == chunk_high(c),
        exists|i: int| 0 <= i < c.len() && c[i].ask_micros as int == chunk_low(c),
        chunk_high(c) >= c[0].ask_micros as int,
        chunk_high(c) >= c.last().ask_micros as int,
        chunk_low(c) <= c[0].ask_micros as int,
        chunk_low(c) <= c.last().ask_micros as int,
    decreases c.len(),
{
    if c.len() > 1 {
        let d = c.drop_last();
        lemma_chunk_extremes(d);
        assert(forall|i: int| 0 <= i < c.len() - 1 ==> d[i] == c[i]);
        let wh = choose|i: int| 0 <= i < d.len() && d[i].ask_micros as int == chunk_high(d);
        let wl = choose|i: int| 0 <= i < d.len() && d[i].ask_micros as int == chunk_low(d);
        if c.last().ask_micros as int > chunk_high(d) {
            assert(c[c.len() - 1].ask_micros as int == chunk_high(c));
        } else {
            assert(c[wh].ask_micros as int == chunk_high(c));
        }
        if (c.last().ask_micros as int) < chunk_low(d) {
            assert(c[c.len() - 1].ask_micros as int == chunk_low(c));
        } else {
            assert(c[wl].ask_micros as int == chunk_low(c));
        }
    }
}

/// Aggregate one chunk into a bar.  `symbol` is the symbol of the tick
/// whose arrival triggered the aggregation.
pub fn chunk_bar(chunk: &[PricedTick], symbol: &String) -> (r: OHLC)
    requires
        chunk@.len() >= 1,
        ticks_in_range(chunk@),
    ensures
        r@ == bar_of_chunk(chunk@, symbol@),
{
    let len = chunk.len();
    let mut high: i64 = chunk[0].ask_micros;
    let mut low: i64 = chunk[0].ask_micros;
    proof {
        assert(chunk@.take(1).len() == 1);
        assert(chunk@.take(1)[0] == chunk@[0]);
    }
    let mut i: usize = 1;
    while i < len
        invariant
            1 <= i <= len,
            len == chunk@.len(),
            ticks_in_range(chunk@),
            high as int == chunk_high(chunk@.take(i as int)),
            low as int == chunk_low(chunk@.take(i as int)),
        decreases len - i,
    {
        let a = chunk[i].ask_micros;
        proof {
            assert(chunk@.take(i + 1).drop_last() =~= chunk@.take(i as int));
            assert(chunk@.take(i + 1).last() == chunk@[i as int]);
        }
        if a > high {
            high = a;
        }
        if a < low {
            low = a;
        }
        i = i + 1;
    }
    proof {
        assert(chunk@.take(len as int) =~= chunk@);
        lemma_chunk_extremes(chunk@);
    }
    OHLC {
        symbol: symbol.clone(),
        timestamp: chunk[len - 1].ts,
        open: format_price(chunk[0].ask_micros),
        high: format_price(high),
        low: format_price(low),
        close: format_price(chunk[len - 1].ask_micros),
    }
}

/// How many chunks a buffer of `len` ticks yields at `cs` ticks per chunk.
pub open spec fn num_chunks(len: nat, cs: nat) -> nat {
    if cs == 0 {
        0
    } else {
        (((len + cs - 1) as int) / (cs as int)) as nat
    }
}

/// The `i`-th chunk of the buffer at `cs` ticks per chunk.
pub open spec fn chunk_of(s: Seq<PricedTick>, cs: nat, i: int) -> Seq<PricedTick> {
    let lo = i * cs;
    let hi = if (i + 1) * cs <= s.len() {
        (i + 1) * (cs as int)
    } else {
        s.len() as int
    };
    s.subrange(lo, hi)
}

/// Relies on rayon's `par_chunks`, `map` and `collect` on a slice: the
/// slice is cut into consecutive chunks of `chunk_size` elements in order
/// (the last chunk may be shorter, and no chunk is empty), the closure runs
/// on each chunk, and collecting into a `Vec` keeps the chunks' order.  The
/// closure only calls the verified [`chunk_bar`], whose preconditions hold
/// for every chunk of a nonempty in-range slice.
#[verifier::external_body]
pub(crate) fn par_chunk_bars(ticks: &Vec<PricedTick>, chunk_size: usize, symbol: &String) -> (r:
    Vec<OHLC>)
    requires
        chunk_size >= 1,
        ticks@.len() >= 1,
        ticks_in_range(ticks@),
    ensures
        r@.len() == num_chunks(ticks@.len(), chunk_size as nat),
        forall|i: int|
            0 <= i < r@.len() ==> r@[i]@ == bar_of_chunk(
                chunk_of(ticks@, chunk_size as nat, i),
                symbol@,
            ),
{
    ticks.par_chunks(chunk_size).map(|chunk| chunk_bar(chunk, symbol)).collect()
}

} // verus!
