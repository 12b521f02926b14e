use vstd::prelude::*;
use vstd::hash_map::StringHashMap;
use crate::datas::{OHLCData, OHLCWindow, TickData};
use crate::window::{
    begins_after, first_in_window, in_window, lemma_first_in_window, lemma_window_begin,
    no_gap_of_exactly, ohlc_model, px, range_high, range_low, record_matches, sym,
    timestamps_sorted, ts, update_window, windows_model,
};
use vstd::arithmetic::div_mod::lemma_fundamental_div_mod;
use vstd::arithmetic::mul::lemma_mul_inequality;

verus! {

/// The part of the tick sequence that one worker handles: it emits the records of
/// `[range_begin, range_end]` (empty where `range_end + 1 == range_begin`) and starts its scan at
/// `window_begin` to prime its windows.
#[derive(Clone, Copy, Debug, PartialEq, Eq)]
pub struct TickDataRangeIndex {
    pub range_begin: usize,
    pub range_end: usize,
    pub window_begin: usize,
}

/// Computes candle records from ticks, on one worker or split across several.
pub struct OHLCMaker {}

/// Number of ticks in each part but the last, which takes the remainder.
pub open spec fn part_size(n: int, p: int) -> int {
    if n / p == 0 { 1 } else { n / p }
}

/// First index emitted by part `q` of `p` parts over `n` ticks.
pub open spec fn plan_range_begin(n: int, p: int, q: int) -> int {
    let x = q * part_size(n, p);
    if x < n { x } else { n }
}

/// Last index emitted by part `q` of `p` parts over `n` ticks.
pub open spec fn plan_range_end(n: int, p: int, q: int) -> int {
    if q == p - 1 {
        n - 1
    } else {
        let x = (q + 1) * part_size(n, p) - 1;
        if x < n - 1 { x } else { n - 1 }
    }
}

/// Walks back from `k` while the tick before it is at most `w` older than tick `rb`.
pub open spec fn lookback_from(ticks: Seq<TickData>, rb: int, k: int, w: u64) -> int
    decreases k,
{
    if k <= 0 {
        0
    } else if ts(ticks, rb) - ts(ticks, k - 1) <= w {
        lookback_from(ticks, rb, k - 1, w)
    } else {
        k
    }
}

/// Where part `q` of `p` starts its scan: the first part at index 0, an empty part at its own
/// begin, any other as far back as the ticks stay within `w` of its first tick.
pub open spec fn plan_lookback(ticks: Seq<TickData>, w: u64, p: int, q: int) -> int {
    let rb = plan_range_begin(ticks.len() as int, p, q);
    if q == 0 || rb >= ticks.len() { rb } else { lookback_from(ticks, rb, rb, w) }
}

/// `r` is the plan of `p` parts over `ticks`: no part for no ticks, else one per worker.
pub open spec fn plan_matches(r: Seq<TickDataRangeIndex>, ticks: Seq<TickData>, p: int, w: u64) -> bool {
    let n = ticks.len() as int;
    &&& r.len() == if n == 0 { 0 } else { p }
    &&& forall|q: int| 0 <= q < r.len() ==> {
        &&& (#[trigger] r[q]).range_begin == plan_range_begin(n, p, q)
        &&& r[q].range_end == plan_range_end(n, p, q)
        &&& r[q].window_begin == plan_lookback(ticks, w, p, q)
    }
}

/// The parts are contiguous, in order, and cover every index of `n` ticks exactly once.
pub proof fn lemma_plan_covers(n: int, p: int)
    requires
        n >= 1,
        p >= 1,
    ensures
        plan_range_begin(n, p, 0) == 0,
        plan_range_end(n, p, p - 1) == n - 1,
        forall|q: int| 0 <= q < p - 1 ==> plan_range_end(n, p, q) + 1 == #[trigger] plan_range_begin(n, p, q + 1),
        forall|q: int| 0 <= q < p ==> 0 <= #[trigger] plan_range_begin(n, p, q) <= plan_range_end(n, p, q) + 1 <= n,
{
    let s = part_size(n, p);
    assert forall|q: int| 0 <= q < p implies 0 <= #[trigger] plan_range_begin(n, p, q) <= plan_range_end(n, p, q) + 1 <= n by {
        assert(q * s >= 0) by (nonlinear_arith)
            requires
                q >= 0,
                s >= 1,
        ;
        assert((q + 1) * s == q * s + s) by (nonlinear_arith);
    }
}

/// A later part ends no earlier.
pub proof fn lemma_range_end_mono(n: int, p: int, a: int, b: int)
    requires
        n >= 1,
        p >= 1,
        0 <= a <= b < p,
    ensures
        plan_range_end(n, p, a) <= plan_range_end(n, p, b),
{
    let s = part_size(n, p);
    assert((a + 1) * s <= (b + 1) * s) by (nonlinear_arith)
        requires
            a <= b,
            s >= 1,
    ;
}

/// The lookback walk from `k` ends at or before `k`, at the first tick or just after a tick more
/// than `w` older than tick `rb`.
pub proof fn lemma_lookback_le(ticks: Seq<TickData>, rb: int, k: int, w: u64)
    requires
        k >= 0,
    ensures
        0 <= lookback_from(ticks, rb, k, w) <= k,
        lookback_from(ticks, rb, k, w) > 0 ==> ts(ticks, rb) - ts(ticks, lookback_from(ticks, rb, k, w) - 1) > w,
    decreases k,
{
    if k > 0 {
        lemma_lookback_le(ticks, rb, k - 1, w);
    }
}

/// The first index at or before `range_begin` whose tick is at most `window_length` older than
/// tick `range_begin`, with every tick between.
///
/// The walk goes by timestamps alone, whatever the symbols. A window begin never lies further
/// back than `window_length` from the tick it serves (given a positive length), so this walk
/// reaches every tick that a window of a later tick can hold, whatever the symbols' tick rates.
fn lookback_begin(tick_datas: &Vec<TickData>, range_begin: usize, window_length: u64) -> (r: usize)
    requires
        range_begin < tick_datas.len(),
        timestamps_sorted(tick_datas@),
    ensures
        r == lookback_from(tick_datas@, range_begin as int, range_begin as int, window_length),
{
    let t = tick_datas[range_begin].timestamp;
    let mut lb: usize = range_begin;
    while lb > 0 && t - tick_datas[lb - 1].timestamp <= window_length
        invariant
            lb <= range_begin < tick_datas.len(),
            timestamps_sorted(tick_datas@),
            t == tick_datas@[range_begin as int].timestamp,
            lookback_from(tick_datas@, range_begin as int, range_begin as int, window_length)
                == lookback_from(tick_datas@, range_begin as int, lb as int, window_length),
        decreases lb,
    {
        lb = lb - 1;
    }
    lb
}

/// `r` holds the record of every tick, each as the part of the plan of `p` parts that emits it
/// computes it from its own lookback.
pub open spec fn split_records_match(r: Seq<OHLCData>, ticks: Seq<TickData>, p: int, w: u64) -> bool {
    let n = ticks.len() as int;
    &&& r.len() == n
    &&& forall|q: int, i: int|
        #![trigger plan_lookback(ticks, w, p, q), r[i]]
        0 <= q < p && plan_range_begin(n, p, q) <= i <= plan_range_end(n, p, q)
            ==> record_matches(r[i], ticks, plan_lookback(ticks, w, p, q), i, w)
}

/// `r` holds the record of every tick, as one scan from the first tick computes it.
pub open spec fn serial_records_match(r: Seq<OHLCData>, ticks: Seq<TickData>, w: u64) -> bool {
    &&& r.len() == ticks.len()
    &&& forall|i: int| 0 <= i < r.len() ==> record_matches(#[trigger] r[i], ticks, 0, i, w)
}

/// Relies on num_cpus::get, which counts the CPUs available to this process and always returns
/// at least 1.
#[verifier::external_body]
fn available_cpus() -> (r: usize)
    ensures
        r >= 1,
{
    num_cpus::get()
}

/// Concatenates the parts' records in part order.
pub fn merge_splits(splits: Vec<Vec<OHLCData>>) -> (r: Vec<OHLCData>)
    ensures
        r@ == splits@.map_values(|v: Vec<OHLCData>| v@).flatten(),
{
    let mut splits = splits;
    let ghost all = splits@.map_values(|v: Vec<OHLCData>| v@);
    let mut ohlc_datas: Vec<OHLCData> = Vec::new();
    let n = splits.len();
    let mut q: usize = 0;
    while q < n
        invariant
            n == splits.len(),
            q <= n,
            all.len() == n,
            forall|i: int| q <= i < n ==> (#[trigger] splits@[i])@ == all[i],
            ohlc_datas@ == all.take(q as int).flatten(),
        decreases n - q,
    {
        let mut part: Vec<OHLCData> = Vec::new();
        std::mem::swap(&mut part, &mut splits[q]);
        proof {
            assert(all.take(q + 1) =~= all.take(q as int).push(all[q as int]));
            all.take(q as int).lemma_flatten_push(all[q as int]);
        }
        ohlc_datas.append(&mut part);
        q = q + 1;
    }
    proof {
        assert(all.take(n as int) =~= all);
    }
    ohlc_datas
}

impl OHLCMaker {
    pub fn new() -> Self {
        OHLCMaker {}
    }

    /// Computes the record of every tick in one scan from the first tick.
    pub fn make_ohlc(&self, tick_datas: &Vec<TickData>, window_length: u64) -> (r: Vec<OHLCData>)
        requires
            timestamps_sorted(tick_datas@),
        ensures
            serial_records_match(r@, tick_datas@, window_length),
    {
        if tick_datas.len() == 0 {
            return Vec::new();
        }
        make_batch_ohlc(tick_datas, window_length, 0, tick_datas.len() - 1, 0)
    }

    /// Plans one part per available CPU.
    pub fn plan(&self, tick_datas: &Vec<TickData>, window_length: u64) -> (r: Vec<TickDataRangeIndex>)
        requires
            timestamps_sorted(tick_datas@),
        ensures
            tick_datas.len() == 0 ==> r.len() == 0,
            tick_datas.len() > 0 ==> r.len() >= 1 && plan_matches(r@, tick_datas@, r.len() as int, window_length),
    {
        let split_count = available_cpus();
        self.split_tick_data(tick_datas, split_count, window_length)
    }

    /// Computes the record of every tick part by part, each part scanning from its own lookback,
    /// and concatenates the parts in order. With a positive window length and no two ticks of one
    /// symbol exactly that length apart, this is the result of `make_ohlc` (see
    /// `lemma_split_equals_serial`).
    pub fn make_ohlc_split(&self, tick_datas: &Vec<TickData>, window_length: u64, split_count: usize) -> (r: Vec<OHLCData>)
        requires
            split_count >= 1,
            timestamps_sorted(tick_datas@),
        ensures
            split_records_match(r@, tick_datas@, split_count as int, window_length),
    {
        let ghost ticks = tick_datas@;
        let n = tick_datas.len();
        let splits = self.split_tick_data(tick_datas, split_count, window_length);
        let mut ohlc_datas: Vec<OHLCData> = Vec::new();
        if n == 0 {
            return ohlc_datas;
        }
        let ghost p = split_count as int;
        proof {
            lemma_plan_covers(n as int, p);
        }
        let mut q: usize = 0;
        while q < split_count
            invariant
                ticks == tick_datas@,
                n == ticks.len(),
                n >= 1,
                p == split_count,
                timestamps_sorted(ticks),
                plan_matches(splits@, ticks, p, window_length),
                q <= split_count,
                plan_range_begin(n as int, p, 0) == 0,
                plan_range_end(n as int, p, p - 1) == n - 1,
                forall|q2: int| 0 <= q2 < p - 1 ==> plan_range_end(n as int, p, q2) + 1 == #[trigger] plan_range_begin(n as int, p, q2 + 1),
                forall|q2: int| 0 <= q2 < p ==> 0 <= #[trigger] plan_range_begin(n as int, p, q2) <= plan_range_end(n as int, p, q2) + 1 <= n,
                ohlc_datas.len() == if q < split_count { plan_range_begin(n as int, p, q as int) } else { n as int },
                forall|q2: int, i: int|
                    #![trigger plan_lookback(ticks, window_length, p, q2), ohlc_datas@[i]]
                    0 <= q2 < q && plan_range_begin(n as int, p, q2) <= i <= plan_range_end(n as int, p, q2)
                        ==> record_matches(ohlc_datas@[i], ticks, plan_lookback(ticks, window_length, p, q2), i, window_length),
            decreases split_count - q,
        {
            let split = splits[q];
            proof {
                let rb = plan_range_begin(n as int, p, q as int);
                if q > 0 && rb < n {
                    lemma_lookback_le(ticks, rb, rb, window_length);
                }
            }
            let mut part = make_batch_ohlc(tick_datas, window_length, split.range_begin, split.range_end, split.window_begin);
            let ghost before = ohlc_datas@;
            let ghost part_view = part@;
            ohlc_datas.append(&mut part);
            proof {
                let rb = split.range_begin as int;
                assert forall|q2: int, i: int|
                    #![trigger plan_lookback(ticks, window_length, p, q2), ohlc_datas@[i]]
                    0 <= q2 < q + 1 && plan_range_begin(n as int, p, q2) <= i <= plan_range_end(n as int, p, q2)
                        implies record_matches(ohlc_datas@[i], ticks, plan_lookback(ticks, window_length, p, q2), i, window_length) by {
                    if q2 < q {
                        lemma_range_end_mono(n as int, p, q2, q - 1);
                        assert(plan_range_end(n as int, p, (q - 1) as int) + 1 == plan_range_begin(n as int, p, q as int));
                        assert(ohlc_datas@[i] == before[i]);
                    } else {
                        assert(ohlc_datas@[i] == part_view[i - rb]);
                    }
                }
            }
            q = q + 1;
        }
        ohlc_datas
    }

    /// Splits the ticks into `split_count` parts, one per worker: each part emits a contiguous
    /// range of indices, the last one takes the remainder, and each but the first looks back
    /// far enough to prime its windows.
    pub fn split_tick_data(&self, tick_datas: &Vec<TickData>, split_count: usize, window_length: u64) -> (r: Vec<TickDataRangeIndex>)
        requires
            split_count >= 1,
            timestamps_sorted(tick_datas@),
        ensures
            plan_matches(r@, tick_datas@, split_count as int, window_length),
    {
        let n = tick_datas.len();
        let mut splits: Vec<TickDataRangeIndex> = Vec::new();
        if n == 0 {
            return splits;
        }
        let mut split_size: usize = n / split_count;
        if split_size == 0 {
            split_size = 1;
        }
        proof {
            lemma_fundamental_div_mod(n as int, split_count as int);
        }
        let mut q: usize = 0;
        while q < split_count
            invariant
                n == tick_datas.len(),
                n >= 1,
                split_count >= 1,
                timestamps_sorted(tick_datas@),
                split_size == part_size(n as int, split_count as int),
                n as int == split_count * (n as int / split_count as int) + (n as int % split_count as int),
                q <= split_count,
                splits.len() == q,
                forall|i: int| 0 <= i < q ==> {
                    &&& (#[trigger] splits@[i]).range_begin == plan_range_begin(n as int, split_count as int, i)
                    &&& splits@[i].range_end == plan_range_end(n as int, split_count as int, i)
                    &&& splits@[i].window_begin == plan_lookback(tick_datas@, window_length, split_count as int, i)
                },
            decreases split_count - q,
        {
            proof {
                lemma_mul_inequality(q as int + 1, split_count as int, split_size as int);
                assert((q + 1) * split_size == q * split_size + split_size) by (nonlinear_arith);
                assert(split_count * split_size <= if split_size == 1 { split_count as int } else { n as int }) by (nonlinear_arith)
                    requires
                        split_size == 1 || split_size == n as int / split_count as int,
                        n as int == split_count * (n as int / split_count as int) + (n as int % split_count as int),
                        n as int % split_count as int >= 0,
                ;
            }
            let raw_begin = q * split_size;
            let range_begin = if raw_begin < n { raw_begin } else { n };
            let range_end = if q == split_count - 1 {
                n - 1
            } else {
                let x = (q + 1) * split_size - 1;
                if x < n - 1 { x } else { n - 1 }
            };
            let window_begin = if q == 0 || range_begin >= n {
                range_begin
            } else {
                lookback_begin(tick_datas, range_begin, window_length)
            };
            splits.push(TickDataRangeIndex { range_begin, range_end, window_begin });
            q = q + 1;
        }
        splits
    }
}

/// Computes the records of the ticks in `[range_begin, range_end]`, scanning from `window_begin`
/// so that the ticks before `range_begin` prime the windows without being emitted.
pub fn make_batch_ohlc(
    tick_datas: &Vec<TickData>,
    window_length: u64,
    range_begin: usize,
    range_end: usize,
    window_begin: usize,
) -> (r: Vec<OHLCData>)
    requires
        timestamps_sorted(tick_datas@),
        window_begin <= range_begin <= range_end + 1,
        range_end < tick_datas.len(),
    ensures
        r.len() == range_end + 1 - range_begin,
        forall|k: int| 0 <= k < r.len() ==> record_matches(#[trigger] r@[k], tick_datas@, window_begin as int, range_begin + k, window_length),
{
    let ghost ticks = tick_datas@;
    let ghost start = window_begin as int;
    let mut windows: StringHashMap<OHLCWindow> = StringHashMap::new();
    let mut ohlc_datas: Vec<OHLCData> = Vec::new();
    let mut index: usize = window_begin;
    while index <= range_end
        invariant
            ticks == tick_datas@,
            start == window_begin,
            timestamps_sorted(ticks),
            window_begin <= range_begin <= range_end + 1,
            range_end < tick_datas.len(),
            window_begin <= index <= range_end + 1,
            windows_model(windows@, ticks, start, index as int, window_length),
            ohlc_datas.len() == if index >= range_begin { index - range_begin } else { 0 },
            forall|k: int| 0 <= k < ohlc_datas.len() ==> record_matches(#[trigger] ohlc_datas@[k], ticks, start, range_begin + k, window_length),
        decreases range_end + 1 - index,
    {
        let tick = &tick_datas[index];
        let cur_price = tick.price;
        let ghost s = sym(ticks, index as int);
        let ghost old_windows = windows@;
        let ghost bm = begins_after(ticks, start, index as int, window_length);
        if !windows.contains_key(tick.symbol.as_str()) {
            windows.insert(tick.symbol.clone(), OHLCWindow {
                open: cur_price,
                high: cur_price,
                low: cur_price,
                begin_index: index,
            });
        } else {
            let mut window = *windows.get(tick.symbol.as_str()).unwrap();
            update_window(tick_datas, &mut window, cur_price, index, window_length);
            windows.insert(tick.symbol.clone(), window);
        }
        proof {
            let k = index as int + 1;
            assert(windows@.dom() =~= begins_after(ticks, start, k, window_length).dom());
            let bm2 = begins_after(ticks, start, k, window_length);
            assert forall|s2: Seq<char>| #[trigger] windows@.contains_key(s2) implies {
                let win = windows@[s2];
                &&& win.begin_index == bm2[s2]
                &&& start <= win.begin_index < k
                &&& sym(ticks, win.begin_index as int) == s2
                &&& win.open == px(ticks, win.begin_index as int)
                &&& win.high == range_high(ticks, s2, win.begin_index as int, k - 1)
                &&& win.low == range_low(ticks, s2, win.begin_index as int, k - 1)
            } by {
                if s2 != s {
                    assert(old_windows.contains_key(s2));
                    assert(windows@[s2] == old_windows[s2]);
                }
            }
        }
        if index >= range_begin {
            let window = *windows.get(tick.symbol.as_str()).unwrap();
            ohlc_datas.push(OHLCData {
                symbol: tick.symbol.clone(),
                timestamp: tick.timestamp,
                open: window.open,
                high: window.high,
                low: window.low,
                close: cur_price,
            });
        }
        index = index + 1;
    }
    ohlc_datas
}

/// Two records agree field by field.
pub open spec fn same_record(a: OHLCData, b: OHLCData) -> bool {
    &&& a.symbol@ == b.symbol@
    &&& a.timestamp == b.timestamp
    &&& a.open == b.open
    &&& a.high == b.high
    &&& a.low == b.low
    &&& a.close == b.close
}

/// Every index of `n` ticks lies in the range of some part.
pub proof fn lemma_plan_owner(n: int, p: int, i: int) -> (q: int)
    requires
        n >= 1,
        p >= 1,
        0 <= i < n,
    ensures
        0 <= q < p,
        plan_range_begin(n, p, q) <= i <= plan_range_end(n, p, q),
{
    let s = part_size(n, p);
    lemma_fundamental_div_mod(i, s);
    let q0 = i / s;
    let q = if q0 < p - 1 { q0 } else { p - 1 };
    assert(q0 >= 0) by (nonlinear_arith)
        requires
            i >= 0,
            s >= 1,
            q0 == i / s,
    ;
    lemma_mul_inequality(q, q0, s);
    assert(q * s <= i) by (nonlinear_arith)
        requires
            q * s <= q0 * s,
            i == s * q0 + i % s,
            i % s >= 0,
    ;
    if q == q0 {
        assert((q + 1) * s > i) by (nonlinear_arith)
            requires
                i == s * q0 + i % s,
                i % s < s,
                q == q0,
        ;
    }
    q
}

/// With a positive window length and no same-symbol gap of exactly that length, each part of a
/// plan computes, from its own lookback, the same record for each tick of its range as one scan
/// from the first tick does.
pub proof fn lemma_part_matches_serial(ticks: Seq<TickData>, w: u64, p: int, q: int, i: int)
    requires
        timestamps_sorted(ticks),
        w > 0,
        no_gap_of_exactly(ticks, w),
        p >= 1,
        0 <= q < p,
        plan_range_begin(ticks.len() as int, p, q) <= i <= plan_range_end(ticks.len() as int, p, q),
    ensures
        ohlc_model(ticks, plan_lookback(ticks, w, p, q), i, w) == ohlc_model(ticks, 0, i, w),
{
    let n = ticks.len() as int;
    lemma_plan_covers(n, p);
    let rb = plan_range_begin(n, p, q);
    let lb = plan_lookback(ticks, w, p, q);
    if q > 0 {
        lemma_lookback_le(ticks, rb, rb, w);
        let s = sym(ticks, i);
        let now = ts(ticks, i);
        lemma_window_begin(ticks, 0, i, w);
        lemma_window_begin(ticks, lb, i, w);
        lemma_first_in_window(ticks, s, 0, i, now, w);
        lemma_first_in_window(ticks, s, lb, i, now, w);
        assert(in_window(ticks, s, i, now, w));
        // the ticks before the lookback are all more than w older than tick i
        assert forall|j: int| 0 <= j < lb implies !#[trigger] in_window(ticks, s, j, now, w) by {
            assert(ticks[j].timestamp <= ticks[lb - 1].timestamp);
            assert(ticks[rb].timestamp <= ticks[i].timestamp);
        }
        let g0 = first_in_window(ticks, s, 0, i, now, w);
        let g1 = first_in_window(ticks, s, lb, i, now, w);
        if g0 < g1 {
            assert(in_window(ticks, s, g0, now, w));
        }
        if g1 < g0 {
            assert(in_window(ticks, s, g1, now, w));
        }
    }
}

/// With a positive window length and no two ticks of one symbol exactly that length apart, the
/// records computed part by part over any number of parts are those of one scan from the first
/// tick, index for index.
pub proof fn lemma_split_equals_serial(split: Seq<OHLCData>, serial: Seq<OHLCData>, ticks: Seq<TickData>, w: u64, p: int)
    requires
        timestamps_sorted(ticks),
        w > 0,
        no_gap_of_exactly(ticks, w),
        p >= 1,
        split_records_match(split, ticks, p, w),
        serial_records_match(serial, ticks, w),
    ensures
        split.len() == serial.len(),
        forall|i: int| 0 <= i < split.len() ==> same_record(#[trigger] split[i], serial[i]),
{
    let n = ticks.len() as int;
    assert forall|i: int| 0 <= i < split.len() implies same_record(#[trigger] split[i], serial[i]) by {
        let q = lemma_plan_owner(n, p, i);
        lemma_part_matches_serial(ticks, w, p, q, i);
        assert(record_matches(split[i], ticks, plan_lookback(ticks, w, p, q), i, w));
        assert(record_matches(serial[i], ticks, 0, i, w));
    }
}

/// A scan keeps no state between calls: two results for the same ticks and window length agree
/// record for record.
pub proof fn lemma_make_ohlc_repeatable(a: Seq<OHLCData>, b: Seq<OHLCData>, ticks: Seq<TickData>, w: u64)
    requires
        serial_records_match(a, ticks, w),
        serial_records_match(b, ticks, w),
    ensures
        a.len() == b.len(),
        forall|i: int| 0 <= i < a.len() ==> same_record(#[trigger] a[i], b[i]),
{
    assert forall|i: int| 0 <= i < a.len() implies same_record(#[trigger] a[i], b[i]) by {
        assert(record_matches(a[i], ticks, 0, i, w));
        assert(record_matches(b[i], ticks, 0, i, w));
    }
}

} // verus!
