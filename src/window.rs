use vstd::prelude::*;
use crate::datas::{OHLCData, OHLCWindow, TickData};

verus! {

/// Symbol of tick `i`.
pub open spec fn sym(ticks: Seq<TickData>, i: int) -> Seq<char> {
    ticks[i].symbol@
}

/// Timestamp of tick `i`, in milliseconds.
pub open spec fn ts(ticks: Seq<TickData>, i: int) -> int {
    ticks[i].timestamp as int
}

/// Price of tick `i`.
pub open spec fn px(ticks: Seq<TickData>, i: int) -> int {
    ticks[i].price as int
}

/// Timestamps never decrease along the sequence.
pub open spec fn timestamps_sorted(ticks: Seq<TickData>) -> bool {
    forall|j: int, k: int| 0 <= j <= k < ticks.len() ==> ticks[j].timestamp <= ticks[k].timestamp
}

/// Tick `j` has symbol `s` and is less than `w` milliseconds older than `now`.
pub open spec fn in_window(ticks: Seq<TickData>, s: Seq<char>, j: int, now: int, w: u64) -> bool {
    sym(ticks, j) == s && now - ts(ticks, j) < w
}

/// The first index in `[lo, hi]` that is `in_window`, or `hi + 1` where there is none.
pub open spec fn first_in_window(ticks: Seq<TickData>, s: Seq<char>, lo: int, hi: int, now: int, w: u64) -> int
    decreases hi + 1 - lo,
{
    if lo > hi {
        hi + 1
    } else if in_window(ticks, s, lo, now, w) {
        lo
    } else {
        first_in_window(ticks, s, lo + 1, hi, now, w)
    }
}

/// Where the window of the symbol of tick `i` begins after tick `i`, given that it began at `b`
/// before: unchanged while tick `b` is at most `w` older; otherwise the first tick of the symbol
/// after `b` that is less than `w` older than tick `i`, or still `b` where there is none.
pub open spec fn next_begin(ticks: Seq<TickData>, b: int, i: int, w: u64) -> int {
    if ts(ticks, i) - ts(ticks, b) > w {
        let j = first_in_window(ticks, sym(ticks, i), b + 1, i, ts(ticks, i), w);
        if j <= i { j } else { b }
    } else {
        b
    }
}

/// The window begin of each symbol seen after a scan of the ticks in `[start, k)`.
pub open spec fn begins_after(ticks: Seq<TickData>, start: int, k: int, w: u64) -> Map<Seq<char>, int>
    decreases k - start,
{
    if k <= start {
        Map::empty()
    } else {
        let m = begins_after(ticks, start, k - 1, w);
        let s = sym(ticks, k - 1);
        if !m.contains_key(s) {
            m.insert(s, k - 1)
        } else {
            m.insert(s, next_begin(ticks, m[s], k - 1, w))
        }
    }
}

/// The window begin of the symbol of tick `i` once a scan from `start` has taken tick `i`.
pub open spec fn window_begin(ticks: Seq<TickData>, start: int, i: int, w: u64) -> int {
    begins_after(ticks, start, i + 1, w)[sym(ticks, i)]
}

/// The highest price among the ticks of symbol `s` in `[lo, hi]`, where tick `lo` has symbol `s`.
pub open spec fn range_high(ticks: Seq<TickData>, s: Seq<char>, lo: int, hi: int) -> int
    decreases hi - lo,
{
    if hi <= lo {
        px(ticks, lo)
    } else {
        let r = range_high(ticks, s, lo, hi - 1);
        if sym(ticks, hi) == s && px(ticks, hi) > r { px(ticks, hi) } else { r }
    }
}

/// The lowest price among the ticks of symbol `s` in `[lo, hi]`, where tick `lo` has symbol `s`.
pub open spec fn range_low(ticks: Seq<TickData>, s: Seq<char>, lo: int, hi: int) -> int
    decreases hi - lo,
{
    if hi <= lo {
        px(ticks, lo)
    } else {
        let r = range_low(ticks, s, lo, hi - 1);
        if sym(ticks, hi) == s && px(ticks, hi) < r { px(ticks, hi) } else { r }
    }
}

/// Open, high, low and close of the record for tick `i` of a scan that starts at `start`.
pub open spec fn ohlc_model(ticks: Seq<TickData>, start: int, i: int, w: u64) -> (int, int, int, int) {
    let b = window_begin(ticks, start, i, w);
    let s = sym(ticks, i);
    (px(ticks, b), range_high(ticks, s, b, i), range_low(ticks, s, b, i), px(ticks, i))
}

/// `r` is the record for tick `i` of a scan that starts at `start`.
pub open spec fn record_matches(r: OHLCData, ticks: Seq<TickData>, start: int, i: int, w: u64) -> bool {
    &&& r.symbol@ == sym(ticks, i)
    &&& r.timestamp == ticks[i].timestamp
    &&& (r.open as int, r.high as int, r.low as int, r.close as int) == ohlc_model(ticks, start, i, w)
}

/// The windows `m` agree with a scan of `[start, k)`.
pub open spec fn windows_model(m: Map<Seq<char>, OHLCWindow>, ticks: Seq<TickData>, start: int, k: int, w: u64) -> bool {
    let bm = begins_after(ticks, start, k, w);
    &&& m.dom() == bm.dom()
    &&& forall|s: Seq<char>| #[trigger] m.contains_key(s) ==> {
        let win = m[s];
        &&& win.begin_index == bm[s]
        &&& start <= win.begin_index < k
        &&& sym(ticks, win.begin_index as int) == s
        &&& win.open == px(ticks, win.begin_index as int)
        &&& win.high == range_high(ticks, s, win.begin_index as int, k - 1)
        &&& win.low == range_low(ticks, s, win.begin_index as int, k - 1)
    }
}

fn in_window_exec(ticks: &Vec<TickData>, cur: usize, j: usize, now: u64, window_length: u64) -> (r: bool)
    requires
        j <= cur < ticks.len(),
        timestamps_sorted(ticks@),
        now == ticks@[cur as int].timestamp,
    ensures
        r == in_window(ticks@, sym(ticks@, cur as int), j as int, now as int, window_length),
{
    ticks[j].symbol == ticks[cur].symbol && now - ticks[j].timestamp < window_length
}

/// Moves the window of the symbol of tick `cur_index` on to take that tick in.
///
/// Where the window has gone stale and no tick of the symbol after its begin is less than
/// `window_length` older than the current tick, the begin stays where it is and high and low
/// take in the ticks since. With a positive length the current tick itself always qualifies, so
/// this happens only with a length of zero.
pub fn update_window(
    tick_datas: &Vec<TickData>,
    window: &mut OHLCWindow,
    cur_price: u64,
    cur_index: usize,
    window_length: u64,
)
    requires
        cur_index < tick_datas.len(),
        timestamps_sorted(tick_datas@),
        cur_price == tick_datas@[cur_index as int].price,
        old(window).begin_index < cur_index,
        sym(tick_datas@, old(window).begin_index as int) == sym(tick_datas@, cur_index as int),
        old(window).open == px(tick_datas@, old(window).begin_index as int),
        old(window).high == range_high(tick_datas@, sym(tick_datas@, cur_index as int), old(window).begin_index as int, cur_index - 1),
        old(window).low == range_low(tick_datas@, sym(tick_datas@, cur_index as int), old(window).begin_index as int, cur_index - 1),
    ensures
        final(window).begin_index == next_begin(tick_datas@, old(window).begin_index as int, cur_index as int, window_length),
        old(window).begin_index <= final(window).begin_index <= cur_index,
        sym(tick_datas@, final(window).begin_index as int) == sym(tick_datas@, cur_index as int),
        final(window).open == px(tick_datas@, final(window).begin_index as int),
        final(window).high == range_high(tick_datas@, sym(tick_datas@, cur_index as int), final(window).begin_index as int, cur_index as int),
        final(window).low == range_low(tick_datas@, sym(tick_datas@, cur_index as int), final(window).begin_index as int, cur_index as int),
{
    let ghost ticks = tick_datas@;
    let ghost s = sym(ticks, cur_index as int);
    let cur_ts = tick_datas[cur_index].timestamp;
    let begin_ts = tick_datas[window.begin_index].timestamp;
    if cur_ts - begin_ts > window_length {
        // find the first tick of the symbol that is still inside the window
        let b0 = window.begin_index;
        let mut j: usize = b0 + 1;
        while j <= cur_index && !in_window_exec(tick_datas, cur_index, j, cur_ts, window_length)
            invariant
                b0 < j <= cur_index + 1,
                cur_index < tick_datas.len(),
                timestamps_sorted(tick_datas@),
                cur_ts == tick_datas@[cur_index as int].timestamp,
                first_in_window(ticks, s, b0 + 1, cur_index as int, cur_ts as int, window_length)
                    == first_in_window(ticks, s, j as int, cur_index as int, cur_ts as int, window_length),
                ticks == tick_datas@,
                s == sym(ticks, cur_index as int),
            decreases cur_index + 1 - j,
        {
            j = j + 1;
        }
        if j <= cur_index {
            window.begin_index = j;
            window.open = tick_datas[j].price;
            window.high = window.open;
            window.low = window.open;
        }
        // then recompute high and low over the symbol's ticks after the new begin
        let begin = window.begin_index;
        let ghost high0 = window.high as int;
        let ghost low0 = window.low as int;
        proof {
            if j > cur_index {
                lemma_range_step(ticks, s, begin as int, cur_index as int);
                lemma_range_bounds(ticks, s, begin as int, cur_index - 1);
            }
            lemma_range_bounds(ticks, s, begin as int, cur_index as int);
        }
        let mut k: usize = begin + 1;
        while k <= cur_index
            invariant
                begin < k <= cur_index + 1,
                cur_index < tick_datas.len(),
                ticks == tick_datas@,
                s == sym(ticks, cur_index as int),
                window.begin_index == begin,
                window.open == px(ticks, begin as int),
                sym(ticks, begin as int) == s,
                high0 <= range_high(ticks, s, begin as int, cur_index as int),
                low0 >= range_low(ticks, s, begin as int, cur_index as int),
                window.high as int == if high0 > range_high(ticks, s, begin as int, k - 1) { high0 } else { range_high(ticks, s, begin as int, k - 1) },
                window.low as int == if low0 < range_low(ticks, s, begin as int, k - 1) { low0 } else { range_low(ticks, s, begin as int, k - 1) },
            decreases cur_index + 1 - k,
        {
            if tick_datas[k].symbol == tick_datas[cur_index].symbol {
                let price = tick_datas[k].price;
                if price > window.high {
                    window.high = price;
                }
                if price < window.low {
                    window.low = price;
                }
            }
            k = k + 1;
        }
    } else {
        if cur_price > window.high {
            window.high = cur_price;
        }
        if cur_price < window.low {
            window.low = cur_price;
        }
    }
}

/// The range high is at least the price at `lo` and the range low at most; both are prices of
/// ticks, so they fit in a `u64`.
pub proof fn lemma_range_bounds(ticks: Seq<TickData>, s: Seq<char>, lo: int, hi: int)
    requires
        0 <= lo,
        hi < ticks.len(),
    ensures
        range_high(ticks, s, lo, hi) >= px(ticks, lo),
        range_low(ticks, s, lo, hi) <= px(ticks, lo),
        0 <= range_low(ticks, s, lo, hi) <= range_high(ticks, s, lo, hi) <= u64::MAX,
    decreases hi - lo,
{
    if hi > lo {
        lemma_range_bounds(ticks, s, lo, hi - 1);
    }
}

/// Widening a range by one tick only raises the high and lowers the low.
pub proof fn lemma_range_step(ticks: Seq<TickData>, s: Seq<char>, lo: int, hi: int)
    requires
        0 <= lo < hi < ticks.len(),
    ensures
        range_high(ticks, s, lo, hi - 1) <= range_high(ticks, s, lo, hi),
        range_low(ticks, s, lo, hi - 1) >= range_low(ticks, s, lo, hi),
{
}

/// No two ticks of one symbol lie exactly `w` apart.
pub open spec fn no_gap_of_exactly(ticks: Seq<TickData>, w: u64) -> bool {
    forall|j: int, i: int|
        0 <= j < i < ticks.len() && sym(ticks, j) == sym(ticks, i) ==> ts(ticks, i) - ts(ticks, j) != w
}

/// The last index in `[start, k)` of a tick of symbol `s`, or `start - 1` where there is none.
pub open spec fn last_of(ticks: Seq<TickData>, s: Seq<char>, start: int, k: int) -> int
    decreases k - start,
{
    if k <= start {
        start - 1
    } else if sym(ticks, k - 1) == s {
        k - 1
    } else {
        last_of(ticks, s, start, k - 1)
    }
}

/// What `first_in_window` finds: every index before it is outside the window, and it is in the
/// window unless it is `hi + 1`.
pub proof fn lemma_first_in_window(ticks: Seq<TickData>, s: Seq<char>, lo: int, hi: int, now: int, w: u64)
    requires
        lo <= hi + 1,
    ensures
        lo <= first_in_window(ticks, s, lo, hi, now, w) <= hi + 1,
        forall|j: int| lo <= j < first_in_window(ticks, s, lo, hi, now, w) ==> !#[trigger] in_window(ticks, s, j, now, w),
        first_in_window(ticks, s, lo, hi, now, w) <= hi ==> in_window(ticks, s, first_in_window(ticks, s, lo, hi, now, w), now, w),
    decreases hi + 1 - lo,
{
    if lo <= hi && !in_window(ticks, s, lo, now, w) {
        lemma_first_in_window(ticks, s, lo + 1, hi, now, w);
    }
}

/// `last_of` finds the last tick of the symbol: none of the ticks after it has the symbol.
pub proof fn lemma_last_of(ticks: Seq<TickData>, s: Seq<char>, start: int, k: int)
    requires
        start <= k,
    ensures
        start - 1 <= last_of(ticks, s, start, k) < k,
        last_of(ticks, s, start, k) >= start ==> sym(ticks, last_of(ticks, s, start, k)) == s,
        forall|j: int| last_of(ticks, s, start, k) < j < k ==> sym(ticks, j) != s,
    decreases k - start,
{
    if k > start && sym(ticks, k - 1) != s {
        lemma_last_of(ticks, s, start, k - 1);
    }
}

/// With a positive window length and no same-symbol gap of exactly that length, the window of
/// each symbol after a scan of `[start, k)` begins at the first tick of the symbol that is less
/// than the window length older than the symbol's last tick.
pub proof fn lemma_begins_after(ticks: Seq<TickData>, start: int, k: int, w: u64)
    requires
        timestamps_sorted(ticks),
        w > 0,
        no_gap_of_exactly(ticks, w),
        0 <= start <= k <= ticks.len(),
    ensures
        forall|s: Seq<char>| #[trigger] begins_after(ticks, start, k, w).contains_key(s) <==> last_of(ticks, s, start, k) >= start,
        forall|s: Seq<char>| #[trigger] begins_after(ticks, start, k, w).contains_key(s) ==>
            begins_after(ticks, start, k, w)[s] == first_in_window(ticks, s, start, last_of(ticks, s, start, k), ts(ticks, last_of(ticks, s, start, k)), w),
    decreases k - start,
{
    if k > start {
        lemma_begins_after(ticks, start, k - 1, w);
        let i = k - 1;
        let s0 = sym(ticks, i);
        let m = begins_after(ticks, start, i, w);
        let now = ts(ticks, i);
        lemma_first_in_window(ticks, s0, start, i, now, w);
        assert(in_window(ticks, s0, i, now, w));
        lemma_last_of(ticks, s0, start, i);
        if m.contains_key(s0) {
            let last = last_of(ticks, s0, start, i);
            let b = m[s0];
            lemma_first_in_window(ticks, s0, start, last, ts(ticks, last), w);
            assert(in_window(ticks, s0, last, ts(ticks, last), w));
            // no tick of the symbol before b is in the window of tick i
            assert forall|j: int| start <= j < b implies !#[trigger] in_window(ticks, s0, j, now, w) by {
                assert(!in_window(ticks, s0, j, ts(ticks, last), w));
            }
            if now - ts(ticks, b) > w {
                lemma_first_in_window(ticks, s0, b + 1, i, now, w);
                let f = first_in_window(ticks, s0, b + 1, i, now, w);
                assert(!in_window(ticks, s0, b, now, w));
                assert forall|j: int| start <= j < f implies !#[trigger] in_window(ticks, s0, j, now, w) by {
                    if j > b {
                        assert(b + 1 <= j);
                    }
                }
                let g = first_in_window(ticks, s0, start, i, now, w);
                if g < f {
                    assert(in_window(ticks, s0, g, now, w));
                }
                if f < g {
                    assert(!in_window(ticks, s0, f, now, w));
                }
            } else {
                assert(in_window(ticks, s0, b, now, w));
                let g = first_in_window(ticks, s0, start, i, now, w);
                if g < b {
                    assert(in_window(ticks, s0, g, now, w));
                }
                if b < g {
                    assert(!in_window(ticks, s0, b, now, w));
                }
            }
        } else {
            assert forall|j: int| start <= j < i implies !#[trigger] in_window(ticks, s0, j, now, w) by {
            }
        }
        let m2 = begins_after(ticks, start, k, w);
        assert forall|s: Seq<char>| #[trigger] m2.contains_key(s) <==> last_of(ticks, s, start, k) >= start by {
            if s != s0 {
                assert(last_of(ticks, s, start, k) == last_of(ticks, s, start, i));
            }
        }
        assert forall|s: Seq<char>| #[trigger] m2.contains_key(s) implies
            m2[s] == first_in_window(ticks, s, start, last_of(ticks, s, start, k), ts(ticks, last_of(ticks, s, start, k)), w) by {
            if s != s0 {
                assert(last_of(ticks, s, start, k) == last_of(ticks, s, start, i));
            }
        }
    }
}

/// With a positive window length and no same-symbol gap of exactly that length, the window of
/// tick `i` begins at the first tick of its symbol, from `start` on, that is less than the window
/// length older than tick `i`.
pub proof fn lemma_window_begin(ticks: Seq<TickData>, start: int, i: int, w: u64)
    requires
        timestamps_sorted(ticks),
        w > 0,
        no_gap_of_exactly(ticks, w),
        0 <= start <= i < ticks.len(),
    ensures
        window_begin(ticks, start, i, w) == first_in_window(ticks, sym(ticks, i), start, i, ts(ticks, i), w),
{
    lemma_begins_after(ticks, start, i + 1, w);
    let s = sym(ticks, i);
    assert(last_of(ticks, s, start, i + 1) == i);
    assert(begins_after(ticks, start, i + 1, w).contains_key(s));
}

/// The range high is the price of a tick of the symbol in the range that no tick of the symbol
/// in the range exceeds; the range low likewise from below.
pub proof fn lemma_range_extremes(ticks: Seq<TickData>, s: Seq<char>, lo: int, hi: int)
    requires
        0 <= lo <= hi < ticks.len(),
        sym(ticks, lo) == s,
    ensures
        forall|j: int| lo <= j <= hi && sym(ticks, j) == s ==> range_low(ticks, s, lo, hi) <= #[trigger] px(ticks, j) <= range_high(ticks, s, lo, hi),
        exists|j: int| lo <= j <= hi && sym(ticks, j) == s && #[trigger] px(ticks, j) == range_high(ticks, s, lo, hi),
        exists|j: int| lo <= j <= hi && sym(ticks, j) == s && #[trigger] px(ticks, j) == range_low(ticks, s, lo, hi),
    decreases hi - lo,
{
    if hi > lo {
        lemma_range_extremes(ticks, s, lo, hi - 1);
        let jh = choose|j: int| lo <= j <= hi - 1 && sym(ticks, j) == s && #[trigger] px(ticks, j) == range_high(ticks, s, lo, hi - 1);
        let jl = choose|j: int| lo <= j <= hi - 1 && sym(ticks, j) == s && #[trigger] px(ticks, j) == range_low(ticks, s, lo, hi - 1);
        if sym(ticks, hi) == s && px(ticks, hi) > range_high(ticks, s, lo, hi - 1) {
            assert(px(ticks, hi) == range_high(ticks, s, lo, hi));
        } else {
            assert(px(ticks, jh) == range_high(ticks, s, lo, hi));
        }
        if sym(ticks, hi) == s && px(ticks, hi) < range_low(ticks, s, lo, hi - 1) {
            assert(px(ticks, hi) == range_low(ticks, s, lo, hi));
        } else {
            assert(px(ticks, jl) == range_low(ticks, s, lo, hi));
        }
    } else {
        assert(px(ticks, lo) == range_high(ticks, s, lo, hi));
    }
}

/// After a scan of `[start, k)` a symbol has a window exactly where one of its ticks was
/// scanned, and that window begins at one of its ticks in `[start, k)`.
pub proof fn lemma_begins_after_bounds(ticks: Seq<TickData>, start: int, k: int, w: u64)
    requires
        0 <= start <= k <= ticks.len(),
    ensures
        forall|s: Seq<char>| #[trigger] begins_after(ticks, start, k, w).contains_key(s) <==> last_of(ticks, s, start, k) >= start,
        forall|s: Seq<char>| #[trigger] begins_after(ticks, start, k, w).contains_key(s) ==> {
            let b = begins_after(ticks, start, k, w)[s];
            &&& start <= b < k
            &&& sym(ticks, b) == s
        },
    decreases k - start,
{
    if k > start {
        lemma_begins_after_bounds(ticks, start, k - 1, w);
        let i = k - 1;
        let s0 = sym(ticks, i);
        let m = begins_after(ticks, start, i, w);
        if m.contains_key(s0) {
            lemma_first_in_window(ticks, s0, m[s0] + 1, i, ts(ticks, i), w);
        }
        let m2 = begins_after(ticks, start, k, w);
        assert forall|s: Seq<char>| #[trigger] m2.contains_key(s) <==> last_of(ticks, s, start, k) >= start by {
            if s != s0 {
                assert(last_of(ticks, s, start, k) == last_of(ticks, s, start, i));
            }
        }
    }
}

/// The window of tick `i` begins at a tick of its symbol in `[start, i]`.
pub proof fn lemma_window_begin_bounds(ticks: Seq<TickData>, start: int, i: int, w: u64)
    requires
        0 <= start <= i < ticks.len(),
    ensures
        start <= window_begin(ticks, start, i, w) <= i,
        sym(ticks, window_begin(ticks, start, i, w)) == sym(ticks, i),
{
    lemma_begins_after_bounds(ticks, start, i + 1, w);
    assert(last_of(ticks, sym(ticks, i), start, i + 1) == i);
    assert(begins_after(ticks, start, i + 1, w).contains_key(sym(ticks, i)));
}

/// With a positive window length and no same-symbol gap of exactly that length, the record of
/// tick `i` summarises its trailing window: the window begins at the earliest tick of the symbol
/// (from `start` on) less than the window length older than tick `i`, open is that tick's price,
/// and high and low are the largest and smallest price of the symbol's ticks in the window.
pub proof fn lemma_record_is_window_summary(ticks: Seq<TickData>, start: int, i: int, w: u64)
    requires
        timestamps_sorted(ticks),
        w > 0,
        no_gap_of_exactly(ticks, w),
        0 <= start <= i < ticks.len(),
    ensures
        ({
            let s = sym(ticks, i);
            let b = window_begin(ticks, start, i, w);
            let (open, high, low, close) = ohlc_model(ticks, start, i, w);
            &&& start <= b <= i
            &&& in_window(ticks, s, b, ts(ticks, i), w)
            &&& forall|j: int| start <= j < b ==> !#[trigger] in_window(ticks, s, j, ts(ticks, i), w)
            &&& open == px(ticks, b)
            &&& close == px(ticks, i)
            &&& forall|j: int| start <= j <= i && #[trigger] in_window(ticks, s, j, ts(ticks, i), w) ==> low <= px(ticks, j) <= high
            &&& exists|j: int| start <= j <= i && #[trigger] in_window(ticks, s, j, ts(ticks, i), w) && px(ticks, j) == high
            &&& exists|j: int| start <= j <= i && #[trigger] in_window(ticks, s, j, ts(ticks, i), w) && px(ticks, j) == low
        }),
{
    let s = sym(ticks, i);
    let now = ts(ticks, i);
    lemma_window_begin(ticks, start, i, w);
    lemma_first_in_window(ticks, s, start, i, now, w);
    assert(in_window(ticks, s, i, now, w));
    let b = window_begin(ticks, start, i, w);
    lemma_range_extremes(ticks, s, b, i);
    assert forall|j: int| start <= j <= i && #[trigger] in_window(ticks, s, j, now, w) implies
        range_low(ticks, s, b, i) <= px(ticks, j) <= range_high(ticks, s, b, i) by {
        assert(b <= j);
    }
    // every tick of the symbol from b on is in the window
    assert forall|j: int| b <= j <= i && sym(ticks, j) == s implies #[trigger] in_window(ticks, s, j, now, w) by {
        assert(ticks[b].timestamp <= ticks[j].timestamp);
    }
    let jh = choose|j: int| b <= j <= i && sym(ticks, j) == s && #[trigger] px(ticks, j) == range_high(ticks, s, b, i);
    let jl = choose|j: int| b <= j <= i && sym(ticks, j) == s && #[trigger] px(ticks, j) == range_low(ticks, s, b, i);
    assert(in_window(ticks, s, jh, now, w));
    assert(in_window(ticks, s, jl, now, w));
}

/// The first record of a symbol in a scan has open, high, low and close all equal to the price
/// of its tick.
pub proof fn lemma_first_tick_of_symbol(ticks: Seq<TickData>, start: int, i: int, w: u64)
    requires
        0 <= start <= i < ticks.len(),
        forall|j: int| start <= j < i ==> sym(ticks, j) != sym(ticks, i),
    ensures
        ohlc_model(ticks, start, i, w) == (px(ticks, i), px(ticks, i), px(ticks, i), px(ticks, i)),
{
    lemma_begins_after_bounds(ticks, start, i, w);
    lemma_last_of(ticks, sym(ticks, i), start, i);
    assert(!begins_after(ticks, start, i, w).contains_key(sym(ticks, i)));
}

/// With a window length of zero, a record has open, high, low and close all equal to its tick's
/// price wherever every earlier tick of its symbol in the scan had that same price.
pub proof fn lemma_zero_window(ticks: Seq<TickData>, start: int, i: int)
    requires
        0 <= start <= i < ticks.len(),
        forall|j: int| start <= j < i && sym(ticks, j) == sym(ticks, i) ==> px(ticks, j) == px(ticks, i),
    ensures
        ohlc_model(ticks, start, i, 0) == (px(ticks, i), px(ticks, i), px(ticks, i), px(ticks, i)),
{
    let s = sym(ticks, i);
    lemma_window_begin_bounds(ticks, start, i, 0);
    let b = window_begin(ticks, start, i, 0);
    lemma_range_extremes(ticks, s, b, i);
    let jh = choose|j: int| b <= j <= i && sym(ticks, j) == s && #[trigger] px(ticks, j) == range_high(ticks, s, b, i);
    let jl = choose|j: int| b <= j <= i && sym(ticks, j) == s && #[trigger] px(ticks, j) == range_low(ticks, s, b, i);
    if jh < i {
        assert(px(ticks, jh) == px(ticks, i));
    }
    if jl < i {
        assert(px(ticks, jl) == px(ticks, i));
    }
    if b < i {
        assert(px(ticks, b) == px(ticks, i));
    }
}

} // verus!
