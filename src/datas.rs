use vstd::prelude::*;

verus! {

/// One market update. Prices are fixed-point values in millionths of a unit.
#[derive(Clone, Debug)]
pub struct TickData {
    pub symbol: String,
    pub timestamp: u64,
    pub bid: u64,
    pub ask: u64,
    pub price: u64,
}

/// The mean of bid and ask, rounded down to a whole millionth.
pub open spec fn mean_price(bid: u64, ask: u64) -> int {
    (bid as int + ask as int) / 2
}

/// The price of a tick: the mean of its bid and ask.
pub fn compute_tick_price(bid: u64, ask: u64) -> (r: u64)
    ensures
        r as int == mean_price(bid, ask),
{
    let r = bid / 2 + ask / 2 + (bid % 2 + ask % 2) / 2;
    assert(r as int == mean_price(bid, ask)) by (nonlinear_arith)
        requires
            r as int == (bid / 2) as int + (ask / 2) as int + ((bid % 2) as int + (ask % 2) as int) / 2,
    ;
    r
}

impl TickData {
    /// A tick whose price is the mean of `bid` and `ask`.
    pub fn new(symbol: String, bid: u64, ask: u64, timestamp: u64) -> (r: Self)
        ensures
            r.symbol@ == symbol@,
            r.timestamp == timestamp,
            r.bid == bid,
            r.ask == ask,
            r.price as int == mean_price(bid, ask),
    {
        let mut tick = TickData { symbol, timestamp, bid, ask, price: 0 };
        tick.populate_price();
        tick
    }

    /// Sets the price to the mean of the tick's bid and ask.
    pub fn populate_price(&mut self)
        ensures
            final(self).symbol@ == old(self).symbol@,
            final(self).timestamp == old(self).timestamp,
            final(self).bid == old(self).bid,
            final(self).ask == old(self).ask,
            final(self).price as int == mean_price(old(self).bid, old(self).ask),
    {
        self.price = compute_tick_price(self.bid, self.ask);
    }
}

/// The trailing window of one symbol while a scan runs.
#[derive(Clone, Copy, Debug)]
pub struct OHLCWindow {
    pub open: u64,
    pub high: u64,
    pub low: u64,
    /// Index, into the whole tick sequence, of the earliest tick in the window.
    pub begin_index: usize,
}

/// One output record: the window's open, high and low at a tick, and the tick's price as close.
#[derive(Clone, Debug, PartialEq, Eq)]
pub struct OHLCData {
    pub symbol: String,
    pub timestamp: u64,
    pub open: u64,
    pub high: u64,
    pub low: u64,
    pub close: u64,
}

} // verus!
