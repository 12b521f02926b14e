use vstd::prelude::*;
use crate::datas::{mean_price, TickData};
use crate::window::timestamps_sorted;

verus! {

/// Timestamp of the first generated tick, in milliseconds.
pub const MOCK_START_TIME: u64 = 1662022800000;

/// Bid of every generated tick, in millionths.
pub const MOCK_BID: u64 = 1122000;

/// Ask of every generated tick, in millionths.
pub const MOCK_ASK: u64 = 1123000;

/// Supplies tick sequences.
pub struct TickGenerator {}

impl TickGenerator {
    pub fn new() -> Self {
        TickGenerator {}
    }

    /// `size` ticks of symbol "s", one per millisecond from `MOCK_START_TIME`, all with bid
    /// `MOCK_BID` and ask `MOCK_ASK`.
    pub fn from_mock(&self, size: usize) -> (r: Vec<TickData>)
        requires
            size <= u64::MAX - MOCK_START_TIME,
        ensures
            r.len() == size,
            timestamps_sorted(r@),
            forall|i: int| 0 <= i < size ==> {
                &&& (#[trigger] r@[i]).symbol@ == seq!['s']
                &&& r@[i].timestamp == MOCK_START_TIME + i
                &&& r@[i].bid == MOCK_BID
                &&& r@[i].ask == MOCK_ASK
                &&& r@[i].price as int == mean_price(MOCK_BID, MOCK_ASK)
            },
    {
        let mut tick_datas: Vec<TickData> = Vec::new();
        let mut i: usize = 0;
        while i < size
            invariant
                i <= size,
                size <= u64::MAX - MOCK_START_TIME,
                tick_datas.len() == i,
                forall|k: int| 0 <= k < i ==> {
                    &&& (#[trigger] tick_datas@[k]).symbol@ == seq!['s']
                    &&& tick_datas@[k].timestamp == MOCK_START_TIME + k
                    &&& tick_datas@[k].bid == MOCK_BID
                    &&& tick_datas@[k].ask == MOCK_ASK
                    &&& tick_datas@[k].price as int == mean_price(MOCK_BID, MOCK_ASK)
                },
            decreases size - i,
        {
            let symbol = "s".to_string();
            proof {
                reveal_strlit("s");
                assert(symbol@ =~= seq!['s']);
            }
            tick_datas.push(TickData::new(symbol, MOCK_BID, MOCK_ASK, MOCK_START_TIME + i as u64));
            i = i + 1;
        }
        tick_datas
    }
}

} // verus!
