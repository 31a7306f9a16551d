use vstd::prelude::*;

verus! {

/// One fixed-duration OHLCV bar.
///
/// `open_time` and `close_time` are milliseconds since the Unix epoch; both
/// bounds of the bar are inclusive, so `open_time <= close_time`. The decimal
/// quantities are kept as exact-text strings, and the reserved field is
/// preserved verbatim.
pub struct Record {
    pub open_time: i64,
    pub open_price: String,
    pub high: String,
    pub low: String,
    pub close: String,
    pub volume: String,
    pub close_time: i64,
    pub quote_volume: String,
    pub num_of_trades: u64,
    pub taker_buy_base_vol: String,
    pub taker_buy_quote_vol: String,
    pub unused: String,
}

/// The records are in strictly ascending `open_time` order.
pub open spec fn ascending(s: Seq<Record>) -> bool {
    forall|i: int, j: int| 0 <= i < j < s.len() ==> s[i].open_time < s[j].open_time
}

/// Every record opens strictly before time `t`.
pub open spec fn all_open_below(s: Seq<Record>, t: int) -> bool {
    forall|i: int| 0 <= i < s.len() ==> #[trigger] s[i].open_time < t
}

/// Every record opens at or after time `t`.
pub open spec fn all_open_at_least(s: Seq<Record>, t: int) -> bool {
    forall|i: int| 0 <= i < s.len() ==> #[trigger] s[i].open_time >= t
}

/// Some record in `s` opens exactly at time `t`.
pub open spec fn has_open_time(s: Seq<Record>, t: int) -> bool {
    exists|i: int| 0 <= i < s.len() && #[trigger] s[i].open_time == t
}

} // verus!
