use vstd::prelude::*;

verus! {

/// Price of one tick, in signed integer ticks.
pub type Price = i32;

/// Quantity of an order, in whole units.
pub type Quantity = u32;

/// Identifier of an order, unique per book.
pub type OrderId = u64;

#[derive(Clone, Copy, Debug, PartialEq, Eq, Structural)]
pub enum OrderType {
    GoodTilCancel,
    ImmediateOrCancel,
    FillAndKill,
}

#[derive(Clone, Copy, Debug, PartialEq, Eq, Structural)]
pub enum Side {
    Buy,
    Sell,
}

/// A market-data snapshot of one price level: its price and the
/// total resting quantity there.
#[derive(Clone, Copy, Debug, PartialEq, Eq, Structural)]
pub struct LevelInfo {
    pub price: Price,
    pub qty: Quantity,
}

impl LevelInfo {
    pub fn init_level_info(price: Price, qty: Quantity) -> (r: Self)
        ensures
            r.price == price,
            r.qty == qty,
    {
        LevelInfo { price, qty }
    }
}

pub type LevelInfos = Vec<LevelInfo>;

/// Both sides of the book as market-data snapshots.
#[derive(Debug)]
pub struct OrderbookLevelInfos {
    pub bids: LevelInfos,
    pub asks: LevelInfos,
}

impl OrderbookLevelInfos {
    pub fn init_orderbook_levels(bids: LevelInfos, asks: LevelInfos) -> (r: Self)
        ensures
            r.bids@ == bids@,
            r.asks@ == asks@,
    {
        OrderbookLevelInfos { bids, asks }
    }

    pub fn get_bids(&self) -> (r: &LevelInfos)
        ensures
            r@ == self.bids@,
    {
        &self.bids
    }

    pub fn get_asks(&self) -> (r: &LevelInfos)
        ensures
            r@ == self.asks@,
    {
        &self.asks
    }
}

} // verus!
