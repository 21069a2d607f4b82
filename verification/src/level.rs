use vstd::prelude::*;

verus! {

/// Largest price the books accept, as a fixed-point integer with four
/// implied decimal digits. Bounding prices (and spacings) keeps every
/// dollar-cost total the books compute inside a 128-bit accumulator.
pub const MAX_PRICE: u64 = 0xFFFF_FFFF;

/// Largest volume a single price level may carry. Bounding lane volumes
/// keeps the four-lane running sums inside 64-bit words.
pub const MAX_VOLUME: u64 = 0xFFFF_FFFF;

/// A price: a non-negative USD amount with four implied decimal digits,
/// so `price_data == 10000` is one dollar. All price arithmetic is exact.
#[derive(Clone, Copy, Debug)]
pub struct PriceInfo {
    pub price_data: u64,
}

/// The outcome of matching a requested volume against part of a book:
/// the volume actually consumed, and its cost.
///
/// The cost unit is (volume unit) x (price unit): with volumes counted in
/// units of `1e-8` and prices in units of `1e-4` USD, `total_price` counts
/// units of `1e-12` USD.
#[derive(Clone, Copy, Debug)]
pub struct PriceVolInfo {
    pub total_price: u128,
    pub total_volume: u64,
}

/// A single buy order: one price level holding a resting volume.
/// A volume of zero means the level is absent.
#[derive(Clone, Copy, Debug)]
pub struct OrderInfo {
    pub price: PriceInfo,
    pub volume: u64,
}

impl OrderInfo {
    pub fn new(price: u64, volume: u64) -> (r: OrderInfo)
        ensures
            r.price.price_data == price,
            r.volume == volume,
    {
        OrderInfo { price: PriceInfo { price_data: price }, volume }
    }
}

} // verus!
