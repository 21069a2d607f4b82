// Lane-level behavior of a single four-wide price group. Volumes count
// 1e-8 units; costs count 1e-12 USD.

use order_book::group::OrderInfo4;
use order_book::level::{OrderInfo, PriceInfo};

fn vol(units: f64) -> u64 {
    (units * 1e8).round() as u64
}

#[test]
fn group_seeding_places_one_lane() {
    let group = OrderInfo4::new(&OrderInfo::new(300, vol(0.3)), 100);
    assert_eq!(group.get_start_price(), 0);
    assert_eq!(group.get_dollar_prices4(), [0, 100, 200, 300]);
    assert!(group.contains_price(PriceInfo { price_data: 300 }));
    assert!(group.contains_price(PriceInfo { price_data: 0 }));
    assert!(!group.contains_price(PriceInfo { price_data: 400 }));
    assert!(!group.contains_price(PriceInfo { price_data: 250 }));
    assert_eq!(group.volume_cumsum(), [0, 0, 0, vol(0.3)]);
    assert!(!group.is_empty());
}

#[test]
fn group_update_overwrites_exact_lane_only() {
    let mut group = OrderInfo4::new(&OrderInfo::new(300, vol(0.3)), 100);
    assert!(group.update(OrderInfo::new(200, vol(0.2))));
    assert_eq!(group.volume_cumsum(), [0, 0, vol(0.2), vol(0.5)]);
    // an exact-match overwrite replaces, never adds
    assert!(group.update(OrderInfo::new(200, vol(0.6))));
    assert_eq!(group.volume_cumsum(), [0, 0, vol(0.6), vol(0.9)]);
    // a price outside the four lanes is refused and changes nothing
    assert!(!group.update(OrderInfo::new(400, vol(0.4))));
    assert_eq!(group.volume_cumsum(), [0, 0, vol(0.6), vol(0.9)]);
}

#[test]
fn group_empties_when_all_lanes_zeroed() {
    let mut group = OrderInfo4::new(&OrderInfo::new(100, vol(0.1)), 100);
    assert!(!group.is_empty());
    assert!(group.update(OrderInfo::new(100, 0)));
    assert!(group.is_empty());
}

#[test]
fn group_price_at_volume_walks_lanes_cheapest_first() {
    let mut group = OrderInfo4::new(&OrderInfo::new(300, vol(0.3)), 100);
    assert!(group.update(OrderInfo::new(200, vol(0.2))));
    // 0.2 @ 0.02 USD + 0.05 @ 0.03 USD = 0.0055 USD
    let r = group.get_price_at_vol(vol(0.25));
    assert_eq!(r.total_volume, vol(0.25));
    assert_eq!(r.total_price, 5_500_000_000u128);
    // more than the group holds: everything is consumed
    let all = group.get_price_at_vol(vol(9.0));
    assert_eq!(all.total_volume, vol(0.5));
    assert_eq!(all.total_price, 13_000_000_000u128);
    // nothing requested, nothing consumed
    let none = group.get_price_at_vol(0);
    assert_eq!(none.total_volume, 0);
    assert_eq!(none.total_price, 0);
}
