// Volumes are fixed-point integers counting 1e-8 units, so a volume of
// 0.1 is 10_000_000 units. Prices carry four implied decimal digits, so
// a cost unit is 1e-8 * 1e-4 = 1e-12 USD.

use order_book::book::OrderBook;
use order_book::lane_book::OrderBookSimd;
use order_book::level::OrderInfo;

fn vol(units: f64) -> u64 {
    (units * 1e8).round() as u64
}

fn cost_usd(cost_units: u128) -> f64 {
    (cost_units as f64) * 1e-12
}

#[test]
fn create_order_book_simd() {
    // Price every 0.01 USD.
    let price_dist = 100u64;
    let mut order_book = OrderBookSimd::new(price_dist);
    order_book.add_buy_order(OrderInfo::new(100, vol(0.1)));
    order_book.add_buy_order(OrderInfo::new(200, vol(0.2)));
    order_book.add_buy_order(OrderInfo::new(300, vol(0.3)));
    order_book.add_buy_order(OrderInfo::new(400, vol(0.4)));
    order_book.add_buy_order(OrderInfo::new(500, vol(0.2)));
    let price07: Option<u128> = order_book.get_price_for_volume(vol(0.7));
    let price14: Option<u128> = order_book.get_price_for_volume(vol(1.4));
    assert!(price07.is_some());
    assert!(price14.is_none());
    match price07 {
        Some(real_price07) => {
            assert!((cost_usd(real_price07) - 0.018).abs() < 1e-10);
        },
        None => {
            assert!(false);
        },
    }
}

#[test]
fn create_order_book() {
    // Price every 0.01 USD.
    let mut order_book = OrderBook::new();
    order_book.add_buy_order(OrderInfo::new(100, vol(0.1)));
    order_book.add_buy_order(OrderInfo::new(200, vol(0.2)));
    order_book.add_buy_order(OrderInfo::new(300, vol(0.3)));
    order_book.add_buy_order(OrderInfo::new(400, vol(0.4)));
    order_book.add_buy_order(OrderInfo::new(500, vol(0.2)));
    let price07: Option<u128> = order_book.get_price_for_volume(vol(0.7));
    let price14: Option<u128> = order_book.get_price_for_volume(vol(1.4));
    assert!(price07.is_some());
    assert!(price14.is_none());
    match price07 {
        Some(real_price07) => {
            assert!((cost_usd(real_price07) - 0.018).abs() < 1e-10);
        },
        None => {
            assert!(false);
        },
    }
}

#[test]
fn exact_cost_in_fixed_point_units() {
    // 0.1 @ 0.01 + 0.2 @ 0.02 + 0.3 @ 0.03 + 0.1 @ 0.04 = 0.018 USD,
    // which is 18_000_000_000 units of 1e-12 USD.
    let mut simd_book = OrderBookSimd::new(100);
    let mut scalar_book = OrderBook::new();
    for (p, v) in [(100u64, 0.1f64), (200, 0.2), (300, 0.3), (400, 0.4), (500, 0.2)] {
        simd_book.add_buy_order(OrderInfo::new(p, vol(v)));
        scalar_book.add_buy_order(OrderInfo::new(p, vol(v)));
    }
    assert_eq!(simd_book.get_price_for_volume(vol(0.7)), Some(18_000_000_000u128));
    assert_eq!(scalar_book.get_price_for_volume(vol(0.7)), Some(18_000_000_000u128));
}

#[test]
fn total_volume_after_insertions() {
    let mut simd_book = OrderBookSimd::new(100);
    let mut scalar_book = OrderBook::new();
    for (p, v) in [(100u64, 0.1f64), (200, 0.2), (300, 0.3), (400, 0.4), (500, 0.2)] {
        simd_book.add_buy_order(OrderInfo::new(p, vol(v)));
        scalar_book.add_buy_order(OrderInfo::new(p, vol(v)));
    }
    assert_eq!(simd_book.get_total_volume(), vol(1.2) as u128);
    assert_eq!(scalar_book.get_total_volume(), vol(1.2) as u128);
    let total = (simd_book.get_total_volume() as f64) * 1e-8;
    assert!((total - 1.2).abs() < 1e-10);
}

#[test]
fn cross_implementation_same_answers() {
    // Ascending insertion keeps both books in the same walk order, so
    // every query volume must get identical answers from both.
    let mut simd_book = OrderBookSimd::new(100);
    let mut scalar_book = OrderBook::new();
    for level in 1u64..=20 {
        let p = level * 100;
        let v = vol(0.05 * (level as f64));
        simd_book.add_buy_order(OrderInfo::new(p, v));
        scalar_book.add_buy_order(OrderInfo::new(p, v));
    }
    for q in [0.0f64, 0.01, 0.3, 1.0, 2.5, 7.7, 10.49, 10.5, 10.51, 20.0] {
        assert_eq!(
            simd_book.get_price_for_volume(vol(q)),
            scalar_book.get_price_for_volume(vol(q))
        );
    }
    assert_eq!(simd_book.get_total_volume(), scalar_book.get_total_volume());
}

#[test]
fn idempotent_overwrite() {
    let mut once = OrderBookSimd::new(100);
    once.add_buy_order(OrderInfo::new(100, vol(0.1)));
    once.add_buy_order(OrderInfo::new(200, vol(0.2)));
    let mut twice = OrderBookSimd::new(100);
    twice.add_buy_order(OrderInfo::new(100, vol(0.1)));
    twice.add_buy_order(OrderInfo::new(200, vol(0.2)));
    twice.add_buy_order(OrderInfo::new(200, vol(0.2)));
    assert_eq!(once.get_total_volume(), twice.get_total_volume());
    for q in [0.05f64, 0.1, 0.25, 0.3, 0.4] {
        assert_eq!(once.get_price_for_volume(vol(q)), twice.get_price_for_volume(vol(q)));
    }

    let mut scalar_once = OrderBook::new();
    scalar_once.add_buy_order(OrderInfo::new(100, vol(0.1)));
    let mut scalar_twice = OrderBook::new();
    scalar_twice.add_buy_order(OrderInfo::new(100, vol(0.1)));
    scalar_twice.add_buy_order(OrderInfo::new(100, vol(0.1)));
    assert_eq!(scalar_once.get_total_volume(), scalar_twice.get_total_volume());
    assert_eq!(
        scalar_once.get_price_for_volume(vol(0.1)),
        scalar_twice.get_price_for_volume(vol(0.1))
    );
}

#[test]
fn overwrite_replaces_not_adds() {
    let mut book = OrderBookSimd::new(100);
    book.add_buy_order(OrderInfo::new(200, vol(0.2)));
    book.add_buy_order(OrderInfo::new(200, vol(0.5)));
    assert_eq!(book.get_total_volume(), vol(0.5) as u128);
}

#[test]
fn zeroing_removes_a_level() {
    let mut with_level = OrderBookSimd::new(100);
    with_level.add_buy_order(OrderInfo::new(100, vol(0.1)));
    with_level.add_buy_order(OrderInfo::new(500, vol(0.5)));
    with_level.add_buy_order(OrderInfo::new(500, 0));
    let mut without_level = OrderBookSimd::new(100);
    without_level.add_buy_order(OrderInfo::new(100, vol(0.1)));
    assert_eq!(with_level.get_total_volume(), without_level.get_total_volume());
    for q in [0.0f64, 0.05, 0.1, 0.2] {
        assert_eq!(
            with_level.get_price_for_volume(vol(q)),
            without_level.get_price_for_volume(vol(q))
        );
    }

    let mut scalar_with = OrderBook::new();
    scalar_with.add_buy_order(OrderInfo::new(100, vol(0.1)));
    scalar_with.add_buy_order(OrderInfo::new(500, vol(0.5)));
    scalar_with.add_buy_order(OrderInfo::new(500, 0));
    let mut scalar_without = OrderBook::new();
    scalar_without.add_buy_order(OrderInfo::new(100, vol(0.1)));
    assert_eq!(scalar_with.get_total_volume(), scalar_without.get_total_volume());
    assert_eq!(
        scalar_with.get_price_for_volume(vol(0.1)),
        scalar_without.get_price_for_volume(vol(0.1))
    );
}

#[test]
fn monotonic_partial_fill() {
    let mut book = OrderBookSimd::new(100);
    for (p, v) in [(100u64, 0.1f64), (200, 0.2), (300, 0.3), (400, 0.4), (500, 0.2)] {
        book.add_buy_order(OrderInfo::new(p, vol(v)));
    }
    let mut last_cost = 0u128;
    let mut q = 0.0f64;
    while q <= 1.2 {
        let cost = book.get_price_for_volume(vol(q)).expect("depth suffices up to 1.2");
        assert!(cost >= last_cost);
        last_cost = cost;
        q += 0.05;
    }
}

#[test]
fn insufficient_depth_is_none() {
    let mut book = OrderBookSimd::new(100);
    assert_eq!(book.get_price_for_volume(0), Some(0));
    assert_eq!(book.get_price_for_volume(1), None);
    book.add_buy_order(OrderInfo::new(100, vol(0.1)));
    assert_eq!(book.get_price_for_volume(vol(0.1) + 1), None);
    assert!(book.get_price_for_volume(vol(0.1)).is_some());

    let scalar_book = OrderBook::new();
    assert_eq!(scalar_book.get_price_for_volume(0), Some(0));
    assert_eq!(scalar_book.get_price_for_volume(1), None);
}

#[test]
fn empty_books_hold_nothing() {
    let book = OrderBookSimd::new(100);
    assert_eq!(book.get_total_volume(), 0);
    let scalar_book = OrderBook::new();
    assert_eq!(scalar_book.get_total_volume(), 0);
}

#[test]
fn new_lowest_price_defaults_to_front() {
    // A fresh price below every resting level is spliced in at the
    // FRONT of the sequence, so the end-to-front query walk reaches it
    // last: the query below fills from the 0.03 level, not the 0.01 one.
    let mut scalar_book = OrderBook::new();
    scalar_book.add_buy_order(OrderInfo::new(300, vol(0.3)));
    scalar_book.add_buy_order(OrderInfo::new(100, vol(0.1)));
    // 0.1 volume at price 0.03 USD costs 0.003 USD = 3_000_000_000 units
    assert_eq!(scalar_book.get_price_for_volume(vol(0.1)), Some(3_000_000_000u128));

    // The lane-packed book shows the same rule at group granularity:
    // 100 and 500 sit in different groups (spacing 100), and the fresh
    // lowest group lands at the front, so the walk reaches 500 first.
    let mut simd_book = OrderBookSimd::new(100);
    simd_book.add_buy_order(OrderInfo::new(500, vol(0.5)));
    simd_book.add_buy_order(OrderInfo::new(100, vol(0.1)));
    // 0.1 volume at price 0.05 USD costs 0.005 USD = 5_000_000_000 units
    assert_eq!(simd_book.get_price_for_volume(vol(0.1)), Some(5_000_000_000u128));
}

#[test]
fn lanes_of_one_group_fill_cheapest_first() {
    // Prices 100..400 share one group (spacing 100, base 0 covers
    // 0,100,200,300 — so 100..300 share base 0 and 400 opens base 400).
    let mut book = OrderBookSimd::new(100);
    book.add_buy_order(OrderInfo::new(300, vol(0.3)));
    book.add_buy_order(OrderInfo::new(100, vol(0.1)));
    book.add_buy_order(OrderInfo::new(200, vol(0.2)));
    // Within the single group the cheapest lane is consumed first:
    // 0.1 @ 0.01 + 0.1 @ 0.02 = 0.003 USD.
    assert_eq!(book.get_price_for_volume(vol(0.2)), Some(3_000_000_000u128));
}
