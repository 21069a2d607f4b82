use vstd::prelude::*;
use vstd::math::{max, min};
use crate::fill::fill_from_end;
use crate::level::{MAX_PRICE, MAX_VOLUME, OrderInfo, PriceInfo, PriceVolInfo};

verus! {

/// The mathematical content of one lane-packed group: the four lane
/// prices and the four lane volumes, lowest price first.
#[verifier::ext_equal]
pub struct GroupView {
    pub prices: Seq<u64>,
    pub volumes: Seq<u64>,
}

impl GroupView {
    /// A well-formed group for a book of the given spacing: four lanes
    /// covering four consecutive multiples of the spacing, starting at a
    /// base price aligned to four spacings, with bounded volumes.
    pub open spec fn wf(self, price_dist: u64) -> bool {
        &&& self.prices.len() == 4
        &&& self.volumes.len() == 4
        &&& 1 <= price_dist <= MAX_PRICE
        &&& self.prices[0] <= MAX_PRICE
        &&& (self.prices[0] as int) % (4 * (price_dist as int)) == 0
        &&& forall|k: int|
            0 <= k < 4 ==> (#[trigger] self.prices[k]) as int == self.prices[0] as int + k * (
            price_dist as int)
        &&& forall|k: int| 0 <= k < 4 ==> (#[trigger] self.volumes[k]) <= MAX_VOLUME
    }

    /// The lane volumes alone bounded; enough for the lane arithmetic not
    /// to overflow.
    pub open spec fn volumes_bounded(self) -> bool {
        &&& self.prices.len() == 4
        &&& self.volumes.len() == 4
        &&& forall|k: int| 0 <= k < 4 ==> (#[trigger] self.volumes[k]) <= MAX_VOLUME
    }

    /// Whether one of the four lane prices equals `price` exactly.
    pub open spec fn contains(self, price: u64) -> bool {
        ||| self.prices[0] == price
        ||| self.prices[1] == price
        ||| self.prices[2] == price
        ||| self.prices[3] == price
    }

    /// The group's base price, its ordering key within a book.
    pub open spec fn start(self) -> u64 {
        self.prices[0]
    }

    /// The sum of the four lane volumes.
    pub open spec fn total(self) -> int {
        self.volumes[0] + self.volumes[1] + self.volumes[2] + self.volumes[3]
    }

    /// The group after overwriting the volume of every lane whose price
    /// equals `price` with `volume` (at most one lane in a well-formed
    /// group).
    pub open spec fn overwrite(self, price: u64, volume: u64) -> GroupView {
        GroupView {
            prices: self.prices,
            volumes: Seq::new(
                self.volumes.len(),
                |k: int|
                    if self.prices[k] == price {
                        volume
                    } else {
                        self.volumes[k]
                    },
            ),
        }
    }

    /// The level resting in lane `k`.
    pub open spec fn lane(self, k: int) -> OrderInfo {
        OrderInfo { price: PriceInfo { price_data: self.prices[k] }, volume: self.volumes[k] }
    }

    /// The group's levels in the order a volume query consumes them when
    /// it reaches this group: lane 0 (the cheapest) is consumed first,
    /// and `fill_from_end` walks a sequence from its end, so lane 0
    /// stands last.
    pub open spec fn levels(self) -> Seq<OrderInfo> {
        seq![self.lane(3), self.lane(2), self.lane(1), self.lane(0)]
    }
}

/// The group a single order seeds: the order's price selects the group
/// (by integer division) and the lane within it (by remainder); the
/// order's volume rests in that lane and every other lane is empty.
pub open spec fn from_order(order: OrderInfo, price_dist: u64) -> GroupView {
    let p_idx = order.price.price_data as int / price_dist as int;
    let base = (p_idx / 4) * 4 * (price_dist as int);
    GroupView {
        prices: Seq::new(4, |k: int| (base + k * (price_dist as int)) as u64),
        volumes: Seq::new(
            4,
            |k: int|
                if k == p_idx % 4 {
                    order.volume
                } else {
                    0u64
                },
        ),
    }
}

/// A freshly seeded group is well formed, covers the order's price, and
/// rests the order's volume in that price's lane with every other lane
/// empty.
pub proof fn lemma_from_order_props(order: OrderInfo, price_dist: u64)
    requires
        1 <= price_dist <= MAX_PRICE,
        order.price.price_data <= MAX_PRICE,
        order.volume <= MAX_VOLUME,
        (order.price.price_data as int) % (price_dist as int) == 0,
    ensures
        from_order(order, price_dist).wf(price_dist),
        from_order(order, price_dist).contains(order.price.price_data),
        forall|k: int|
            0 <= k < 4 ==> (#[trigger] from_order(order, price_dist).volumes[k]) == (
            if from_order(order, price_dist).prices[k] == order.price.price_data {
                order.volume
            } else {
                0u64
            }),
        from_order(order, price_dist).total() == order.volume,
{
    let p = order.price.price_data as int;
    let d = price_dist as int;
    let q = p / d;
    let lane = q % 4;
    let base = (q / 4) * 4 * d;
    let g = from_order(order, price_dist);
    assert(q >= 0 && q * d == p) by (nonlinear_arith)
        requires
            d >= 1,
            p >= 0,
            q == p / d,
            p % d == 0,
    ;
    assert((q / 4) * 4 <= q && 0 <= q % 4 < 4 && (q / 4) * 4 + q % 4 == q) by (nonlinear_arith)
        requires
            q >= 0,
    ;
    assert(base + lane * d == q * d && 0 <= base && base <= q * d) by (nonlinear_arith)
        requires
            (q / 4) * 4 + q % 4 == q,
            0 <= q % 4,
            d >= 1,
            q >= 0,
            base == (q / 4) * 4 * d,
            lane == q % 4,
    ;
    vstd::arithmetic::div_mod::lemma_mod_multiples_basic(q / 4, 4 * d);
    assert((q / 4) * (4 * d) == (q / 4) * 4 * d) by (nonlinear_arith);
    assert(base % (4 * d) == 0);
    assert(g.prices[0] == base as u64 && g.prices[1] == (base + 1 * d) as u64 && g.prices[2] == (
    base + 2 * d) as u64 && g.prices[3] == (base + 3 * d) as u64);
    assert forall|k: int| 0 <= k < 4 implies (#[trigger] g.prices[k]) as int == g.prices[0] as int
        + k * d by {
        if k == 0 {
            assert(g.prices[0] == (base + 0 * d) as u64);
        } else if k == 1 {
            assert(g.prices[1] == (base + 1 * d) as u64);
        } else if k == 2 {
            assert(g.prices[2] == (base + 2 * d) as u64);
        } else {
            assert(g.prices[3] == (base + 3 * d) as u64);
        }
    }
    // the order's own lane holds its price
    if lane == 0 {
        assert(g.prices[0] as int == base + 0 * d);
        assert(g.prices[0] == order.price.price_data);
    } else if lane == 1 {
        assert(g.prices[1] as int == base + 1 * d);
        assert(g.prices[1] == order.price.price_data);
    } else if lane == 2 {
        assert(g.prices[2] as int == base + 2 * d);
        assert(g.prices[2] == order.price.price_data);
    } else {
        assert(g.prices[3] as int == base + 3 * d);
        assert(g.prices[3] == order.price.price_data);
    }
    // a lane holds the order's price exactly when it is the order's lane
    assert forall|k: int| 0 <= k < 4 implies ((#[trigger] g.prices[k])
        == order.price.price_data <==> k == lane) by {
        assert(g.prices[k] as int == base + k * d);
        assert(g.prices[lane as int] as int == base + lane * d);
        if g.prices[k] == order.price.price_data && k != lane {
            assert(base + k * d == base + lane * d);
            assert(k * d == lane * d);
            assert(false) by (nonlinear_arith)
                requires
                    k * d == lane * d,
                    k != lane,
                    d >= 1,
            ;
        }
    }
    assert(g.total() == order.volume);
}

/// Four price levels packed into fixed-width lanes, covering four
/// consecutive equally-spaced prices from a group-aligned base price.
/// The power-of-two width lets the running volume sum complete in two
/// shift-and-add steps, and lets volume matching run over all four lanes
/// unconditionally.
#[derive(Clone, Copy, Debug)]
pub struct OrderInfo4 {
    pub prices_4: [u64; 4],
    pub volumes_4: [u64; 4],
}

impl View for OrderInfo4 {
    type V = GroupView;

    open spec fn view(&self) -> GroupView {
        GroupView { prices: self.prices_4@, volumes: self.volumes_4@ }
    }
}

impl OrderInfo4 {
    /// Seeds a group from a single order. The order's price must be a
    /// multiple of the spacing; lane placement is exact and performs no
    /// rounding.
    pub fn new(start_order: &OrderInfo, price_dist: u64) -> (r: Self)
        requires
            1 <= price_dist <= MAX_PRICE,
            start_order.price.price_data <= MAX_PRICE,
            start_order.volume <= MAX_VOLUME,
            (start_order.price.price_data as int) % (price_dist as int) == 0,
        ensures
            r@ == from_order(*start_order, price_dist),
            r@.wf(price_dist),
            r@.contains(start_order.price.price_data),
            r@.total() == start_order.volume,
    {
        let price = start_order.price.price_data;
        let p_idx: u64 = price / price_dist;
        let p_big_idx: u64 = p_idx / 4;
        proof {
            let p = price as int;
            let d = price_dist as int;
            let q = p / d;
            assert(q * d <= p && q >= 0) by (nonlinear_arith)
                requires
                    d >= 1,
                    p >= 0,
                    q == p / d,
            ;
            assert((q / 4) * 4 <= q && q % 4 < 4 && q % 4 >= 0 && (q / 4) * 4 + q % 4 == q) by (
            nonlinear_arith)
                requires
                    q >= 0,
            ;
            assert((q / 4) * 4 * d <= q * d) by (nonlinear_arith)
                requires
                    (q / 4) * 4 <= q,
                    d >= 1,
            ;
            assert(p_idx as int == q);
            assert(p_big_idx as int == q / 4);
            assert((q / 4) * d <= (q / 4) * 4 * d && (q / 4) * d * 4 == (q / 4) * 4 * d) by (
            nonlinear_arith)
                requires
                    q >= 0,
                    d >= 1,
            ;
            assert(p_big_idx as int * (price_dist as int) <= p);
        }
        let p_idx_in_p_big: u64 = p_idx - p_big_idx * 4;
        let start_price = p_big_idx * price_dist * 4;
        let prices: [u64; 4] = [start_price, start_price + price_dist, start_price + 2
            * price_dist, start_price + 3 * price_dist];
        let volume = start_order.volume;
        let volumes: [u64; 4] = if p_idx_in_p_big == 0 {
            [volume, 0, 0, 0]
        } else if p_idx_in_p_big == 1 {
            [0, volume, 0, 0]
        } else if p_idx_in_p_big == 2 {
            [0, 0, volume, 0]
        } else {
            [0, 0, 0, volume]
        };
        let r = OrderInfo4 { prices_4: prices, volumes_4: volumes };
        proof {
            let p = price as int;
            let d = price_dist as int;
            let q = p / d;
            let gv = from_order(*start_order, price_dist);
            assert(p_big_idx as int == q / 4 && p_idx as int == q);
            assert(start_price as int == (q / 4) * 4 * d) by (nonlinear_arith)
                requires
                    p_big_idx as int == q / 4,
                    start_price as int == p_big_idx as int * d * 4,
            ;
            assert(q * d <= p) by (nonlinear_arith)
                requires
                    d >= 1,
                    p >= 0,
                    q == p / d,
            ;
            let base = (q / 4) * 4 * d;
            assert(0 <= base && base <= p);
            assert(gv.prices[0] == (base + 0 * d) as u64 && gv.prices[1] == (base + 1 * d) as u64
                && gv.prices[2] == (base + 2 * d) as u64 && gv.prices[3] == (base + 3 * d) as u64);
            assert(r@.prices[0] == gv.prices[0]);
            assert(r@.prices[1] == gv.prices[1]);
            assert(r@.prices[2] == gv.prices[2]);
            assert(r@.prices[3] == gv.prices[3]);
            assert(r@.prices =~= gv.prices);
            assert(p_idx_in_p_big as int == q % 4);
            assert(r@.volumes[0] == gv.volumes[0]);
            assert(r@.volumes[1] == gv.volumes[1]);
            assert(r@.volumes[2] == gv.volumes[2]);
            assert(r@.volumes[3] == gv.volumes[3]);
            assert(r@.volumes =~= gv.volumes);
            assert(r@ =~= gv);
            // the order's price sits in its own lane: p == base + lane * d
            assert(q * d == p) by (nonlinear_arith)
                requires
                    d >= 1,
                    p >= 0,
                    q == p / d,
                    p % d == 0,
            ;
            assert(gv.prices[q % 4] as int == (q / 4) * 4 * d + (q % 4) * d);
            assert((q / 4) * 4 * d + (q % 4) * d == q * d) by (nonlinear_arith)
                requires
                    (q / 4) * 4 + q % 4 == q,
            ;
            // well-formedness: the base is aligned to four spacings
            vstd::arithmetic::div_mod::lemma_mod_multiples_basic(q / 4, 4 * d);
            assert((q / 4) * (4 * d) == (q / 4) * 4 * d) by (nonlinear_arith);
        }
        r
    }

    /// Whether one of the four lane prices equals the sought price
    /// exactly; lane comparison is exact integer equality.
    pub fn contains_price(&self, new_price: PriceInfo) -> (r: bool)
        ensures
            r == self@.contains(new_price.price_data),
    {
        let p = new_price.price_data;
        self.prices_4[0] == p || self.prices_4[1] == p || self.prices_4[2] == p
            || self.prices_4[3] == p
    }

    /// Overwrites (never adds to) the volume of the lane holding the
    /// order's exact price; reports failure, touching nothing, when no
    /// lane holds it. A group never gains a new lane price after
    /// construction.
    pub fn update(&mut self, new_data: OrderInfo) -> (r: bool)
        ensures
            r == old(self)@.contains(new_data.price.price_data),
            r ==> final(self)@ == old(self)@.overwrite(new_data.price.price_data, new_data.volume),
            !r ==> final(self)@ == old(self)@,
    {
        let p = new_data.price.price_data;
        let v = new_data.volume;
        if self.contains_price(new_data.price) {
            let volumes: [u64; 4] = [
                if self.prices_4[0] == p {
                    v
                } else {
                    self.volumes_4[0]
                },
                if self.prices_4[1] == p {
                    v
                } else {
                    self.volumes_4[1]
                },
                if self.prices_4[2] == p {
                    v
                } else {
                    self.volumes_4[2]
                },
                if self.prices_4[3] == p {
                    v
                } else {
                    self.volumes_4[3]
                },
            ];
            self.volumes_4 = volumes;
            proof {
                assert(self@.volumes =~= old(self)@.overwrite(p, v).volumes);
                assert(self@ =~= old(self)@.overwrite(p, v));
            }
            true
        } else {
            false
        }
    }

    /// Whether the group holds no volume at all. With exact integer
    /// volumes, a group is empty exactly when every lane is zero.
    pub fn is_empty(&self) -> (r: bool)
        requires
            self@.volumes_bounded(),
        ensures
            r == (self@.total() == 0),
    {
        let local_is_empty = self.volumes_4[0] + self.volumes_4[1] + self.volumes_4[2]
            + self.volumes_4[3] == 0;
        local_is_empty
    }

    /// The base price: the lowest of the four lane prices, used as the
    /// group's ordering key by the owning book.
    pub fn get_start_price(&self) -> (r: u64)
        ensures
            r == self@.start(),
    {
        self.prices_4[0]
    }

    /// The four lane prices in dollar terms. Prices already carry four
    /// implied decimal digits, so the fixed-point dollar prices are the
    /// lane prices themselves.
    pub fn get_dollar_prices4(&self) -> (r: [u64; 4])
        ensures
            r@ == self@.prices,
    {
        self.prices_4
    }

    /// The running sum of lane volumes at or before each lane, computed
    /// as two successive shifted additions (shift by one, then by two):
    /// the prefix sum of a four-wide group completes in two such steps.
    pub fn volume_cumsum(&self) -> (r: [u64; 4])
        requires
            self@.volumes_bounded(),
        ensures
            r@[0] == self@.volumes[0],
            r@[1] as int == self@.volumes[0] + self@.volumes[1],
            r@[2] as int == self@.volumes[0] + self@.volumes[1] + self@.volumes[2],
            r@[3] as int == self@.total(),
    {
        let v = self.volumes_4;
        let c1: [u64; 4] = [v[0], v[1] + v[0], v[2] + v[1], v[3] + v[2]];
        let c2: [u64; 4] = [c1[0], c1[1], c1[2] + c1[0], c1[3] + c1[1]];
        c2
    }

    /// The portion of this group's volume consumed by a request for
    /// `req_volume`, and that portion's cost: every lane is evaluated
    /// unconditionally (remaining room from the exclusive prefix sum,
    /// clamped at zero, capped by the lane volume) and the four lanes are
    /// then reduced. The outcome equals walking this group's levels,
    /// cheapest lane first.
    pub fn get_price_at_vol(&self, req_volume: u64) -> (r: PriceVolInfo)
        requires
            self@.volumes_bounded(),
        ensures
            (r.total_price as int, r.total_volume as int) == fill_from_end(
                self@.levels(),
                req_volume as int,
            ),
            r.total_volume <= req_volume,
    {
        let cumsum = self.volume_cumsum();
        let excl: [u64; 4] = [0, cumsum[0], cumsum[1], cumsum[2]];
        let v = self.volumes_4;
        let rem0 = if req_volume > excl[0] {
            req_volume - excl[0]
        } else {
            0
        };
        let rem1 = if req_volume > excl[1] {
            req_volume - excl[1]
        } else {
            0
        };
        let rem2 = if req_volume > excl[2] {
            req_volume - excl[2]
        } else {
            0
        };
        let rem3 = if req_volume > excl[3] {
            req_volume - excl[3]
        } else {
            0
        };
        let used0 = if v[0] < rem0 {
            v[0]
        } else {
            rem0
        };
        let used1 = if v[1] < rem1 {
            v[1]
        } else {
            rem1
        };
        let used2 = if v[2] < rem2 {
            v[2]
        } else {
            rem2
        };
        let used3 = if v[3] < rem3 {
            v[3]
        } else {
            rem3
        };
        proof {
            reveal_with_fuel(fill_from_end, 6);
            assert(self@.volumes[0] <= MAX_VOLUME && self@.volumes[1] <= MAX_VOLUME
                && self@.volumes[2] <= MAX_VOLUME && self@.volumes[3] <= MAX_VOLUME);
            assert(used0 <= MAX_VOLUME && used1 <= MAX_VOLUME && used2 <= MAX_VOLUME && used3
                <= MAX_VOLUME);
            let t = req_volume as int;
            let gv = self@;
            let s = gv.levels();
            let u0 = min(gv.volumes[0] as int, max(t, 0));
            let u1 = min(gv.volumes[1] as int, max(t - u0, 0));
            let u2 = min(gv.volumes[2] as int, max(t - u0 - u1, 0));
            let u3 = min(gv.volumes[3] as int, max(t - u0 - u1 - u2, 0));
            assert(s.last() == gv.lane(0));
            assert(s.drop_last() =~= seq![gv.lane(3), gv.lane(2), gv.lane(1)]);
            assert(s.drop_last().drop_last() =~= seq![gv.lane(3), gv.lane(2)]);
            assert(s.drop_last().drop_last().drop_last() =~= seq![gv.lane(3)]);
            assert(s.drop_last().drop_last().drop_last().drop_last() =~= Seq::<
                OrderInfo,
            >::empty());
            assert(used0 as int == u0);
            assert(used1 as int == u1);
            assert(used2 as int == u2);
            assert(used3 as int == u3);
            assert(fill_from_end(s, t) == (
                u0 * (gv.prices[0] as int) + u1 * (gv.prices[1] as int) + u2 * (
                gv.prices[2] as int) + u3 * (gv.prices[3] as int),
                u0 + u1 + u2 + u3,
            ));
            lemma_mul_u64_fits(used0 as int, self.prices_4[0] as int);
            lemma_mul_u64_fits(used1 as int, self.prices_4[1] as int);
            lemma_mul_u64_fits(used2 as int, self.prices_4[2] as int);
            lemma_mul_u64_fits(used3 as int, self.prices_4[3] as int);
        }
        let total_volume_out = used0 + used1 + used2 + used3;
        let total_price = (used0 as u128) * (self.prices_4[0] as u128) + (used1 as u128) * (
        self.prices_4[1] as u128) + (used2 as u128) * (self.prices_4[2] as u128) + (used3 as u128)
            * (self.prices_4[3] as u128);
        let result = PriceVolInfo { total_price, total_volume: total_volume_out };
        result
    }
}

/// The product of a bounded lane volume and any 64-bit price stays under
/// two to the 96th, so four such products can be summed in a `u128`.
proof fn lemma_mul_u64_fits(a: int, b: int)
    requires
        0 <= a <= MAX_VOLUME as int,
        0 <= b <= u64::MAX as int,
    ensures
        0 <= a * b,
        a * b < 0x1_0000_0000_0000_0000_0000_0000,
{
    assert(0 <= a * b && a * b < 0x1_0000_0000_0000_0000_0000_0000) by (nonlinear_arith)
        requires
            0 <= a <= MAX_VOLUME as int,
            0 <= b <= u64::MAX as int,
    ;
}

} // verus!
