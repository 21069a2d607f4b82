use vstd::prelude::*;
use vstd::math::{max, min};
use crate::fill::{fill_from_end, lemma_fill_append, lemma_fill_cost_bound, lemma_fill_nonpositive,
    lemma_fill_volume, total_volume};
use crate::level::{MAX_PRICE, MAX_VOLUME, OrderInfo};

verus! {

/// The index, scanning from the END of the sequence toward the front, of
/// the first level whose price equals `price`; `None` when no level does.
/// This is the order in which the books look for a level to overwrite.
pub open spec fn find_level(levels: Seq<OrderInfo>, price: u64) -> Option<int>
    decreases levels.len(),
{
    if levels.len() == 0 {
        None
    } else if levels.last().price.price_data == price {
        Some(levels.len() - 1)
    } else {
        find_level(levels.drop_last(), price)
    }
}

/// The index, scanning from the FRONT, of the first level whose price is
/// strictly below `price`; `None` when no level is cheaper.
pub open spec fn first_lower(levels: Seq<OrderInfo>, price: u64) -> Option<int>
    decreases levels.len(),
{
    if levels.len() == 0 {
        None
    } else if levels.first().price.price_data < price {
        Some(0)
    } else {
        match first_lower(levels.drop_first(), price) {
            Some(i) => Some(i + 1),
            None => None,
        }
    }
}

/// Where a fresh price level is spliced in: immediately before the first
/// existing level with a strictly smaller price, and at the very front
/// when every existing level's price is at least as large. The
/// default-to-front case is deliberate and shared by both books.
pub open spec fn insert_position(levels: Seq<OrderInfo>, price: u64) -> int {
    match first_lower(levels, price) {
        Some(i) => i,
        None => 0,
    }
}

/// What one `add_buy_order` call does to the scalar book's levels:
/// overwrite the volume of the level holding this exact price, removing
/// the level when the new volume is zero; or, when the price is new,
/// splice a fresh level in at its insertion position.
pub open spec fn scalar_add(levels: Seq<OrderInfo>, order: OrderInfo) -> Seq<OrderInfo> {
    match find_level(levels, order.price.price_data) {
        Some(i) => {
            if order.volume == 0 {
                levels.remove(i)
            } else {
                levels.update(i, order)
            }
        },
        None => levels.insert(insert_position(levels, order.price.price_data), order),
    }
}

/// A well-formed scalar book: volumes and prices within the accepted
/// ranges, and at most one level per distinct price.
pub open spec fn scalar_wf(levels: Seq<OrderInfo>) -> bool {
    &&& forall|i: int| 0 <= i < levels.len() ==> #[trigger] levels[i].volume <= MAX_VOLUME
    &&& forall|i: int| 0 <= i < levels.len() ==> #[trigger] levels[i].price.price_data <= MAX_PRICE
    &&& forall|i: int, j: int|
        #![trigger levels[i].price.price_data, levels[j].price.price_data]
        0 <= i < j < levels.len() ==> levels[i].price.price_data != levels[j].price.price_data
}

/// `find_level` finds a level with the sought price exactly when one
/// exists.
pub proof fn lemma_find_level(levels: Seq<OrderInfo>, price: u64)
    ensures
        match find_level(levels, price) {
            Some(i) => 0 <= i < levels.len() && levels[i].price.price_data == price,
            None => forall|j: int|
                0 <= j < levels.len() ==> #[trigger] levels[j].price.price_data != price,
        },
    decreases levels.len(),
{
    if levels.len() > 0 && levels.last().price.price_data != price {
        let front = levels.drop_last();
        lemma_find_level(front, price);
        match find_level(front, price) {
            Some(i) => {
                assert(front[i] == levels[i]);
            },
            None => {
                assert forall|j: int|
                    0 <= j < levels.len() implies #[trigger] levels[j].price.price_data
                    != price by {
                    if j < levels.len() - 1 {
                        assert(front[j] == levels[j]);
                        assert(front[j].price.price_data != price);
                    }
                }
            },
        }
    }
}

/// When prices are pairwise distinct, `find_level` returns exactly the
/// index of the level holding the sought price.
pub proof fn lemma_find_level_unique(levels: Seq<OrderInfo>, price: u64, i: int)
    requires
        forall|a: int, b: int|
            #![trigger levels[a].price.price_data, levels[b].price.price_data]
            0 <= a < b < levels.len() ==> levels[a].price.price_data != levels[b].price.price_data,
        0 <= i < levels.len(),
        levels[i].price.price_data == price,
    ensures
        find_level(levels, price) == Some(i),
    decreases levels.len(),
{
    if i < levels.len() - 1 {
        assert(levels.last().price.price_data != price);
        let front = levels.drop_last();
        assert(forall|a: int, b: int|
            #![trigger front[a].price.price_data, front[b].price.price_data]
            0 <= a < b < front.len() ==> front[a].price.price_data != front[b].price.price_data);
        lemma_find_level_unique(front, price, i);
    }
}

/// `first_lower` finds the first strictly cheaper level exactly when one
/// exists.
pub proof fn lemma_first_lower(levels: Seq<OrderInfo>, price: u64)
    ensures
        match first_lower(levels, price) {
            Some(i) => 0 <= i < levels.len() && levels[i].price.price_data < price && forall|
                j: int,
            |
                0 <= j < i ==> #[trigger] levels[j].price.price_data >= price,
            None => forall|j: int|
                0 <= j < levels.len() ==> #[trigger] levels[j].price.price_data >= price,
        },
    decreases levels.len(),
{
    if levels.len() > 0 && !(levels.first().price.price_data < price) {
        let rest = levels.drop_first();
        lemma_first_lower(rest, price);
        match first_lower(rest, price) {
            Some(i) => {
                assert(rest[i] == levels[i + 1]);
                assert forall|j: int| 0 <= j < i + 1 implies #[trigger] levels[j].price.price_data
                    >= price by {
                    if j > 0 {
                        assert(rest[j - 1] == levels[j]);
                        assert(rest[j - 1].price.price_data >= price);
                    }
                }
            },
            None => {
                assert forall|j: int|
                    0 <= j < levels.len() implies #[trigger] levels[j].price.price_data
                    >= price by {
                    if j > 0 {
                        assert(rest[j - 1] == levels[j]);
                        assert(rest[j - 1].price.price_data >= price);
                    }
                }
            },
        }
    }
}

/// Overwriting a level with one of the same price and an accepted volume
/// keeps a book well formed.
pub proof fn lemma_wf_update(levels: Seq<OrderInfo>, i: int, order: OrderInfo)
    requires
        scalar_wf(levels),
        0 <= i < levels.len(),
        levels[i].price.price_data == order.price.price_data,
        order.volume <= MAX_VOLUME,
        order.price.price_data <= MAX_PRICE,
    ensures
        scalar_wf(levels.update(i, order)),
{
    let t = levels.update(i, order);
    assert(forall|j: int|
        0 <= j < t.len() ==> (#[trigger] t[j].price.price_data) == levels[j].price.price_data);
}

/// Removing a level keeps a book well formed.
pub proof fn lemma_wf_remove(levels: Seq<OrderInfo>, i: int)
    requires
        scalar_wf(levels),
        0 <= i < levels.len(),
    ensures
        scalar_wf(levels.remove(i)),
{
    let t = levels.remove(i);
    assert(forall|j: int| 0 <= j < t.len() ==> t[j] == (if j < i {
        levels[j]
    } else {
        levels[j + 1]
    }));
    assert forall|a: int, b: int|
        #![trigger t[a].price.price_data, t[b].price.price_data]
        0 <= a < b < t.len() implies t[a].price.price_data != t[b].price.price_data by {
        assert(t[a] == (if a < i { levels[a] } else { levels[a + 1] }));
        assert(t[b] == (if b < i { levels[b] } else { levels[b + 1] }));
    }
    assert forall|j: int| 0 <= j < t.len() implies #[trigger] t[j].volume <= MAX_VOLUME by {
        assert(t[j] == (if j < i { levels[j] } else { levels[j + 1] }));
    }
    assert forall|j: int| 0 <= j < t.len() implies #[trigger] t[j].price.price_data
        <= MAX_PRICE by {
        assert(t[j] == (if j < i { levels[j] } else { levels[j + 1] }));
    }
}

/// Splicing in a level whose price the book does not hold keeps it well
/// formed.
pub proof fn lemma_wf_insert(levels: Seq<OrderInfo>, k: int, order: OrderInfo)
    requires
        scalar_wf(levels),
        0 <= k <= levels.len(),
        order.volume <= MAX_VOLUME,
        order.price.price_data <= MAX_PRICE,
        forall|j: int|
            0 <= j < levels.len() ==> #[trigger] levels[j].price.price_data
                != order.price.price_data,
    ensures
        scalar_wf(levels.insert(k, order)),
{
    let t = levels.insert(k, order);
    assert(forall|j: int| 0 <= j < t.len() ==> t[j] == (if j < k {
        levels[j]
    } else if j == k {
        order
    } else {
        levels[j - 1]
    }));
    assert forall|a: int, b: int|
        #![trigger t[a].price.price_data, t[b].price.price_data]
        0 <= a < b < t.len() implies t[a].price.price_data != t[b].price.price_data by {
        assert(t[a] == (if a < k { levels[a] } else if a == k { order } else { levels[a - 1] }));
        assert(t[b] == (if b < k { levels[b] } else if b == k { order } else { levels[b - 1] }));
    }
    assert forall|j: int| 0 <= j < t.len() implies #[trigger] t[j].volume <= MAX_VOLUME by {
        assert(t[j] == (if j < k { levels[j] } else if j == k { order } else { levels[j - 1] }));
    }
    assert forall|j: int| 0 <= j < t.len() implies #[trigger] t[j].price.price_data
        <= MAX_PRICE by {
        assert(t[j] == (if j < k { levels[j] } else if j == k { order } else { levels[j - 1] }));
    }
}

/// The scalar reference book: an ordered sequence of price levels, one
/// per distinct price. Fresh levels are spliced in before the first
/// strictly cheaper one (with the deliberate default-to-front case for a
/// fresh cheapest price), and volume queries walk the sequence from its
/// end toward its front.
#[derive(Debug)]
pub struct OrderBook {
    pub buy_orders: Vec<OrderInfo>,
}

impl View for OrderBook {
    type V = Seq<OrderInfo>;

    open spec fn view(&self) -> Seq<OrderInfo> {
        self.buy_orders@
    }
}

impl OrderBook {
    /// A well-formed book holds bounded volumes and prices and at most
    /// one level per distinct price.
    pub open spec fn wf(&self) -> bool {
        scalar_wf(self@)
    }

    /// Creates an empty book.
    pub fn new() -> (r: Self)
        ensures
            r@ == Seq::<OrderInfo>::empty(),
            r.wf(),
    {
        OrderBook { buy_orders: Vec::new() }
    }

    /// Overwrites the volume resting at the order's price, removing the
    /// level when the new volume is zero, or splices a fresh level in at
    /// its insertion position when the price is new.
    pub fn add_buy_order(&mut self, new_buy_order: OrderInfo)
        requires
            old(self).wf(),
            new_buy_order.volume <= MAX_VOLUME,
            new_buy_order.price.price_data <= MAX_PRICE,
        ensures
            final(self)@ == scalar_add(old(self)@, new_buy_order),
            final(self).wf(),
    {
        let ghost s = self@;
        let price = new_buy_order.price.price_data;
        let n = self.buy_orders.len();
        let mut i: usize = n;
        let mut has_updated: bool = false;
        let mut last_index: usize = 0;
        proof {
            assert(s.take(n as int) =~= s);
        }
        while i > 0 && !has_updated
            invariant
                self@ == s,
                n == s.len(),
                i <= n,
                has_updated ==> find_level(s, price) == Some(last_index as int) && last_index < n
                    && s[last_index as int].price.price_data == price,
                !has_updated ==> find_level(s, price) == find_level(s.take(i as int), price),
            decreases i,
        {
            i = i - 1;
            proof {
                assert(s.take(i as int + 1).last() == s[i as int]);
                assert(s.take(i as int + 1).drop_last() =~= s.take(i as int));
            }
            if self.buy_orders[i].price.price_data == price {
                has_updated = true;
                last_index = i;
            }
        }
        if has_updated {
            self.buy_orders[last_index] = new_buy_order;
            proof {
                lemma_wf_update(s, last_index as int, new_buy_order);
            }
            if new_buy_order.volume == 0 {
                self.buy_orders.remove(last_index);
                proof {
                    assert(self@ =~= s.remove(last_index as int));
                    lemma_wf_remove(s, last_index as int);
                }
            }
        } else {
            proof {
                assert(s.take(n as int) =~= s);
            }
            self._insert_new_buy_price(new_buy_order);
        }
    }

    /// Splices a level with a price the book does not yet hold in at its
    /// insertion position.
    fn _insert_new_buy_price(&mut self, new_buy_order: OrderInfo)
        requires
            old(self).wf(),
            new_buy_order.volume <= MAX_VOLUME,
            new_buy_order.price.price_data <= MAX_PRICE,
            find_level(old(self)@, new_buy_order.price.price_data) is None,
        ensures
            final(self)@ == old(self)@.insert(
                insert_position(old(self)@, new_buy_order.price.price_data),
                new_buy_order,
            ),
            final(self).wf(),
    {
        let ghost s = self@;
        let price = new_buy_order.price.price_data;
        let n = self.buy_orders.len();
        let mut insert_index: usize = 0;
        let mut idx: usize = 0;
        let mut found: bool = false;
        while idx < n && !found
            invariant
                self@ == s,
                n == s.len(),
                idx <= n,
                found ==> insert_index < n && s[insert_index as int].price.price_data < price
                    && forall|j: int|
                    0 <= j < insert_index ==> #[trigger] s[j].price.price_data >= price,
                !found ==> insert_index == 0 && forall|j: int|
                    0 <= j < idx ==> #[trigger] s[j].price.price_data >= price,
            decreases n - idx + (if found { 0int } else { 1int }),
        {
            if self.buy_orders[idx].price.price_data < price {
                insert_index = idx;
                found = true;
            } else {
                idx = idx + 1;
            }
        }
        proof {
            lemma_first_lower(s, price);
            lemma_find_level(s, price);
            assert(insert_position(s, price) == insert_index as int);
        }
        self.buy_orders.insert(insert_index, new_buy_order);
        proof {
            lemma_wf_insert(s, insert_index as int, new_buy_order);
        }
    }

    /// The cost of acquiring `buy_volume`, walking the levels from the end
    /// of the sequence toward the front; `None` exactly when the book's
    /// whole depth is smaller than the request.
    pub fn get_price_for_volume(&self, buy_volume: u64) -> (r: Option<u128>)
        requires
            self.wf(),
        ensures
            ({
                let f = fill_from_end(self@, buy_volume as int);
                match r {
                    Some(cost) => cost as int == f.0 && f.1 == buy_volume as int,
                    None => f.1 < buy_volume as int,
                }
            }),
            r is Some <==> total_volume(self@) >= buy_volume as int,
    {
        let ghost s = self@;
        let ghost target = buy_volume as int;
        let n = self.buy_orders.len();
        let mut total_volume_filled: u64 = 0;
        let mut total_price_paid: u128 = 0;
        let mut i: usize = n;
        while i > 0 && total_volume_filled < buy_volume
            invariant
                self@ == s,
                self.wf(),
                n == s.len(),
                i <= n,
                total_volume_filled <= buy_volume,
                target == buy_volume as int,
                (total_price_paid as int, total_volume_filled as int) == fill_from_end(
                    s.skip(i as int),
                    target,
                ),
            decreases i,
        {
            i = i - 1;
            let level = self.buy_orders[i];
            let remaining = buy_volume - total_volume_filled;
            let volume_used = if level.volume < remaining {
                level.volume
            } else {
                remaining
            };
            proof {
                assert(s[i as int].volume <= MAX_VOLUME);
                assert(s[i as int].price.price_data <= MAX_PRICE);
                reveal_with_fuel(fill_from_end, 3);
                let single = seq![s[i as int]];
                assert(s.skip(i as int) =~= single + s.skip(i as int + 1));
                lemma_fill_append(single, s.skip(i as int + 1), target);
                let fb = fill_from_end(s.skip(i as int + 1), target);
                let rem = target - fb.1;
                assert(single.last() == s[i as int]);
                assert(single.drop_last() =~= Seq::<OrderInfo>::empty());
                assert(fill_from_end(single.drop_last(), rem - volume_used as int) == (0int, 0int));
                assert(volume_used as int == min(s[i as int].volume as int, max(rem, 0)));
                assert(fill_from_end(single, rem) == ((volume_used as int) * (
                s[i as int].price.price_data as int), volume_used as int));
                let f = fill_from_end(s.skip(i as int), target);
                assert(f.0 == total_price_paid as int + (volume_used as int) * (
                s[i as int].price.price_data as int));
                lemma_fill_cost_bound(s.skip(i as int), target, MAX_PRICE as int);
                assert(f.0 <= target * (MAX_PRICE as int)) by (nonlinear_arith)
                    requires
                        f.0 <= f.1 * (MAX_PRICE as int),
                        f.1 <= target,
                        (MAX_PRICE as int) >= 0,
                ;
                assert(target * (MAX_PRICE as int) < u128::MAX as int) by (nonlinear_arith)
                    requires
                        0 <= target && target <= u64::MAX as int,
                ;
                assert((volume_used as int) * (s[i as int].price.price_data as int) <= (
                MAX_VOLUME as int) * (MAX_PRICE as int)) by (nonlinear_arith)
                    requires
                        0 <= (volume_used as int) && volume_used <= MAX_VOLUME,
                        0 <= (s[i as int].price.price_data as int) && s[i as int].price.price_data
                            <= MAX_PRICE,
                ;
            }
            total_volume_filled = total_volume_filled + volume_used;
            total_price_paid = total_price_paid + (volume_used as u128) * (
            level.price.price_data as u128);
        }
        proof {
            lemma_fill_volume(s, target);
            if total_volume_filled >= buy_volume {
                lemma_fill_append(s.take(i as int), s.skip(i as int), target);
                assert(s.take(i as int) + s.skip(i as int) =~= s);
                lemma_fill_nonpositive(s.take(i as int), target - total_volume_filled as int);
            } else {
                assert(s.skip(0) =~= s);
            }
        }
        if total_volume_filled < buy_volume {
            return None;
        }
        return Some(total_price_paid);
    }

    /// The sum of all volumes resting in the book.
    pub fn get_total_volume(&self) -> (r: u128)
        ensures
            r as int == total_volume(self@),
    {
        let ghost s = self@;
        let n = self.buy_orders.len();
        let mut total_vol: u128 = 0;
        let mut i: usize = 0;
        while i < n
            invariant
                self@ == s,
                n == s.len(),
                i <= n,
                total_vol as int == total_volume(s.take(i as int)),
                total_vol as int <= (i as int) * (u64::MAX as int),
            decreases n - i,
        {
            proof {
                assert(s.take(i as int + 1).last() == s[i as int]);
                assert(s.take(i as int + 1).drop_last() =~= s.take(i as int));
                assert((i as int) * (u64::MAX as int) + (u64::MAX as int) == (i as int + 1) * (
                u64::MAX as int)) by (nonlinear_arith);
                assert((i as int + 1) * (u64::MAX as int) < u128::MAX as int) by (nonlinear_arith)
                    requires
                        0 <= (i as int) && (i as int) < 0x1_0000_0000_0000_0000,
                ;
            }
            let v = self.buy_orders[i];
            total_vol = total_vol + (v.volume as u128);
            i = i + 1;
        }
        proof {
            assert(s.take(n as int) =~= s);
        }
        total_vol
    }
}

} // verus!
