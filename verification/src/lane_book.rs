use vstd::prelude::*;
use vstd::arithmetic::div_mod::lemma_fundamental_div_mod;
use crate::fill::{fill_from_end, lemma_fill_append, lemma_fill_cost_bound, lemma_fill_nonpositive,
    lemma_fill_volume, lemma_total_volume_append, total_volume};
use crate::group::{from_order, lemma_from_order_props, GroupView, OrderInfo4};
use crate::level::{MAX_PRICE, MAX_VOLUME, OrderInfo};

verus! {

/// The index, scanning from the END of the sequence toward the front, of
/// the first group one of whose lanes holds `price`; `None` when no
/// group does.
pub open spec fn find_group(groups: Seq<GroupView>, price: u64) -> Option<int>
    decreases groups.len(),
{
    if groups.len() == 0 {
        None
    } else if groups.last().contains(price) {
        Some(groups.len() - 1)
    } else {
        find_group(groups.drop_last(), price)
    }
}

/// The index, scanning from the FRONT, of the first group whose base
/// price is strictly below `price`; `None` when no group's is.
pub open spec fn first_lower_group(groups: Seq<GroupView>, price: u64) -> Option<int>
    decreases groups.len(),
{
    if groups.len() == 0 {
        None
    } else if groups.first().start() < price {
        Some(0)
    } else {
        match first_lower_group(groups.drop_first(), price) {
            Some(i) => Some(i + 1),
            None => None,
        }
    }
}

/// Where a fresh group is spliced in: immediately before the first
/// existing group with a strictly smaller base price, and at the very
/// front when every base price is at least as large — the same
/// deliberate default-to-front rule the scalar book follows.
pub open spec fn insert_position_group(groups: Seq<GroupView>, price: u64) -> int {
    match first_lower_group(groups, price) {
        Some(i) => i,
        None => 0,
    }
}

/// What one `add_buy_order` call does to the lane-packed book's groups:
/// overwrite the lane holding this exact price, removing the group when
/// it empties; or, when no group covers the price, splice in a freshly
/// seeded group at its insertion position.
pub open spec fn simd_add(groups: Seq<GroupView>, order: OrderInfo, price_dist: u64) -> Seq<
    GroupView,
> {
    match find_group(groups, order.price.price_data) {
        Some(i) => {
            let g = groups[i].overwrite(order.price.price_data, order.volume);
            if g.total() == 0 {
                groups.remove(i)
            } else {
                groups.update(i, g)
            }
        },
        None => groups.insert(
            insert_position_group(groups, order.price.price_data),
            from_order(order, price_dist),
        ),
    }
}

/// All levels of a sequence of groups, in the order a volume query
/// consumes them when walked from the end: the last group's cheapest
/// lane first.
pub open spec fn book_levels(groups: Seq<GroupView>) -> Seq<OrderInfo>
    decreases groups.len(),
{
    if groups.len() == 0 {
        Seq::empty()
    } else {
        book_levels(groups.drop_last()) + groups.last().levels()
    }
}

/// A well-formed lane-packed book: every group well formed for the
/// book's spacing, and no two groups share a base price (so no two
/// groups cover any price in common).
pub open spec fn wf_groups(groups: Seq<GroupView>, price_dist: u64) -> bool {
    &&& forall|i: int| 0 <= i < groups.len() ==> (#[trigger] groups[i]).wf(price_dist)
    &&& forall|i: int, j: int|
        #![trigger groups[i].start(), groups[j].start()]
        0 <= i < j < groups.len() ==> groups[i].start() != groups[j].start()
}

/// Two well-formed groups with different base prices cover disjoint
/// price sets: bases are aligned to four spacings, so distinct bases lie
/// at least four spacings apart, while a group spans only three.
pub proof fn lemma_distinct_bases_disjoint(g1: GroupView, g2: GroupView, price_dist: u64, price: u64)
    requires
        g1.wf(price_dist),
        g2.wf(price_dist),
        g1.start() != g2.start(),
    ensures
        !(g1.contains(price) && g2.contains(price)),
{
    if g1.contains(price) && g2.contains(price) {
        let d = price_dist as int;
        let b1 = g1.start() as int;
        let b2 = g2.start() as int;
        let p = price as int;
        assert(b1 <= p && p <= b1 + 3 * d);
        assert(b2 <= p && p <= b2 + 3 * d);
        lemma_fundamental_div_mod(b1, 4 * d);
        lemma_fundamental_div_mod(b2, 4 * d);
        let q1 = b1 / (4 * d);
        let q2 = b2 / (4 * d);
        assert(false) by (nonlinear_arith)
            requires
                d >= 1,
                b1 == 4 * d * q1,
                b2 == 4 * d * q2,
                b1 != b2,
                b1 - b2 <= 3 * d,
                b2 - b1 <= 3 * d,
        ;
    }
}

/// `find_group` finds a group covering the sought price exactly when one
/// exists.
pub proof fn lemma_find_group(groups: Seq<GroupView>, price: u64)
    ensures
        match find_group(groups, price) {
            Some(i) => 0 <= i < groups.len() && groups[i].contains(price),
            None => forall|j: int| 0 <= j < groups.len() ==> !(#[trigger] groups[j]).contains(
                price,
            ),
        },
    decreases groups.len(),
{
    if groups.len() > 0 && !groups.last().contains(price) {
        let front = groups.drop_last();
        lemma_find_group(front, price);
        match find_group(front, price) {
            Some(i) => {
                assert(front[i] == groups[i]);
            },
            None => {
                assert forall|j: int| 0 <= j < groups.len() implies !(
                #[trigger] groups[j]).contains(price) by {
                    if j < groups.len() - 1 {
                        assert(front[j] == groups[j]);
                        assert(!front[j].contains(price));
                    }
                }
            },
        }
    }
}

/// In a well-formed book, `find_group` returns exactly the index of the
/// one group covering the sought price.
pub proof fn lemma_find_group_unique(
    groups: Seq<GroupView>,
    price: u64,
    i: int,
    price_dist: u64,
)
    requires
        wf_groups(groups, price_dist),
        0 <= i < groups.len(),
        groups[i].contains(price),
    ensures
        find_group(groups, price) == Some(i),
    decreases groups.len(),
{
    if i < groups.len() - 1 {
        lemma_distinct_bases_disjoint(groups[i], groups.last(), price_dist, price);
        assert(!groups.last().contains(price));
        let front = groups.drop_last();
        assert(forall|j: int| 0 <= j < front.len() ==> front[j] == groups[j]);
        assert(wf_groups(front, price_dist));
        lemma_find_group_unique(front, price, i, price_dist);
    }
}

/// `first_lower_group` finds the first strictly cheaper base exactly
/// when one exists.
pub proof fn lemma_first_lower_group(groups: Seq<GroupView>, price: u64)
    ensures
        match first_lower_group(groups, price) {
            Some(i) => 0 <= i < groups.len() && groups[i].start() < price && forall|j: int|
                0 <= j < i ==> (#[trigger] groups[j]).start() >= price,
            None => forall|j: int| 0 <= j < groups.len() ==> (#[trigger] groups[j]).start()
                >= price,
        },
    decreases groups.len(),
{
    if groups.len() > 0 && !(groups.first().start() < price) {
        let rest = groups.drop_first();
        lemma_first_lower_group(rest, price);
        match first_lower_group(rest, price) {
            Some(i) => {
                assert(rest[i] == groups[i + 1]);
                assert forall|j: int| 0 <= j < i + 1 implies (#[trigger] groups[j]).start()
                    >= price by {
                    if j > 0 {
                        assert(rest[j - 1] == groups[j]);
                        assert(rest[j - 1].start() >= price);
                    }
                }
            },
            None => {
                assert forall|j: int| 0 <= j < groups.len() implies (#[trigger] groups[j]).start()
                    >= price by {
                    if j > 0 {
                        assert(rest[j - 1] == groups[j]);
                        assert(rest[j - 1].start() >= price);
                    }
                }
            },
        }
    }
}

/// Group levels concatenate piecewise over a split of the group
/// sequence.
pub proof fn lemma_book_levels_append(a: Seq<GroupView>, b: Seq<GroupView>)
    ensures
        book_levels(a + b) == book_levels(a) + book_levels(b),
    decreases b.len(),
{
    if b.len() == 0 {
        assert(a + b =~= a);
        assert(book_levels(a) + book_levels(b) =~= book_levels(a));
    } else {
        assert((a + b).last() == b.last());
        assert((a + b).drop_last() =~= a + b.drop_last());
        lemma_book_levels_append(a, b.drop_last());
        assert((book_levels(a) + book_levels(b.drop_last())) + b.last().levels() =~= book_levels(a)
            + (book_levels(b.drop_last()) + b.last().levels()));
    }
}

/// A single group's book levels are just its own levels.
pub proof fn lemma_book_levels_singleton(g: GroupView)
    ensures
        book_levels(seq![g]) == g.levels(),
{
    let s = seq![g];
    assert(s.drop_last() =~= Seq::<GroupView>::empty());
    assert(book_levels(s.drop_last()) + g.levels() =~= g.levels());
}

/// A group holds as much volume as its four levels together.
pub proof fn lemma_group_levels_total(g: GroupView)
    ensures
        total_volume(g.levels()) == g.total(),
{
    reveal_with_fuel(total_volume, 6);
    let s = g.levels();
    assert(s.drop_last() =~= seq![g.lane(3), g.lane(2), g.lane(1)]);
    assert(s.drop_last().drop_last() =~= seq![g.lane(3), g.lane(2)]);
    assert(s.drop_last().drop_last().drop_last() =~= seq![g.lane(3)]);
    assert(s.drop_last().drop_last().drop_last().drop_last() =~= Seq::<OrderInfo>::empty());
}

/// Every level of a well-formed book prices below four times the price
/// bound: a lane price is its group's base plus at most three spacings.
pub proof fn lemma_book_levels_price_bound(groups: Seq<GroupView>, price_dist: u64)
    requires
        wf_groups(groups, price_dist),
    ensures
        forall|j: int| 0 <= j < book_levels(groups).len() ==> (#[trigger] book_levels(
            groups,
        )[j].price.price_data) as int <= 4 * (MAX_PRICE as int),
    decreases groups.len(),
{
    if groups.len() > 0 {
        let front = groups.drop_last();
        let g = groups.last();
        assert(forall|j: int| 0 <= j < front.len() ==> front[j] == groups[j]);
        assert(wf_groups(front, price_dist));
        lemma_book_levels_price_bound(front, price_dist);
        assert(g.wf(price_dist));
        let bl = book_levels(groups);
        assert forall|j: int| 0 <= j < bl.len() implies (#[trigger] bl[j].price.price_data) as int
            <= 4 * (MAX_PRICE as int) by {
            if j < book_levels(front).len() {
                assert(bl[j] == book_levels(front)[j]);
            } else {
                let k = j - book_levels(front).len();
                assert(bl[j] == g.levels()[k]);
                assert(g.prices[0] as int + 3 * (price_dist as int) <= 4 * (MAX_PRICE as int));
            }
        }
    }
}

/// Overwriting one lane's volume with an accepted volume keeps a group
/// well formed and does not move it.
pub proof fn lemma_overwrite_wf(g: GroupView, price_dist: u64, price: u64, volume: u64)
    requires
        g.wf(price_dist),
        volume <= MAX_VOLUME,
    ensures
        g.overwrite(price, volume).wf(price_dist),
        g.overwrite(price, volume).start() == g.start(),
        g.overwrite(price, volume).volumes_bounded(),
{
    let t = g.overwrite(price, volume);
    assert forall|k: int| 0 <= k < 4 implies (#[trigger] t.volumes[k]) <= MAX_VOLUME by {
        assert(g.volumes[k] <= MAX_VOLUME);
    }
}

/// Overwriting a group in place keeps a book well formed when the new
/// group is well formed and keeps its base.
pub proof fn lemma_wf_groups_update(groups: Seq<GroupView>, i: int, g: GroupView, price_dist: u64)
    requires
        wf_groups(groups, price_dist),
        0 <= i < groups.len(),
        g.wf(price_dist),
        g.start() == groups[i].start(),
    ensures
        wf_groups(groups.update(i, g), price_dist),
{
    let t = groups.update(i, g);
    assert(forall|j: int| 0 <= j < t.len() ==> (#[trigger] t[j]).start() == groups[j].start());
}

/// Removing a group keeps a book well formed.
pub proof fn lemma_wf_groups_remove(groups: Seq<GroupView>, i: int, price_dist: u64)
    requires
        wf_groups(groups, price_dist),
        0 <= i < groups.len(),
    ensures
        wf_groups(groups.remove(i), price_dist),
{
    let t = groups.remove(i);
    assert forall|j: int| 0 <= j < t.len() implies (#[trigger] t[j]).wf(price_dist) by {
        assert(t[j] == (if j < i { groups[j] } else { groups[j + 1] }));
    }
    assert forall|a: int, b: int|
        #![trigger t[a].start(), t[b].start()]
        0 <= a < b < t.len() implies t[a].start() != t[b].start() by {
        assert(t[a] == (if a < i { groups[a] } else { groups[a + 1] }));
        assert(t[b] == (if b < i { groups[b] } else { groups[b + 1] }));
    }
}

/// Splicing in a well-formed group with a fresh base keeps a book well
/// formed.
pub proof fn lemma_wf_groups_insert(groups: Seq<GroupView>, k: int, g: GroupView, price_dist: u64)
    requires
        wf_groups(groups, price_dist),
        0 <= k <= groups.len(),
        g.wf(price_dist),
        forall|j: int| 0 <= j < groups.len() ==> (#[trigger] groups[j]).start() != g.start(),
    ensures
        wf_groups(groups.insert(k, g), price_dist),
{
    let t = groups.insert(k, g);
    assert(forall|j: int| 0 <= j < t.len() ==> t[j] == (if j < k {
        groups[j]
    } else if j == k {
        g
    } else {
        groups[j - 1]
    }));
    assert forall|j: int| 0 <= j < t.len() implies (#[trigger] t[j]).wf(price_dist) by {
        assert(t[j] == (if j < k { groups[j] } else if j == k { g } else { groups[j - 1] }));
    }
    assert forall|a: int, b: int|
        #![trigger t[a].start(), t[b].start()]
        0 <= a < b < t.len() implies t[a].start() != t[b].start() by {
        assert(t[a] == (if a < k { groups[a] } else if a == k { g } else { groups[a - 1] }));
        assert(t[b] == (if b < k { groups[b] } else if b == k { g } else { groups[b - 1] }));
    }
}

/// When no existing group covers an order's price, the group that order
/// would seed has a base price no existing group uses: a group with that
/// base would itself cover the price.
pub proof fn lemma_fresh_base(groups: Seq<GroupView>, order: OrderInfo, price_dist: u64)
    requires
        wf_groups(groups, price_dist),
        1 <= price_dist <= MAX_PRICE,
        order.price.price_data <= MAX_PRICE,
        order.volume <= MAX_VOLUME,
        (order.price.price_data as int) % (price_dist as int) == 0,
        forall|j: int| 0 <= j < groups.len() ==> !(#[trigger] groups[j]).contains(
            order.price.price_data,
        ),
    ensures
        forall|j: int| 0 <= j < groups.len() ==> (#[trigger] groups[j]).start() != from_order(
            order,
            price_dist,
        ).start(),
{
    let price = order.price.price_data;
    let d = price_dist as int;
    let g = from_order(order, price_dist);
    lemma_from_order_props(order, price_dist);
    assert forall|j: int| 0 <= j < groups.len() implies (#[trigger] groups[j]).start()
        != g.start() by {
        if groups[j].start() == g.start() {
            assert(g.contains(price));
            if g.prices[0] == price {
                assert(groups[j].prices[0] as int == groups[j].start() as int + 0 * d);
                assert(g.prices[0] as int == g.start() as int + 0 * d);
                assert(groups[j].contains(price));
            } else if g.prices[1] == price {
                assert(groups[j].prices[1] as int == groups[j].start() as int + 1 * d);
                assert(g.prices[1] as int == g.start() as int + 1 * d);
                assert(groups[j].contains(price));
            } else if g.prices[2] == price {
                assert(groups[j].prices[2] as int == groups[j].start() as int + 2 * d);
                assert(g.prices[2] as int == g.start() as int + 2 * d);
                assert(groups[j].contains(price));
            } else {
                assert(groups[j].prices[3] as int == groups[j].start() as int + 3 * d);
                assert(g.prices[3] as int == g.start() as int + 3 * d);
                assert(groups[j].contains(price));
            }
            assert(false);
        }
    }
}

/// The lane-packed order book: an ordered sequence of four-lane groups
/// with a fixed price spacing. A price's group and lane follow purely
/// from integer division of the price by the spacing; the groups mirror
/// the scalar book's ordering, taken at their base prices.
#[derive(Debug)]
pub struct OrderBookSimd {
    pub buy_orders: Vec<OrderInfo4>,
    pub price_dist: u64,
}

impl View for OrderBookSimd {
    type V = Seq<GroupView>;

    open spec fn view(&self) -> Seq<GroupView> {
        self.buy_orders@.map_values(|g: OrderInfo4| g@)
    }
}

impl OrderBookSimd {
    /// A well-formed book: an accepted spacing, well-formed groups, and
    /// no two groups covering a price in common.
    pub open spec fn wf(&self) -> bool {
        &&& 1 <= self.price_dist <= MAX_PRICE
        &&& wf_groups(self@, self.price_dist)
    }

    /// Creates an empty book with the given price spacing.
    pub fn new(price_dist: u64) -> (r: Self)
        requires
            1 <= price_dist <= MAX_PRICE,
        ensures
            r@ == Seq::<GroupView>::empty(),
            r.wf(),
            r.price_dist == price_dist,
    {
        let r = OrderBookSimd { buy_orders: Vec::new(), price_dist };
        proof {
            assert(r@ =~= Seq::<GroupView>::empty());
        }
        r
    }

    /// Overwrites the lane resting at the order's exact price, removing
    /// the group if it empties; or, when no group covers the price,
    /// splices in a freshly seeded group at its insertion position. The
    /// order's price must be a multiple of the book's spacing.
    pub fn add_buy_order(&mut self, new_buy_order: OrderInfo)
        requires
            old(self).wf(),
            new_buy_order.volume <= MAX_VOLUME,
            new_buy_order.price.price_data <= MAX_PRICE,
            (new_buy_order.price.price_data as int) % (old(self).price_dist as int) == 0,
        ensures
            final(self)@ == simd_add(old(self)@, new_buy_order, old(self).price_dist),
            final(self).wf(),
            final(self).price_dist == old(self).price_dist,
    {
        let ghost s = self@;
        let price = new_buy_order.price.price_data;
        let n = self.buy_orders.len();
        let mut i: usize = n;
        let mut has_updated: bool = false;
        let mut last_index: usize = 0;
        proof {
            assert(s.take(n as int) =~= s);
        }
        while i > 0 && !has_updated
            invariant
                self@ == s,
                n == s.len(),
                n == self.buy_orders.len(),
                i <= n,
                price == new_buy_order.price.price_data,
                has_updated ==> find_group(s, price) == Some(last_index as int) && last_index < n
                    && s[last_index as int].contains(price),
                !has_updated ==> find_group(s, price) == find_group(s.take(i as int), price),
            decreases i,
        {
            i = i - 1;
            proof {
                assert(s.take(i as int + 1).last() == s[i as int]);
                assert(s.take(i as int + 1).drop_last() =~= s.take(i as int));
                assert(s[i as int] == self.buy_orders@[i as int]@);
            }
            let g = self.buy_orders[i];
            if g.contains_price(new_buy_order.price) {
                has_updated = true;
                last_index = i;
            }
        }
        if has_updated {
            let mut g = self.buy_orders[last_index];
            proof {
                assert(g@ == s[last_index as int]);
                assert(s[last_index as int].wf(self.price_dist));
            }
            let updated = g.update(new_buy_order);
            proof {
                assert(updated);
                lemma_overwrite_wf(s[last_index as int], self.price_dist, price,
                    new_buy_order.volume);
            }
            self.buy_orders[last_index] = g;
            proof {
                assert(self@ =~= s.update(last_index as int, g@));
                lemma_wf_groups_update(s, last_index as int, g@, self.price_dist);
            }
            if g.is_empty() {
                self.buy_orders.remove(last_index);
                proof {
                    assert(self@ =~= s.update(last_index as int, g@).remove(last_index as int));
                    assert(self@ =~= s.remove(last_index as int));
                    lemma_wf_groups_remove(s, last_index as int, self.price_dist);
                }
            }
        } else {
            proof {
                assert(s.take(n as int) =~= s);
            }
            self._insert_new_buy_price(new_buy_order);
        }
    }

    /// Splices a freshly seeded group in at its insertion position; no
    /// existing group may cover the order's price.
    fn _insert_new_buy_price(&mut self, new_buy_order: OrderInfo)
        requires
            old(self).wf(),
            new_buy_order.volume <= MAX_VOLUME,
            new_buy_order.price.price_data <= MAX_PRICE,
            (new_buy_order.price.price_data as int) % (old(self).price_dist as int) == 0,
            find_group(old(self)@, new_buy_order.price.price_data) is None,
        ensures
            final(self)@ == old(self)@.insert(
                insert_position_group(old(self)@, new_buy_order.price.price_data),
                from_order(new_buy_order, old(self).price_dist),
            ),
            final(self).wf(),
            final(self).price_dist == old(self).price_dist,
    {
        let ghost s = self@;
        let price = new_buy_order.price.price_data;
        let new_order4 = OrderInfo4::new(&new_buy_order, self.price_dist);
        let n = self.buy_orders.len();
        let mut insert_index: usize = 0;
        let mut idx: usize = 0;
        let mut found: bool = false;
        while idx < n && !found
            invariant
                self@ == s,
                n == s.len(),
                n == self.buy_orders.len(),
                idx <= n,
                found ==> insert_index < n && s[insert_index as int].start() < price && forall|
                    j: int,
                |
                    0 <= j < insert_index ==> (#[trigger] s[j]).start() >= price,
                !found ==> insert_index == 0 && forall|j: int|
                    0 <= j < idx ==> (#[trigger] s[j]).start() >= price,
            decreases n - idx + (if found { 0int } else { 1int }),
        {
            let g = self.buy_orders[idx];
            if g.get_start_price() < price {
                insert_index = idx;
                found = true;
            } else {
                idx = idx + 1;
            }
        }
        proof {
            lemma_first_lower_group(s, price);
            lemma_find_group(s, price);
            assert(insert_position_group(s, price) == insert_index as int);
        }
        self.buy_orders.insert(insert_index, new_order4);
        proof {
            assert(self@ =~= s.insert(insert_index as int, new_order4@));
            // a group sharing the fresh group's base would cover the
            // order's price, and none does
            assert forall|j: int| 0 <= j < s.len() implies (#[trigger] s[j]).start()
                != new_order4@.start() by {
                if s[j].start() == new_order4@.start() {
                    let g = new_order4@;
                    let d = self.price_dist;
                    assert(g.contains(price));
                    if g.prices[0] == price {
                        assert(s[j].prices[0] as int == s[j].start() as int + 0 * (d as int));
                        assert(g.prices[0] as int == g.start() as int + 0 * (d as int));
                        assert(s[j].contains(price));
                    } else if g.prices[1] == price {
                        assert(s[j].prices[1] as int == s[j].start() as int + 1 * (d as int));
                        assert(g.prices[1] as int == g.start() as int + 1 * (d as int));
                        assert(s[j].contains(price));
                    } else if g.prices[2] == price {
                        assert(s[j].prices[2] as int == s[j].start() as int + 2 * (d as int));
                        assert(g.prices[2] as int == g.start() as int + 2 * (d as int));
                        assert(s[j].contains(price));
                    } else {
                        assert(s[j].prices[3] as int == s[j].start() as int + 3 * (d as int));
                        assert(g.prices[3] as int == g.start() as int + 3 * (d as int));
                        assert(s[j].contains(price));
                    }
                    assert(false);
                }
            }
            lemma_wf_groups_insert(s, insert_index as int, new_order4@, self.price_dist);
        }
    }

    /// The sum of all lane volumes across all groups; commutative and
    /// order-independent.
    pub fn get_total_volume(&self) -> (r: u128)
        requires
            self.wf(),
        ensures
            r as int == total_volume(book_levels(self@)),
    {
        let ghost s = self@;
        let n = self.buy_orders.len();
        let mut total_vol: u128 = 0;
        let mut i: usize = 0;
        proof {
            assert(s.take(0) =~= Seq::<GroupView>::empty());
        }
        while i < n
            invariant
                self@ == s,
                self.wf(),
                n == s.len(),
                n == self.buy_orders.len(),
                i <= n,
                total_vol as int == total_volume(book_levels(s.take(i as int))),
                total_vol as int <= (i as int) * (0x4_0000_0000int),
            decreases n - i,
        {
            let g = self.buy_orders[i];
            proof {
                assert(s[i as int] == g@);
                assert(s[i as int].wf(self.price_dist));
                assert(g@.volumes[0] <= MAX_VOLUME && g@.volumes[1] <= MAX_VOLUME && g@.volumes[2]
                    <= MAX_VOLUME && g@.volumes[3] <= MAX_VOLUME);
                assert(s.take(i as int + 1).drop_last() =~= s.take(i as int));
                assert(s.take(i as int + 1).last() == s[i as int]);
                lemma_group_levels_total(s[i as int]);
                lemma_total_volume_append(book_levels(s.take(i as int)), s[i as int].levels());
                assert(book_levels(s.take(i as int + 1)) == book_levels(s.take(i as int)) + s[
                i as int].levels());
                assert((i as int) * 0x4_0000_0000 + 0x4_0000_0000 == (i as int + 1)
                    * 0x4_0000_0000) by (nonlinear_arith);
                assert((i as int + 1) * 0x4_0000_0000 < u128::MAX as int) by (nonlinear_arith)
                    requires
                        0 <= (i as int) && (i as int) < 0x1_0000_0000_0000_0000,
                ;
            }
            let group_vol = g.volumes_4[0] + g.volumes_4[1] + g.volumes_4[2] + g.volumes_4[3];
            total_vol = total_vol + (group_vol as u128);
            i = i + 1;
        }
        proof {
            assert(s.take(n as int) =~= s);
        }
        total_vol
    }

    /// The cost of acquiring `buy_volume`, consuming groups from the end
    /// of the sequence toward the front and lanes cheapest-first within
    /// each group; `None` exactly when the book's whole depth is smaller
    /// than the request.
    pub fn get_price_for_volume(&self, buy_volume: u64) -> (r: Option<u128>)
        requires
            self.wf(),
        ensures
            ({
                let f = fill_from_end(book_levels(self@), buy_volume as int);
                match r {
                    Some(cost) => cost as int == f.0 && f.1 == buy_volume as int,
                    None => f.1 < buy_volume as int,
                }
            }),
            r is Some <==> total_volume(book_levels(self@)) >= buy_volume as int,
    {
        let ghost s = self@;
        let ghost target = buy_volume as int;
        let n = self.buy_orders.len();
        let mut total_volume_filled: u64 = 0;
        let mut total_price_paid: u128 = 0;
        let mut i: usize = n;
        proof {
            assert(s.skip(n as int) =~= Seq::<GroupView>::empty());
        }
        while i > 0 && total_volume_filled < buy_volume
            invariant
                self@ == s,
                self.wf(),
                n == s.len(),
                n == self.buy_orders.len(),
                i <= n,
                total_volume_filled <= buy_volume,
                target == buy_volume as int,
                (total_price_paid as int, total_volume_filled as int) == fill_from_end(
                    book_levels(s.skip(i as int)),
                    target,
                ),
            decreases i,
        {
            i = i - 1;
            let g = self.buy_orders[i];
            proof {
                assert(s[i as int] == g@);
                assert(s[i as int].wf(self.price_dist));
                assert(g@.volumes_bounded());
            }
            let price_info = g.get_price_at_vol(buy_volume - total_volume_filled);
            proof {
                assert(s.skip(i as int) =~= seq![s[i as int]] + s.skip(i as int + 1));
                lemma_book_levels_append(seq![s[i as int]], s.skip(i as int + 1));
                lemma_book_levels_singleton(s[i as int]);
                lemma_fill_append(g@.levels(), book_levels(s.skip(i as int + 1)), target);
                assert(book_levels(s.skip(i as int)) =~= g@.levels() + book_levels(
                    s.skip(i as int + 1),
                ));
                assert(forall|a: int, b: int|
                    0 <= a < s.skip(b).len() && 0 <= b <= s.len() ==> #[trigger] s.skip(b)[a]
                        == s[a + b]);
                assert(wf_groups(s.skip(i as int), self.price_dist));
                lemma_book_levels_price_bound(s.skip(i as int), self.price_dist);
                lemma_fill_cost_bound(book_levels(s.skip(i as int)), target, 4 * (
                MAX_PRICE as int));
                let f = fill_from_end(book_levels(s.skip(i as int)), target);
                assert(f.0 <= target * (4 * (MAX_PRICE as int))) by (nonlinear_arith)
                    requires
                        f.0 <= f.1 * (4 * (MAX_PRICE as int)),
                        f.1 <= target,
                        MAX_PRICE as int >= 0,
                ;
                assert(target * (4 * (MAX_PRICE as int)) < u128::MAX as int) by (nonlinear_arith)
                    requires
                        0 <= target && target <= u64::MAX as int,
                ;
            }
            total_volume_filled = total_volume_filled + price_info.total_volume;
            total_price_paid = total_price_paid + price_info.total_price;
        }
        proof {
            lemma_fill_volume(book_levels(s), target);
            if total_volume_filled >= buy_volume {
                assert(s.take(i as int) + s.skip(i as int) =~= s);
                lemma_book_levels_append(s.take(i as int), s.skip(i as int));
                lemma_fill_append(book_levels(s.take(i as int)), book_levels(s.skip(i as int)),
                    target);
                lemma_fill_nonpositive(book_levels(s.take(i as int)),
                    target - total_volume_filled as int);
            } else {
                assert(s.skip(0) =~= s);
            }
        }
        if total_volume_filled < buy_volume {
            return None;
        }
        return Some(total_price_paid);
    }
}

} // verus!
