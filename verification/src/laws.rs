use vstd::prelude::*;
use crate::book::{find_level, insert_position, lemma_find_level, lemma_find_level_unique,
    lemma_first_lower, lemma_wf_insert, lemma_wf_remove, lemma_wf_update, scalar_add, scalar_wf};
use crate::fill::{fill_from_end, lemma_fill_all_zero, lemma_fill_append, lemma_fill_insert_zero,
    lemma_fill_occupied, lemma_total_volume_append, lemma_total_volume_occupied, occupied,
    total_volume};
use crate::group::{from_order, lemma_from_order_props, GroupView};
use crate::lane_book::{book_levels, find_group, insert_position_group, lemma_book_levels_append,
    lemma_book_levels_singleton, lemma_distinct_bases_disjoint, lemma_find_group,
    lemma_find_group_unique, lemma_first_lower_group, lemma_fresh_base, lemma_overwrite_wf,
    lemma_wf_groups_insert, lemma_wf_groups_remove, lemma_wf_groups_update, simd_add, wf_groups};
use crate::level::{MAX_PRICE, MAX_VOLUME, OrderInfo};

verus! {

/// Cross-implementation equivalence: when the scalar book and the
/// lane-packed book hold the same occupied levels in the same walk
/// order (empty lanes aside), every volume query consumes the same
/// volume at the same cost in both, and both hold the same total
/// volume. Through the books' query contracts, both then return the
/// same cost, or both report insufficient depth.
pub proof fn lemma_books_agree(
    scalar_levels: Seq<OrderInfo>,
    groups: Seq<GroupView>,
    target: int,
)
    requires
        target >= 0,
        occupied(book_levels(groups)) == occupied(scalar_levels),
    ensures
        fill_from_end(book_levels(groups), target) == fill_from_end(scalar_levels, target),
        total_volume(book_levels(groups)) == total_volume(scalar_levels),
{
    lemma_fill_occupied(book_levels(groups), target);
    lemma_fill_occupied(scalar_levels, target);
    lemma_total_volume_occupied(book_levels(groups));
    lemma_total_volume_occupied(scalar_levels);
}

/// Idempotent overwrite, scalar book: submitting the same order twice
/// leaves every volume query and the total volume exactly as after
/// submitting it once.
pub proof fn lemma_scalar_add_idempotent(levels: Seq<OrderInfo>, order: OrderInfo, target: int)
    requires
        scalar_wf(levels),
        order.volume <= MAX_VOLUME,
        order.price.price_data <= MAX_PRICE,
        target >= 0,
    ensures
        fill_from_end(scalar_add(scalar_add(levels, order), order), target) == fill_from_end(
            scalar_add(levels, order),
            target,
        ),
        total_volume(scalar_add(scalar_add(levels, order), order)) == total_volume(
            scalar_add(levels, order),
        ),
{
    let p = order.price.price_data;
    lemma_find_level(levels, p);
    match find_level(levels, p) {
        Some(i) => {
            if order.volume == 0 {
                let s1 = levels.remove(i);
                lemma_wf_remove(levels, i);
                lemma_find_level(s1, p);
                match find_level(s1, p) {
                    Some(j) => {
                        assert(s1[j] == (if j < i {
                            levels[j]
                        } else {
                            levels[j + 1]
                        }));
                        assert(false);
                    },
                    None => {},
                }
                let k = insert_position(s1, p);
                lemma_first_lower(s1, p);
                assert(0 <= k <= s1.len());
                lemma_fill_insert_zero(s1, k, order, target);
            } else {
                let s1 = levels.update(i, order);
                lemma_wf_update(levels, i, order);
                lemma_find_level_unique(s1, p, i);
                assert(s1.update(i, order) =~= s1);
            }
        },
        None => {
            let k = insert_position(levels, p);
            lemma_first_lower(levels, p);
            assert(0 <= k <= levels.len());
            let s1 = levels.insert(k, order);
            lemma_wf_insert(levels, k, order);
            assert(s1[k] == order);
            lemma_find_level_unique(s1, p, k);
            if order.volume == 0 {
                assert(s1.remove(k) =~= levels);
                lemma_fill_insert_zero(levels, k, order, target);
            } else {
                assert(s1.update(k, order) =~= s1);
            }
        },
    }
}

/// Zeroing removes a level, scalar book: submitting an order at a fresh
/// price and then overwriting it with volume zero restores the book
/// exactly.
pub proof fn lemma_scalar_add_zeroing(
    levels: Seq<OrderInfo>,
    order: OrderInfo,
    zero_order: OrderInfo,
)
    requires
        scalar_wf(levels),
        order.volume <= MAX_VOLUME,
        order.price.price_data <= MAX_PRICE,
        zero_order.price == order.price,
        zero_order.volume == 0,
        forall|j: int|
            0 <= j < levels.len() ==> #[trigger] levels[j].price.price_data
                != order.price.price_data,
    ensures
        scalar_add(scalar_add(levels, order), zero_order) == levels,
{
    let p = order.price.price_data;
    lemma_find_level(levels, p);
    match find_level(levels, p) {
        Some(i) => {
            assert(false);
        },
        None => {},
    }
    let k = insert_position(levels, p);
    lemma_first_lower(levels, p);
    assert(0 <= k <= levels.len());
    let s1 = levels.insert(k, order);
    lemma_wf_insert(levels, k, order);
    assert(s1[k] == order);
    lemma_find_level_unique(s1, p, k);
    assert(s1.remove(k) =~= levels);
}

/// Splicing in a group that holds no volume at all changes neither any
/// volume query nor the total volume.
proof fn lemma_insert_empty_group(groups: Seq<GroupView>, k: int, g: GroupView, target: int)
    requires
        0 <= k <= groups.len(),
        g.total() == 0,
        g.volumes.len() == 4,
        target >= 0,
    ensures
        fill_from_end(book_levels(groups.insert(k, g)), target) == fill_from_end(
            book_levels(groups),
            target,
        ),
        total_volume(book_levels(groups.insert(k, g))) == total_volume(book_levels(groups)),
{
    let a = groups.take(k);
    let b = groups.skip(k);
    let single = seq![g];
    assert(groups.insert(k, g) =~= a + (single + b));
    assert(groups =~= a + b);
    lemma_book_levels_append(a, single + b);
    lemma_book_levels_append(single, b);
    lemma_book_levels_singleton(g);
    lemma_book_levels_append(a, b);
    assert(g.volumes[0] == 0 && g.volumes[1] == 0 && g.volumes[2] == 0 && g.volumes[3] == 0);
    assert(forall|j: int| 0 <= j < g.levels().len() ==> (#[trigger] g.levels()[j].volume) == 0);
    lemma_fill_append(book_levels(a), g.levels() + book_levels(b), target);
    lemma_fill_append(g.levels(), book_levels(b), target);
    lemma_fill_append(book_levels(a), book_levels(b), target);
    lemma_fill_all_zero(g.levels(), target - fill_from_end(book_levels(b), target).1);
    lemma_total_volume_append(book_levels(a), g.levels() + book_levels(b));
    lemma_total_volume_append(g.levels(), book_levels(b));
    lemma_total_volume_append(book_levels(a), book_levels(b));
    lemma_fill_all_zero(g.levels(), 0);
}

/// Idempotent overwrite, lane-packed book: submitting the same order
/// twice leaves every volume query and the total volume exactly as
/// after submitting it once.
pub proof fn lemma_simd_add_idempotent(
    groups: Seq<GroupView>,
    order: OrderInfo,
    price_dist: u64,
    target: int,
)
    requires
        wf_groups(groups, price_dist),
        1 <= price_dist <= MAX_PRICE,
        order.volume <= MAX_VOLUME,
        order.price.price_data <= MAX_PRICE,
        (order.price.price_data as int) % (price_dist as int) == 0,
        target >= 0,
    ensures
        fill_from_end(
            book_levels(simd_add(simd_add(groups, order, price_dist), order, price_dist)),
            target,
        ) == fill_from_end(book_levels(simd_add(groups, order, price_dist)), target),
        total_volume(book_levels(simd_add(simd_add(groups, order, price_dist), order, price_dist)))
            == total_volume(book_levels(simd_add(groups, order, price_dist))),
{
    let p = order.price.price_data;
    let v = order.volume;
    lemma_find_group(groups, p);
    match find_group(groups, p) {
        Some(i) => {
            let g1 = groups[i].overwrite(p, v);
            lemma_overwrite_wf(groups[i], price_dist, p, v);
            if g1.total() == 0 {
                let s1 = groups.remove(i);
                lemma_wf_groups_remove(groups, i, price_dist);
                lemma_find_group(s1, p);
                match find_group(s1, p) {
                    Some(j) => {
                        assert(s1[j] == (if j < i {
                            groups[j]
                        } else {
                            groups[j + 1]
                        }));
                        if j < i {
                            lemma_distinct_bases_disjoint(groups[j], groups[i], price_dist, p);
                        } else {
                            lemma_distinct_bases_disjoint(groups[j + 1], groups[i], price_dist, p);
                        }
                        assert(false);
                    },
                    None => {},
                }
                // every lane of the overwritten group is empty, so the
                // overwritten volume itself was zero
                assert(g1.volumes[0] == 0 && g1.volumes[1] == 0 && g1.volumes[2] == 0
                    && g1.volumes[3] == 0);
                assert(v == 0) by {
                    if groups[i].prices[0] == p {
                        assert(g1.volumes[0] == v);
                    } else if groups[i].prices[1] == p {
                        assert(g1.volumes[1] == v);
                    } else if groups[i].prices[2] == p {
                        assert(g1.volumes[2] == v);
                    } else {
                        assert(g1.volumes[3] == v);
                    }
                }
                lemma_from_order_props(order, price_dist);
                let g0 = from_order(order, price_dist);
                assert(g0.total() == 0);
                let k = insert_position_group(s1, p);
                lemma_first_lower_group(s1, p);
                assert(0 <= k <= s1.len());
                lemma_insert_empty_group(s1, k, g0, target);
            } else {
                let s1 = groups.update(i, g1);
                lemma_wf_groups_update(groups, i, g1, price_dist);
                assert(s1[i].contains(p));
                lemma_find_group_unique(s1, p, i, price_dist);
                let g2 = s1[i].overwrite(p, v);
                assert(g2.volumes =~= g1.volumes);
                assert(g2 =~= g1);
                assert(s1.update(i, g2) =~= s1);
            }
        },
        None => {
            lemma_from_order_props(order, price_dist);
            let g0 = from_order(order, price_dist);
            let k = insert_position_group(groups, p);
            lemma_first_lower_group(groups, p);
            assert(0 <= k <= groups.len());
            let s1 = groups.insert(k, g0);
            lemma_fresh_base(groups, order, price_dist);
            lemma_wf_groups_insert(groups, k, g0, price_dist);
            assert(s1[k] == g0);
            lemma_find_group_unique(s1, p, k, price_dist);
            let g1 = g0.overwrite(p, v);
            assert(g1.volumes =~= g0.volumes);
            assert(g1 =~= g0);
            if g1.total() == 0 {
                assert(s1.remove(k) =~= groups);
                lemma_insert_empty_group(groups, k, g0, target);
            } else {
                assert(s1.update(k, g1) =~= s1);
            }
        },
    }
}

/// Zeroing removes a level, lane-packed book: submitting an order at a
/// price no group covers and then overwriting it with volume zero
/// restores the book exactly.
pub proof fn lemma_simd_add_zeroing(
    groups: Seq<GroupView>,
    order: OrderInfo,
    zero_order: OrderInfo,
    price_dist: u64,
)
    requires
        wf_groups(groups, price_dist),
        1 <= price_dist <= MAX_PRICE,
        order.volume <= MAX_VOLUME,
        order.price.price_data <= MAX_PRICE,
        (order.price.price_data as int) % (price_dist as int) == 0,
        zero_order.price == order.price,
        zero_order.volume == 0,
        forall|j: int| 0 <= j < groups.len() ==> !(#[trigger] groups[j]).contains(
            order.price.price_data,
        ),
    ensures
        simd_add(simd_add(groups, order, price_dist), zero_order, price_dist) == groups,
{
    let p = order.price.price_data;
    lemma_find_group(groups, p);
    match find_group(groups, p) {
        Some(i) => {
            assert(false);
        },
        None => {},
    }
    lemma_from_order_props(order, price_dist);
    let g0 = from_order(order, price_dist);
    let k = insert_position_group(groups, p);
    lemma_first_lower_group(groups, p);
    assert(0 <= k <= groups.len());
    let s1 = groups.insert(k, g0);
    lemma_fresh_base(groups, order, price_dist);
    lemma_wf_groups_insert(groups, k, g0, price_dist);
    assert(s1[k] == g0);
    lemma_find_group_unique(s1, p, k, price_dist);
    let g1 = g0.overwrite(p, 0);
    assert forall|j: int| 0 <= j < 4 implies (#[trigger] g1.volumes[j]) == 0 by {
        assert(g0.volumes[j] == (if g0.prices[j] == p {
            order.volume
        } else {
            0u64
        }));
    }
    assert(g1.total() == 0);
    assert(s1.remove(k) =~= groups);
}

} // verus!
