use vstd::prelude::*;
use vstd::math::{max, min};
use crate::level::OrderInfo;

verus! {

/// The pair (cost, volume) consumed when a requested volume `target` is
/// matched against `levels`, walking levels from the END of the sequence
/// toward the front. Each level consumes as much of the still-unfilled
/// volume as it holds, at its own price; the walk never consumes more
/// than `target` in total. Both books answer their volume queries
/// according to this walk over their levels.
pub open spec fn fill_from_end(levels: Seq<OrderInfo>, target: int) -> (int, int)
    decreases levels.len(),
{
    if levels.len() == 0 {
        (0, 0)
    } else {
        let last = levels.last();
        let used = min(last.volume as int, max(target, 0));
        let rest = fill_from_end(levels.drop_last(), target - used);
        (rest.0 + used * (last.price.price_data as int), rest.1 + used)
    }
}

/// Sum of the volumes resting at `levels`.
pub open spec fn total_volume(levels: Seq<OrderInfo>) -> int
    decreases levels.len(),
{
    if levels.len() == 0 {
        0
    } else {
        total_volume(levels.drop_last()) + levels.last().volume
    }
}

/// A level is occupied when it holds any volume at all; a level of volume
/// zero is treated as absent.
pub open spec fn is_occupied(level: OrderInfo) -> bool {
    level.volume > 0
}

/// The subsequence of occupied levels, in their original order.
pub open spec fn occupied(levels: Seq<OrderInfo>) -> Seq<OrderInfo> {
    levels.filter(|level: OrderInfo| is_occupied(level))
}

/// A non-positive request consumes nothing and costs nothing.
pub proof fn lemma_fill_nonpositive(levels: Seq<OrderInfo>, target: int)
    requires
        target <= 0,
    ensures
        fill_from_end(levels, target) == (0int, 0int),
    decreases levels.len(),
{
    if levels.len() > 0 {
        let last = levels.last();
        assert(min(last.volume as int, max(target, 0)) == 0);
        lemma_fill_nonpositive(levels.drop_last(), target);
        assert(0int * (last.price.price_data as int) == 0) by (nonlinear_arith);
    }
}

/// The walk consumes exactly the requested volume when the book holds
/// enough, and everything the book holds otherwise; the cost is never
/// negative.
pub proof fn lemma_fill_volume(levels: Seq<OrderInfo>, target: int)
    requires
        target >= 0,
    ensures
        fill_from_end(levels, target).1 == min(target, total_volume(levels)),
        fill_from_end(levels, target).0 >= 0,
        total_volume(levels) >= 0,
    decreases levels.len(),
{
    if levels.len() > 0 {
        let last = levels.last();
        let used = min(last.volume as int, max(target, 0));
        lemma_fill_volume(levels.drop_last(), target - used);
        let p = last.price.price_data as int;
        assert(used * p >= 0) by (nonlinear_arith)
            requires
                used >= 0,
                p >= 0,
        ;
    }
}

/// Splitting the walked sequence splits the walk: the back part is walked
/// first against the full request, the front part against what is left.
pub proof fn lemma_fill_append(a: Seq<OrderInfo>, b: Seq<OrderInfo>, target: int)
    requires
        target >= 0,
    ensures
        ({
            let fb = fill_from_end(b, target);
            let fa = fill_from_end(a, target - fb.1);
            fill_from_end(a + b, target) == (fa.0 + fb.0, fa.1 + fb.1)
        }),
    decreases b.len(),
{
    if b.len() == 0 {
        assert(a + b =~= a);
    } else {
        let last = b.last();
        let used = min(last.volume as int, max(target, 0));
        assert((a + b).last() == last);
        assert((a + b).drop_last() =~= a + b.drop_last());
        lemma_fill_append(a, b.drop_last(), target - used);
    }
}

/// A stretch of levels holding no volume at all consumes nothing and
/// costs nothing, whatever is requested.
pub proof fn lemma_fill_all_zero(levels: Seq<OrderInfo>, target: int)
    requires
        forall|i: int| 0 <= i < levels.len() ==> (#[trigger] levels[i].volume) == 0,
    ensures
        fill_from_end(levels, target) == (0int, 0int),
        total_volume(levels) == 0,
    decreases levels.len(),
{
    if levels.len() > 0 {
        let last = levels.last();
        assert(last.volume == 0);
        assert(min(last.volume as int, max(target, 0)) == 0);
        let front = levels.drop_last();
        assert(forall|i: int| 0 <= i < front.len() ==> front[i] == levels[i]);
        lemma_fill_all_zero(front, target);
        assert(0int * (last.price.price_data as int) == 0) by (nonlinear_arith);
    }
}

/// Volumes sum piecewise over a split of the walked sequence.
pub proof fn lemma_total_volume_append(a: Seq<OrderInfo>, b: Seq<OrderInfo>)
    ensures
        total_volume(a + b) == total_volume(a) + total_volume(b),
    decreases b.len(),
{
    if b.len() == 0 {
        assert(a + b =~= a);
    } else {
        assert((a + b).last() == b.last());
        assert((a + b).drop_last() =~= a + b.drop_last());
        lemma_total_volume_append(a, b.drop_last());
    }
}

/// Splicing in a level that holds no volume changes neither any walk's
/// outcome nor the total volume.
pub proof fn lemma_fill_insert_zero(levels: Seq<OrderInfo>, k: int, level: OrderInfo, target: int)
    requires
        0 <= k <= levels.len(),
        level.volume == 0,
        target >= 0,
    ensures
        fill_from_end(levels.insert(k, level), target) == fill_from_end(levels, target),
        total_volume(levels.insert(k, level)) == total_volume(levels),
{
    let a = levels.take(k);
    let b = levels.skip(k);
    let single = seq![level];
    assert(levels.insert(k, level) =~= a + (single + b));
    assert(levels =~= a + b);
    lemma_fill_append(a, single + b, target);
    lemma_fill_append(single, b, target);
    lemma_fill_append(a, b, target);
    lemma_fill_all_zero(single, target - fill_from_end(b, target).1);
    lemma_total_volume_append(a, single + b);
    lemma_total_volume_append(single, b);
    lemma_total_volume_append(a, b);
}

/// For a fixed book, both the volume consumed and the cost paid are
/// non-decreasing in the requested volume.
pub proof fn lemma_fill_monotone(levels: Seq<OrderInfo>, target1: int, target2: int)
    requires
        0 <= target1 <= target2,
    ensures
        fill_from_end(levels, target1).0 <= fill_from_end(levels, target2).0,
        fill_from_end(levels, target1).1 <= fill_from_end(levels, target2).1,
    decreases levels.len(),
{
    if levels.len() > 0 {
        let last = levels.last();
        let p = last.price.price_data as int;
        let used1 = min(last.volume as int, max(target1, 0));
        let used2 = min(last.volume as int, max(target2, 0));
        lemma_fill_monotone(levels.drop_last(), target1 - used1, target2 - used2);
        assert(used1 * p <= used2 * p) by (nonlinear_arith)
            requires
                used1 <= used2,
                p >= 0,
        ;
    }
}

/// Levels of zero volume neither consume nor cost anything: the walk gives
/// the same answer on the occupied subsequence alone.
pub proof fn lemma_fill_occupied(levels: Seq<OrderInfo>, target: int)
    requires
        target >= 0,
    ensures
        fill_from_end(occupied(levels), target) == fill_from_end(levels, target),
    decreases levels.len(),
{
    reveal(Seq::filter);
    if levels.len() == 0 {
        assert(occupied(levels) =~= levels);
    } else {
        let last = levels.last();
        let front = levels.drop_last();
        let used = min(last.volume as int, max(target, 0));
        if is_occupied(last) {
            let fl = occupied(front).push(last);
            assert(occupied(levels) =~= fl);
            assert(fl.last() == last);
            assert(fl.drop_last() =~= occupied(front));
            lemma_fill_occupied(front, target - used);
        } else {
            assert(used == 0);
            assert(0int * (last.price.price_data as int) == 0) by (nonlinear_arith);
            assert(occupied(levels) =~= occupied(front));
            lemma_fill_occupied(front, target);
        }
    }
}

/// Discarding zero-volume levels does not change the total volume.
pub proof fn lemma_total_volume_occupied(levels: Seq<OrderInfo>)
    ensures
        total_volume(occupied(levels)) == total_volume(levels),
    decreases levels.len(),
{
    reveal(Seq::filter);
    if levels.len() == 0 {
        assert(occupied(levels) =~= levels);
    } else {
        let last = levels.last();
        let front = levels.drop_last();
        lemma_total_volume_occupied(front);
        if is_occupied(last) {
            let fl = occupied(front).push(last);
            assert(occupied(levels) =~= fl);
            assert(fl.last() == last);
            assert(fl.drop_last() =~= occupied(front));
        } else {
            assert(occupied(levels) =~= occupied(front));
        }
    }
}

/// When every level's price is at most `price_max`, the cost of a walk is
/// at most the consumed volume times `price_max`.
pub proof fn lemma_fill_cost_bound(levels: Seq<OrderInfo>, target: int, price_max: int)
    requires
        target >= 0,
        price_max >= 0,
        forall|i: int| 0 <= i < levels.len() ==> #[trigger] levels[i].price.price_data <= price_max,
    ensures
        0 <= fill_from_end(levels, target).0
            <= fill_from_end(levels, target).1 * price_max,
        0 <= fill_from_end(levels, target).1 <= target,
    decreases levels.len(),
{
    if levels.len() == 0 {
        assert(0int * price_max == 0) by (nonlinear_arith);
    } else {
        let last = levels.last();
        let front = levels.drop_last();
        let p = last.price.price_data as int;
        let used = min(last.volume as int, max(target, 0));
        assert(last == levels[levels.len() - 1]);
        assert(forall|i: int| 0 <= i < front.len() ==> front[i] == levels[i]);
        lemma_fill_cost_bound(front, target - used, price_max);
        let rest = fill_from_end(front, target - used);
        assert(rest.0 + used * p <= (rest.1 + used) * price_max) by (nonlinear_arith)
            requires
                rest.0 <= rest.1 * price_max,
                0 <= used,
                0 <= p <= price_max,
                rest.1 >= 0,
        ;
        assert(used * p >= 0) by (nonlinear_arith)
            requires
                used >= 0,
                p >= 0,
        ;
    }
}

} // verus!
