//! Ghost model of one side of the book and of the matching sweep.
//!
//! A resting order is abstracted to an [`Entry`] (its id and live quantity);
//! a side of the book is a sequence of optional FIFOs indexed by tick offset
//! from the base price. [`fill_fifo`] says how an incoming quantity consumes
//! one FIFO in time priority, and [`sweep_levels`] how it walks the offsets
//! in price priority. The executable book is specified against these
//! functions, and the library's laws are proved about them here.

use vstd::prelude::*;

verus! {

/// A resting order as the matcher sees it: its id and live quantity.
pub ghost struct Entry {
    pub id: u64,
    pub qty: int,
}

/// One match produced by a sweep: the level's tick offset, the resting
/// order's id, and the quantity crossed.
pub ghost struct Fill {
    pub off: int,
    pub id: u64,
    pub qty: int,
}

/// Result of filling one FIFO: the matches in time order, the FIFO that
/// remains, and the total quantity taken.
pub ghost struct FifoFill {
    pub fills: Seq<Entry>,
    pub rest: Seq<Entry>,
    pub taken: int,
}

/// Result of sweeping one side: the matches in match order, the side that
/// remains, and the total quantity taken.
pub ghost struct SideSweep {
    pub fills: Seq<Fill>,
    pub side: Seq<Option<Seq<Entry>>>,
    pub taken: int,
}

/// Consume `qty` from the front of `fifo` in strict FIFO order. Each match
/// takes the minimum of the head's quantity and what is still wanted; a
/// partially filled head stays at the front with its quantity reduced.
pub open spec fn fill_fifo(fifo: Seq<Entry>, qty: int) -> FifoFill
    decreases fifo.len(),
{
    if qty <= 0 || fifo.len() == 0 {
        FifoFill { fills: Seq::empty(), rest: fifo, taken: 0 }
    } else {
        let head = fifo[0];
        if head.qty <= qty {
            let r = fill_fifo(fifo.drop_first(), qty - head.qty);
            FifoFill {
                fills: Seq::empty().push(head) + r.fills,
                rest: r.rest,
                taken: head.qty + r.taken,
            }
        } else {
            FifoFill {
                fills: Seq::empty().push(Entry { id: head.id, qty }),
                rest: Seq::empty().push(Entry { id: head.id, qty: head.qty - qty }) + fifo.drop_first(),
                taken: qty,
            }
        }
    }
}

/// Tag the matches of one level with its tick offset.
pub open spec fn at_offset(off: int, fills: Seq<Entry>) -> Seq<Fill> {
    fills.map(|k: int, e: Entry| Fill { off, id: e.id, qty: e.qty })
}

/// Sweep the side from offset `from` (best price first) up to, but not
/// including, offset `stop`, consuming at most `qty`. A level is left in
/// place as soon as the incoming quantity runs out; an emptied level's slot
/// becomes vacant.
pub open spec fn sweep_levels(
    side: Seq<Option<Seq<Entry>>>,
    from: int,
    stop: int,
    qty: int,
) -> SideSweep
    decreases stop - from,
{
    if from < 0 || from >= stop || qty <= 0 {
        SideSweep { fills: Seq::empty(), side, taken: 0 }
    } else {
        match side[from] {
            None => sweep_levels(side, from + 1, stop, qty),
            Some(fifo) => {
                let f = fill_fifo(fifo, qty);
                if f.rest.len() == 0 {
                    let s = sweep_levels(side.update(from, None), from + 1, stop, qty - f.taken);
                    SideSweep {
                        fills: at_offset(from, f.fills) + s.fills,
                        side: s.side,
                        taken: f.taken + s.taken,
                    }
                } else {
                    SideSweep {
                        fills: at_offset(from, f.fills),
                        side: side.update(from, Some(f.rest)),
                        taken: f.taken,
                    }
                }
            },
        }
    }
}

/// Total quantity of a FIFO.
pub open spec fn sum_qty(fifo: Seq<Entry>) -> int
    decreases fifo.len(),
{
    if fifo.len() == 0 {
        0
    } else {
        fifo[0].qty + sum_qty(fifo.drop_first())
    }
}

/// Total resting quantity of a side.
pub open spec fn side_qty(side: Seq<Option<Seq<Entry>>>) -> int
    decreases side.len(),
{
    if side.len() == 0 {
        0
    } else {
        (match side[0] {
            Some(fifo) => sum_qty(fifo),
            None => 0,
        }) + side_qty(side.drop_first())
    }
}

/// Number of orders resting on a side.
pub open spec fn side_orders(side: Seq<Option<Seq<Entry>>>) -> int
    decreases side.len(),
{
    if side.len() == 0 {
        0
    } else {
        (match side[0] {
            Some(fifo) => fifo.len() as int,
            None => 0,
        }) + side_orders(side.drop_first())
    }
}

/// Every entry of the FIFO has strictly positive quantity.
pub open spec fn fifo_positive(fifo: Seq<Entry>) -> bool {
    forall|k: int| 0 <= k < fifo.len() ==> (#[trigger] fifo[k]).qty > 0
}

/// Every occupied level holds a non-empty FIFO of positive entries.
pub open spec fn side_positive(side: Seq<Option<Seq<Entry>>>) -> bool {
    forall|i: int|
        0 <= i < side.len() && (#[trigger] side[i]) is Some ==> fifo_positive(side[i]->Some_0)
            && side[i]->Some_0.len() > 0
}

/// Number of occupied levels of a side at or after offset `from`.
pub open spec fn count_some_from(side: Seq<Option<Seq<Entry>>>, from: int) -> int
    decreases side.len() - from,
{
    if from < 0 || from >= side.len() {
        0
    } else {
        (if side[from] is Some {
            1int
        } else {
            0int
        }) + count_some_from(side, from + 1)
    }
}

/// The smallest occupied offset of a side, if any: the side's best price.
pub open spec fn first_occupied(side: Seq<Option<Seq<Entry>>>, from: int) -> Option<int>
    decreases side.len() - from,
{
    if from < 0 || from >= side.len() {
        None
    } else if side[from] is Some {
        Some(from)
    } else {
        first_occupied(side, from + 1)
    }
}

/// Total quantity named by a sequence of fills.
pub open spec fn sum_fill_qty(fills: Seq<Fill>) -> int
    decreases fills.len(),
{
    if fills.len() == 0 {
        0
    } else {
        fills[0].qty + sum_fill_qty(fills.drop_first())
    }
}

pub proof fn lemma_sum_qty_singleton(e: Entry)
    ensures
        sum_qty(Seq::empty().push(e)) == e.qty,
{
    reveal_with_fuel(sum_qty, 2);
    assert(Seq::empty().push(e).drop_first() =~= Seq::<Entry>::empty());
}

/// Sums split over concatenation.
pub proof fn lemma_sum_qty_add(a: Seq<Entry>, b: Seq<Entry>)
    ensures
        sum_qty(a + b) == sum_qty(a) + sum_qty(b),
    decreases a.len(),
{
    if a.len() == 0 {
        assert(a + b =~= b);
    } else {
        assert((a + b).drop_first() =~= a.drop_first() + b);
        lemma_sum_qty_add(a.drop_first(), b);
    }
}

pub proof fn lemma_sum_fill_qty_add(a: Seq<Fill>, b: Seq<Fill>)
    ensures
        sum_fill_qty(a + b) == sum_fill_qty(a) + sum_fill_qty(b),
    decreases a.len(),
{
    if a.len() == 0 {
        assert(a + b =~= b);
    } else {
        assert((a + b).drop_first() =~= a.drop_first() + b);
        lemma_sum_fill_qty_add(a.drop_first(), b);
    }
}

/// Tagging matches with an offset keeps their total quantity.
pub proof fn lemma_at_offset_sum(off: int, fills: Seq<Entry>)
    ensures
        at_offset(off, fills).len() == fills.len(),
        sum_fill_qty(at_offset(off, fills)) == sum_qty(fills),
        forall|j: int|
            0 <= j < fills.len() ==> (#[trigger] at_offset(off, fills)[j]) == (Fill {
                off,
                id: fills[j].id,
                qty: fills[j].qty,
            }),
    decreases fills.len(),
{
    if fills.len() == 0 {
    } else {
        lemma_at_offset_sum(off, fills.drop_first());
        assert(at_offset(off, fills).drop_first() =~= at_offset(off, fills.drop_first()));
    }
}

/// A FIFO of positive entries has a non-negative total, bounded below by
/// its head.
pub proof fn lemma_sum_qty_nonneg(fifo: Seq<Entry>)
    requires
        fifo_positive(fifo),
    ensures
        sum_qty(fifo) >= 0,
        fifo.len() > 0 ==> sum_qty(fifo) >= fifo[0].qty,
        sum_qty(fifo) >= fifo.len(),
    decreases fifo.len(),
{
    if fifo.len() == 0 {
    } else {
        assert(fifo_positive(fifo.drop_first())) by {
            assert(forall|k: int|
                0 <= k < fifo.drop_first().len() ==> (#[trigger] fifo.drop_first()[k]) == fifo[
                    k + 1
                ]);
        }
        lemma_sum_qty_nonneg(fifo.drop_first());
    }
}

/// Everything [`fill_fifo`] guarantees about one level fill: the taken
/// quantity is bounded by demand and supply and conserved between the
/// matches and the remainder, and the matches are a prefix of the FIFO in
/// order, every one of them full except possibly the last.
pub proof fn lemma_fill_fifo_basic(fifo: Seq<Entry>, qty: int)
    requires
        fifo_positive(fifo),
        qty >= 0,
    ensures
        ({
            let f = fill_fifo(fifo, qty);
            &&& 0 <= f.taken <= qty
            &&& f.taken <= sum_qty(fifo)
            &&& sum_qty(f.rest) == sum_qty(fifo) - f.taken
            &&& fifo_positive(f.rest)
            &&& f.rest.len() <= fifo.len()
            &&& f.fills.len() <= fifo.len()
            &&& sum_qty(f.fills) == f.taken
            &&& fifo_positive(f.fills)
            &&& f.rest.len() > 0 ==> f.taken == qty
            &&& qty >= sum_qty(fifo) ==> f.rest.len() == 0
            &&& qty <= sum_qty(fifo) ==> f.taken == qty
            &&& forall|j: int|
                0 <= j < f.fills.len() ==> (#[trigger] f.fills[j]).id == fifo[j].id && f.fills[
                    j
                ].qty <= fifo[j].qty
            &&& forall|j: int| 0 <= j < f.fills.len() - 1 ==> (#[trigger] f.fills[j]).qty == fifo[j].qty
            &&& forall|j: int|
                1 <= j < f.rest.len() ==> (#[trigger] f.rest[j]) == fifo[fifo.len() - f.rest.len()
                    + j]
            &&& f.rest.len() > 0 ==> f.rest[0].id == fifo[fifo.len() - f.rest.len()].id
                && f.rest[0].qty <= fifo[fifo.len() - f.rest.len()].qty
        }),
    decreases fifo.len(),
{
    lemma_sum_qty_nonneg(fifo);
    if qty <= 0 || fifo.len() == 0 {
    } else {
        let head = fifo[0];
        let tail = fifo.drop_first();
        assert(fifo_positive(tail)) by {
            assert(forall|k: int|
                0 <= k < tail.len() ==> (#[trigger] tail[k]) == fifo[k + 1]);
        }
        let f = fill_fifo(fifo, qty);
        if head.qty <= qty {
            let r = fill_fifo(tail, qty - head.qty);
            lemma_fill_fifo_basic(tail, qty - head.qty);
            assert(f.fills == Seq::empty().push(head) + r.fills);
            assert(sum_qty(f.fills) == head.qty + sum_qty(r.fills)) by {
                lemma_sum_qty_add(Seq::empty().push(head), r.fills);
                lemma_sum_qty_singleton(head);
            }
            assert(forall|j: int|
                1 <= j < f.fills.len() ==> (#[trigger] f.fills[j]) == r.fills[j - 1]);
            assert(forall|j: int| 0 <= j < tail.len() ==> (#[trigger] tail[j]) == fifo[j + 1]);
            assert(sum_qty(fifo) == head.qty + sum_qty(tail));
        } else {
            let reduced = Entry { id: head.id, qty: head.qty - qty };
            assert(f.rest == Seq::empty().push(reduced) + tail);
            assert(sum_qty(f.rest) == reduced.qty + sum_qty(tail)) by {
                lemma_sum_qty_add(Seq::empty().push(reduced), tail);
                lemma_sum_qty_singleton(reduced);
            }
            lemma_sum_qty_singleton(Entry { id: head.id, qty });
            assert(fifo_positive(f.rest)) by {
                assert(forall|k: int|
                    1 <= k < f.rest.len() ==> (#[trigger] f.rest[k]) == tail[k - 1]);
            }
            assert(sum_qty(fifo) == head.qty + sum_qty(tail));
            lemma_sum_qty_nonneg(tail);
            assert(forall|j: int|
                1 <= j < f.rest.len() ==> (#[trigger] f.rest[j]) == fifo[fifo.len() - f.rest.len()
                    + j]);
        }
    }
}

/// Removing one entry takes exactly its quantity out of the sum.
pub proof fn lemma_sum_qty_remove(fifo: Seq<Entry>, k: int)
    requires
        0 <= k < fifo.len(),
    ensures
        sum_qty(fifo.remove(k)) == sum_qty(fifo) - fifo[k].qty,
    decreases fifo.len(),
{
    if k == 0 {
        assert(fifo.remove(0) =~= fifo.drop_first());
    } else {
        assert(fifo.remove(k).drop_first() =~= fifo.drop_first().remove(k - 1));
        lemma_sum_qty_remove(fifo.drop_first(), k - 1);
    }
}

/// In a positive FIFO the total is at least any single entry.
pub proof fn lemma_sum_qty_ge_elem(fifo: Seq<Entry>, k: int)
    requires
        fifo_positive(fifo),
        0 <= k < fifo.len(),
    ensures
        sum_qty(fifo) >= fifo[k].qty,
{
    lemma_sum_qty_remove(fifo, k);
    assert(fifo_positive(fifo.remove(k))) by {
        assert forall|j: int|
            0 <= j < fifo.remove(k).len() implies (#[trigger] fifo.remove(k)[j]).qty > 0 by {
            if j < k {
                assert(fifo.remove(k)[j] == fifo[j]);
            } else {
                assert(fifo.remove(k)[j] == fifo[j + 1]);
            }
        }
    }
    lemma_sum_qty_nonneg(fifo.remove(k));
}

/// The total quantity of a side changes only at an updated offset.
pub proof fn lemma_side_qty_update(side: Seq<Option<Seq<Entry>>>, i: int, v: Option<Seq<Entry>>)
    requires
        0 <= i < side.len(),
    ensures
        side_qty(side.update(i, v)) == side_qty(side) - (match side[i] {
            Some(fifo) => sum_qty(fifo),
            None => 0,
        }) + (match v {
            Some(fifo) => sum_qty(fifo),
            None => 0,
        }),
    decreases side.len(),
{
    if i == 0 {
        assert(side.update(0, v).drop_first() =~= side.drop_first());
    } else {
        assert(side.update(i, v).drop_first() =~= side.drop_first().update(i - 1, v));
        lemma_side_qty_update(side.drop_first(), i - 1, v);
    }
}

/// The number of resting orders of a side changes only at an updated
/// offset.
pub proof fn lemma_side_orders_update(
    side: Seq<Option<Seq<Entry>>>,
    i: int,
    v: Option<Seq<Entry>>,
)
    requires
        0 <= i < side.len(),
    ensures
        side_orders(side.update(i, v)) == side_orders(side) - (match side[i] {
            Some(fifo) => fifo.len() as int,
            None => 0,
        }) + (match v {
            Some(fifo) => fifo.len() as int,
            None => 0,
        }),
    decreases side.len(),
{
    if i == 0 {
        assert(side.update(0, v).drop_first() =~= side.drop_first());
    } else {
        assert(side.update(i, v).drop_first() =~= side.drop_first().update(i - 1, v));
        lemma_side_orders_update(side.drop_first(), i - 1, v);
    }
}

/// Everything [`sweep_levels`] guarantees about one sweep: it takes no more
/// than asked and no more than the side held; the taken quantity leaves the
/// side exactly; every fill names an occupied level inside the swept price
/// range, and fills come best price first.
pub proof fn lemma_sweep_basic(side: Seq<Option<Seq<Entry>>>, from: int, stop: int, qty: int)
    requires
        side_positive(side),
        qty >= 0,
        0 <= from,
        stop <= side.len(),
    ensures
        ({
            let s = sweep_levels(side, from, stop, qty);
            &&& 0 <= s.taken <= qty
            &&& s.side.len() == side.len()
            &&& side_positive(s.side)
            &&& forall|i: int|
                0 <= i < side.len() && !(from <= i < stop) ==> s.side[i] == side[i]
            &&& forall|i: int|
                0 <= i < side.len() && (#[trigger] s.side[i]) is Some ==> side[i] is Some
            &&& side_qty(s.side) == side_qty(side) - s.taken
            &&& sum_fill_qty(s.fills) == s.taken
            &&& forall|j: int|
                0 <= j < s.fills.len() ==> from <= (#[trigger] s.fills[j]).off < stop && side[
                    s.fills[j].off
                ] is Some && s.fills[j].qty > 0
            &&& forall|j1: int, j2: int|
                0 <= j1 < j2 < s.fills.len() ==> s.fills[j1].off <= s.fills[j2].off
            &&& s.taken == 0 ==> s.side == side && s.fills =~= Seq::<Fill>::empty()
        }),
    decreases stop - from,
{
    if from >= stop || qty <= 0 {
    } else {
        match side[from] {
            None => {
                lemma_sweep_basic(side, from + 1, stop, qty);
            },
            Some(fifo) => {
                let f = fill_fifo(fifo, qty);
                lemma_fill_fifo_basic(fifo, qty);
                lemma_at_offset_sum(from, f.fills);
                lemma_sum_qty_nonneg(fifo);
                assert(f.taken > 0) by {
                    if qty > sum_qty(fifo) {
                        assert(f.rest.len() == 0);
                        assert(sum_qty(f.rest) == 0);
                        assert(f.taken == sum_qty(fifo));
                        assert(sum_qty(fifo) >= fifo.len());
                    }
                }
                if f.rest.len() == 0 {
                    let emptied = side.update(from, None);
                    assert(side_positive(emptied)) by {
                        assert(forall|i: int|
                            0 <= i < emptied.len() && i != from ==> emptied[i] == side[i]);
                    }
                    lemma_side_qty_update(side, from, None);
                    lemma_sweep_basic(emptied, from + 1, stop, qty - f.taken);
                    let s2 = sweep_levels(emptied, from + 1, stop, qty - f.taken);
                    let s = sweep_levels(side, from, stop, qty);
                    lemma_sum_fill_qty_add(at_offset(from, f.fills), s2.fills);
                    assert(forall|j: int|
                        0 <= j < at_offset(from, f.fills).len() ==> (#[trigger] s.fills[j])
                            == at_offset(from, f.fills)[j]);
                    assert(forall|j: int|
                        at_offset(from, f.fills).len() <= j < s.fills.len()
                            ==> (#[trigger] s.fills[j]) == s2.fills[
                            j - at_offset(from, f.fills).len()
                        ]);
                    assert forall|j: int|
                        0 <= j < s.fills.len() implies from <= (#[trigger] s.fills[j]).off < stop
                            && side[s.fills[j].off] is Some && s.fills[j].qty > 0 by {
                        if j >= at_offset(from, f.fills).len() {
                            let j2 = j - at_offset(from, f.fills).len();
                            assert(s.fills[j] == s2.fills[j2]);
                            assert(from + 1 <= s2.fills[j2].off < stop);
                            assert(emptied[s2.fills[j2].off] == side[s2.fills[j2].off]);
                        }
                    }
                } else {
                    let updated = side.update(from, Some(f.rest));
                    assert(side_positive(updated)) by {
                        assert(forall|i: int|
                            0 <= i < updated.len() && i != from ==> updated[i] == side[i]);
                    }
                    lemma_side_qty_update(side, from, Some(f.rest));
                }
            },
        }
    }
}


/// A positive side rests a non-negative total quantity.
pub proof fn lemma_side_qty_nonneg(side: Seq<Option<Seq<Entry>>>)
    requires
        side_positive(side),
    ensures
        side_qty(side) >= 0,
    decreases side.len(),
{
    if side.len() > 0 {
        if side[0] is Some {
            lemma_sum_qty_nonneg(side[0]->Some_0);
        }
        assert(side_positive(side.drop_first())) by {
            assert(forall|i: int|
                0 <= i < side.drop_first().len() ==> (#[trigger] side.drop_first()[i]) == side[
                    i + 1
                ]);
        }
        lemma_side_qty_nonneg(side.drop_first());
    }
}

/// Law: matching conserves quantity. A sweep takes no more than the
/// aggressor asked and no more than the side rested, the emitted
/// executions account for exactly what was taken, and the swept side's
/// resting quantity shrinks by exactly that amount.
pub proof fn lemma_conservation(side: Seq<Option<Seq<Entry>>>, stop: int, qty: int)
    requires
        side_positive(side),
        qty >= 0,
        stop <= side.len(),
    ensures
        ({
            let s = sweep_levels(side, 0, stop, qty);
            &&& 0 <= s.taken <= qty
            &&& sum_fill_qty(s.fills) == s.taken
            &&& side_qty(s.side) == side_qty(side) - s.taken
            &&& s.taken <= side_qty(side)
        }),
{
    lemma_sweep_basic(side, 0, stop, qty);
    let s = sweep_levels(side, 0, stop, qty);
    lemma_side_qty_nonneg(s.side);
}

/// Law: price-time priority within a price level. Whenever a fill reaches
/// the resting order at position `j2` of a level's FIFO, every order that
/// arrived earlier at that price (any position `j1 < j2`) has already been
/// consumed in full, and fills follow the FIFO order exactly.
pub proof fn lemma_price_time_priority(fifo: Seq<Entry>, qty: int, j1: int, j2: int)
    requires
        fifo_positive(fifo),
        qty >= 0,
        0 <= j1 < j2,
        j2 < fill_fifo(fifo, qty).fills.len(),
    ensures
        ({
            let f = fill_fifo(fifo, qty);
            &&& f.fills[j1].id == fifo[j1].id
            &&& f.fills[j1].qty == fifo[j1].qty
            &&& f.fills[j2].id == fifo[j2].id
        }),
{
    lemma_fill_fifo_basic(fifo, qty);
}

} // verus!
