//! Proofs that the book's coupled invariants survive each mutation: a
//! level fill during a sweep, a cancel of a resting order, a residual
//! coming to rest, and the id index growing. Each lemma takes the stores
//! before and after one such step and re-establishes the conditions of
//! [`side_ok`] and of the id index in both directions, together with how
//! the sides' abstractions changed.

use vstd::prelude::*;

use crate::model::{
    fifo_positive, lemma_sum_qty_add, lemma_sum_qty_remove, lemma_sum_qty_singleton,
    side_positive, Entry,
};
use crate::orderbook::{
    handle_ok, id_entry_ok, level_entries, level_fields_ok, level_ok, level_price,
    remove_entry_at, rest_at, same_order_but_qty, side_entries, side_ok, spec_offset,
    PRICE_LEVELS,
};
use crate::types::{Order, OrderType, PriceLevel, Side};

verus! {

/// Extending the id index with vacant entries disturbs nothing.
pub(crate) proof fn lemma_idm_extend(
    buy: Seq<Option<PriceLevel>>,
    sell: Seq<Option<PriceLevel>>,
    slots: Seq<Option<Order>>,
    idm: Seq<Option<usize>>,
    base: u64,
)
    requires
        side_ok(buy, slots, idm, base, false),
        side_ok(sell, slots, idm, base, true),
        forall|id: int|
            0 <= id < idm.len() && (#[trigger] idm[id]) is Some ==> id_entry_ok(
                id,
                idm[id]->Some_0,
                slots,
                buy,
                sell,
                base,
            ),
        forall|h: int|
            0 <= h < slots.len() && (#[trigger] slots[h]) is Some ==> (slots[h]->Some_0.order_id
                as int) < idm.len() && idm[slots[h]->Some_0.order_id as int] == Some(h as usize),
    ensures
        side_ok(buy, slots, idm.push(None), base, false),
        side_ok(sell, slots, idm.push(None), base, true),
        forall|id: int|
            0 <= id < idm.push(None::<usize>).len() && (#[trigger] idm.push(None::<usize>)[id])
                is Some ==> id_entry_ok(
                id,
                idm.push(None::<usize>)[id]->Some_0,
                slots,
                buy,
                sell,
                base,
            ),
        forall|h: int|
            0 <= h < slots.len() && (#[trigger] slots[h]) is Some ==> (slots[h]->Some_0.order_id
                as int) < idm.push(None::<usize>).len() && idm.push(None::<usize>)[slots[h]->Some_0.order_id
                as int] == Some(h as usize),
{
    let idm2 = idm.push(None::<usize>);
    assert(forall|id: int| 0 <= id < idm.len() ==> idm2[id] == idm[id]);
    assert(side_ok(buy, slots, idm2, base, false)) by {
        assert forall|i: int|
            0 <= i < buy.len() && (#[trigger] buy[i]) is Some implies level_ok(
            buy[i]->Some_0,
            slots,
            idm2,
            level_price(base, false, i) as u64,
            Side::Buy,
        ) by {
            let lv = buy[i]->Some_0;
            let price_i = level_price(base, false, i) as u64;
            assert(level_ok(lv, slots, idm, price_i, Side::Buy));
            assert forall|k: int|
                0 <= k < lv.order_indices@.len() implies handle_ok(
                #[trigger] lv.order_indices@[k],
                slots,
                idm2,
                price_i,
                Side::Buy,
            ) by {
                assert(handle_ok(lv.order_indices@[k], slots, idm, price_i, Side::Buy));
            }
        }
    }
    assert(side_ok(sell, slots, idm2, base, true)) by {
        assert forall|i: int|
            0 <= i < sell.len() && (#[trigger] sell[i]) is Some implies level_ok(
            sell[i]->Some_0,
            slots,
            idm2,
            level_price(base, true, i) as u64,
            Side::Sell,
        ) by {
            let lv = sell[i]->Some_0;
            let price_i = level_price(base, true, i) as u64;
            assert(level_ok(lv, slots, idm, price_i, Side::Sell));
            assert forall|k: int|
                0 <= k < lv.order_indices@.len() implies handle_ok(
                #[trigger] lv.order_indices@[k],
                slots,
                idm2,
                price_i,
                Side::Sell,
            ) by {
                assert(handle_ok(lv.order_indices@[k], slots, idm, price_i, Side::Sell));
            }
        }
    }
}

/// After one level at offset `i` has been filled, the whole book's coupled
/// invariants hold again: untouched levels kept their handles and slots,
/// the id index only lost the consumed ids, and both sides' abstractions
/// changed only at offset `i`.
#[verifier::rlimit(100)]
pub(crate) proof fn lemma_restore_after_fill(
    buy_b: Seq<Option<PriceLevel>>,
    sell_b: Seq<Option<PriceLevel>>,
    buy_a: Seq<Option<PriceLevel>>,
    sell_a: Seq<Option<PriceLevel>>,
    slots_b: Seq<Option<Order>>,
    slots_a: Seq<Option<Order>>,
    idm_b: Seq<Option<usize>>,
    idm_a: Seq<Option<usize>>,
    base: u64,
    ask: bool,
    i: int,
    fifo_i: Seq<usize>,
    removed: int,
    rest: Seq<Entry>,
    lvl_a: Option<PriceLevel>,
)
    requires
        PRICE_LEVELS as u64 <= base <= u64::MAX - PRICE_LEVELS as u64,
        slots_b.len() <= usize::MAX,
        side_ok(buy_b, slots_b, idm_b, base, false),
        side_ok(sell_b, slots_b, idm_b, base, true),
        forall|id: int|
            0 <= id < idm_b.len() && (#[trigger] idm_b[id]) is Some ==> id_entry_ok(
                id,
                idm_b[id]->Some_0,
                slots_b,
                buy_b,
                sell_b,
                base,
            ),
        forall|h: int|
            0 <= h < slots_b.len() && (#[trigger] slots_b[h]) is Some ==> (slots_b[h]->Some_0.order_id
                as int) < idm_b.len() && idm_b[slots_b[h]->Some_0.order_id as int] == Some(
                h as usize,
            ),
        0 <= i < PRICE_LEVELS as int,
        (if ask { sell_b } else { buy_b })[i] is Some,
        fifo_i == (if ask { sell_b } else { buy_b })[i]->Some_0.order_indices@,
        0 <= removed <= fifo_i.len(),
        lvl_a is Some <==> rest.len() > 0,
        lvl_a is Some ==> lvl_a->Some_0.order_indices@ == fifo_i.skip(removed)
            && level_fields_ok(
            lvl_a->Some_0,
            slots_a,
            idm_a,
            level_price(base, ask, i) as u64,
            if ask { Side::Sell } else { Side::Buy },
        ) && lvl_a->Some_0.order_indices@.len() > 0,
        (if ask { sell_a } else { buy_a }) == (if ask { sell_b } else { buy_b }).update(i, lvl_a),
        (if ask { buy_a } else { sell_a }) == (if ask { buy_b } else { sell_b }),
        rest == level_entries(fifo_i.skip(removed), slots_a),
        rest.len() == fifo_i.len() - removed,
        slots_a.len() == slots_b.len(),
        forall|h: usize|
            h < slots_b.len() && !fifo_i.contains(h) ==> slots_a[h as int] == slots_b[h as int],
        forall|k: int| 0 <= k < removed ==> slots_a[fifo_i[k] as int] is None,
        forall|k: int|
            removed <= k < fifo_i.len() ==> slots_a[fifo_i[k] as int] is Some
                && same_order_but_qty(
                slots_a[fifo_i[k] as int]->Some_0,
                slots_b[fifo_i[k] as int]->Some_0,
            ),
        idm_a.len() == idm_b.len(),
        forall|k: int|
            0 <= k < removed ==> idm_a[slots_b[fifo_i[k] as int]->Some_0.order_id as int] is None,
        forall|id: int|
            0 <= id < idm_b.len() && idm_a[id] != idm_b[id] ==> idm_a[id] is None && (exists|k: int|
                0 <= k < removed && slots_b[fifo_i[k] as int]->Some_0.order_id as int == id),
    ensures
        side_ok(buy_a, slots_a, idm_a, base, false),
        side_ok(sell_a, slots_a, idm_a, base, true),
        forall|id: int|
            0 <= id < idm_a.len() && (#[trigger] idm_a[id]) is Some ==> id_entry_ok(
                id,
                idm_a[id]->Some_0,
                slots_a,
                buy_a,
                sell_a,
                base,
            ),
        forall|h: int|
            0 <= h < slots_a.len() && (#[trigger] slots_a[h]) is Some ==> (slots_a[h]->Some_0.order_id
                as int) < idm_a.len() && idm_a[slots_a[h]->Some_0.order_id as int] == Some(
                h as usize,
            ),
        side_entries((if ask { sell_a } else { buy_a }), slots_a) == side_entries(
            (if ask { sell_b } else { buy_b }),
            slots_b,
        ).update(
            i,
            if rest.len() == 0 {
                None
            } else {
                Some(rest)
            },
        ),
        side_entries((if ask { buy_a } else { sell_a }), slots_a) == side_entries(
            (if ask { buy_b } else { sell_b }),
            slots_b,
        ),
{
    let rs = if ask { Side::Sell } else { Side::Buy };
    let os = if ask { Side::Buy } else { Side::Sell };
    let swept_b = if ask { sell_b } else { buy_b };
    let swept_a = if ask { sell_a } else { buy_a };
    let other_b = if ask { buy_b } else { sell_b };
    let price_i = level_price(base, ask, i) as u64;

    // Every handle of the swept level carries the level's price and side.
    assert forall|k: int| 0 <= k < fifo_i.len() implies handle_ok(
        #[trigger] fifo_i[k],
        slots_b,
        idm_b,
        price_i,
        rs,
    ) by {
        assert(level_ok(swept_b[i]->Some_0, slots_b, idm_b, price_i, rs));
    }

    // A handle resting elsewhere is not a handle of the swept level, so its
    // slot did not change.
    assert forall|j: int, k: int|
        0 <= j < swept_b.len() && j != i && swept_b[j] is Some && 0 <= k
            < swept_b[j]->Some_0.order_indices@.len() implies !fifo_i.contains(
        #[trigger] swept_b[j]->Some_0.order_indices@[k],
    ) by {
        let hk = swept_b[j]->Some_0.order_indices@[k];
        let price_j = level_price(base, ask, j) as u64;
        assert(level_ok(swept_b[j]->Some_0, slots_b, idm_b, price_j, rs));
        assert(handle_ok(hk, slots_b, idm_b, price_j, rs));
        if fifo_i.contains(hk) {
            let k2 = choose|k2: int| 0 <= k2 < fifo_i.len() && fifo_i[k2] == hk;
            assert(handle_ok(fifo_i[k2], slots_b, idm_b, price_i, rs));
            assert(slots_b[hk as int]->Some_0.price == price_i);
            assert(slots_b[hk as int]->Some_0.price == price_j);
            assert(price_i != price_j);
            assert(false);
        }
    }
    assert forall|j: int, k: int|
        0 <= j < other_b.len() && other_b[j] is Some && 0 <= k
            < other_b[j]->Some_0.order_indices@.len() implies !fifo_i.contains(
        #[trigger] other_b[j]->Some_0.order_indices@[k],
    ) by {
        let hk = other_b[j]->Some_0.order_indices@[k];
        let price_j = level_price(base, !ask, j) as u64;
        assert(level_ok(other_b[j]->Some_0, slots_b, idm_b, price_j, os));
        assert(handle_ok(hk, slots_b, idm_b, price_j, os));
        if fifo_i.contains(hk) {
            let k2 = choose|k2: int| 0 <= k2 < fifo_i.len() && fifo_i[k2] == hk;
            assert(handle_ok(fifo_i[k2], slots_b, idm_b, price_i, rs));
            assert(slots_b[hk as int]->Some_0.side == rs);
            assert(slots_b[hk as int]->Some_0.side == os);
            assert(false);
        }
    }

    // An id whose index entry changed was one of the consumed orders, and
    // consumed ids pointed at handles of the swept level.
    assert forall|id: int|
        0 <= id < idm_b.len() && idm_a[id] != idm_b[id] implies idm_b[id] is Some
        && fifo_i.contains(idm_b[id]->Some_0) by {
        let k = choose|k: int|
            0 <= k < removed && slots_b[fifo_i[k] as int]->Some_0.order_id as int == id;
        assert(handle_ok(fifo_i[k], slots_b, idm_b, price_i, rs));
        assert(idm_b[id] == Some(fifo_i[k]));
    }

    // Side conditions for the swept side after the fill.
    assert(side_ok(swept_a, slots_a, idm_a, base, ask)) by {
        assert forall|j: int|
            0 <= j < swept_a.len() && (#[trigger] swept_a[j]) is Some implies level_ok(
            swept_a[j]->Some_0,
            slots_a,
            idm_a,
            level_price(base, ask, j) as u64,
            rs,
        ) by {
            if j == i {
                assert(swept_a[j] == lvl_a);
            } else {
                assert(swept_a[j] == swept_b[j]);
                let lv = swept_b[j]->Some_0;
                let price_j = level_price(base, ask, j) as u64;
                assert(level_ok(lv, slots_b, idm_b, price_j, rs));
                assert forall|k: int|
                    0 <= k < lv.order_indices@.len() implies handle_ok(
                    #[trigger] lv.order_indices@[k],
                    slots_a,
                    idm_a,
                    price_j,
                    rs,
                ) by {
                    let hk = lv.order_indices@[k];
                    assert(handle_ok(hk, slots_b, idm_b, price_j, rs));
                    assert(!fifo_i.contains(hk));
                    assert(slots_a[hk as int] == slots_b[hk as int]);
                    let idh = slots_b[hk as int]->Some_0.order_id as int;
                    if idm_a[idh] != idm_b[idh] {
                        assert(fifo_i.contains(idm_b[idh]->Some_0));
                        assert(idm_b[idh] == Some(hk));
                        assert(false);
                    }
                }
                assert(level_entries(lv.order_indices@, slots_a) =~= level_entries(
                    lv.order_indices@,
                    slots_b,
                ));
            }
        }
        assert(!ask ==> swept_a[0] is None) by {
            if !ask {
                if i == 0 {
                    assert(swept_b[0] is Some);
                    assert(false);
                } else {
                    assert(swept_a[0] == swept_b[0]);
                }
            }
        }
    }

    // Side conditions for the untouched side.
    assert(side_ok((if ask { buy_a } else { sell_a }), slots_a, idm_a, base, !ask)) by {
        let ob = other_b;
        assert forall|j: int|
            0 <= j < ob.len() && (#[trigger] ob[j]) is Some implies level_ok(
            ob[j]->Some_0,
            slots_a,
            idm_a,
            level_price(base, !ask, j) as u64,
            os,
        ) by {
            let lv = ob[j]->Some_0;
            let price_j = level_price(base, !ask, j) as u64;
            assert(level_ok(lv, slots_b, idm_b, price_j, os));
            assert forall|k: int|
                0 <= k < lv.order_indices@.len() implies handle_ok(
                #[trigger] lv.order_indices@[k],
                slots_a,
                idm_a,
                price_j,
                os,
            ) by {
                let hk = lv.order_indices@[k];
                assert(handle_ok(hk, slots_b, idm_b, price_j, os));
                assert(!fifo_i.contains(hk));
                assert(slots_a[hk as int] == slots_b[hk as int]);
                let idh = slots_b[hk as int]->Some_0.order_id as int;
                if idm_a[idh] != idm_b[idh] {
                    assert(fifo_i.contains(idm_b[idh]->Some_0));
                    assert(idm_b[idh] == Some(hk));
                    assert(false);
                }
            }
            assert(level_entries(lv.order_indices@, slots_a) =~= level_entries(
                lv.order_indices@,
                slots_b,
            ));
        }
    }

    // Forward direction of the id index.
    assert forall|id: int|
        0 <= id < idm_a.len() && (#[trigger] idm_a[id]) is Some implies id_entry_ok(
        id,
        idm_a[id]->Some_0,
        slots_a,
        buy_a,
        sell_a,
        base,
    ) by {
        assert(idm_a[id] == idm_b[id]);
        let h = idm_b[id]->Some_0;
        assert(id_entry_ok(id, h, slots_b, buy_b, sell_b, base));
        let o_b = slots_b[h as int]->Some_0;
        if fifo_i.contains(h) {
            let k = choose|k: int| 0 <= k < fifo_i.len() && fifo_i[k] == h;
            assert(handle_ok(fifo_i[k], slots_b, idm_b, price_i, rs));
            if k < removed {
                assert(idm_a[slots_b[fifo_i[k] as int]->Some_0.order_id as int] is None);
                assert(slots_b[h as int]->Some_0.order_id as int == id);
                assert(false);
            } else {
                // A surviving order: it sits in the put-back level.
                assert(slots_a[h as int] is Some);
                assert(same_order_but_qty(slots_a[h as int]->Some_0, o_b));
                assert(rest.len() > 0);
                assert(lvl_a is Some);
                let nl = lvl_a->Some_0;
                assert(nl.order_indices@ == fifo_i.skip(removed));
                assert(nl.order_indices@[k - removed] == h);
                assert(nl.order_indices@.contains(h));
                assert(handle_ok(h, slots_a, idm_a, price_i, rs));
                assert(o_b.side == rs);
                assert(o_b.price == price_i);
                assert(swept_a[i] == lvl_a);
            }
        } else {
            assert(slots_a[h as int] == slots_b[h as int]);
            match o_b.side {
                Side::Buy => {
                    let off = base - o_b.price;
                    if !ask && off == i {
                        assert(buy_b[off] is Some);
                        assert(buy_b[off]->Some_0.order_indices@.contains(h));
                        let kk = choose|kk: int|
                            0 <= kk < buy_b[off]->Some_0.order_indices@.len() && buy_b[
                                off
                            ]->Some_0.order_indices@[kk] == h;
                        assert(fifo_i[kk] == h);
                        assert(fifo_i.contains(h));
                        assert(false);
                    } else {
                        assert(buy_a[off] == buy_b[off]);
                    }
                },
                Side::Sell => {
                    let off = o_b.price - base;
                    if ask && off == i {
                        assert(sell_b[off] is Some);
                        assert(sell_b[off]->Some_0.order_indices@.contains(h));
                        let kk = choose|kk: int|
                            0 <= kk < sell_b[off]->Some_0.order_indices@.len() && sell_b[
                                off
                            ]->Some_0.order_indices@[kk] == h;
                        assert(fifo_i[kk] == h);
                        assert(fifo_i.contains(h));
                        assert(false);
                    } else {
                        assert(sell_a[off] == sell_b[off]);
                    }
                },
            }
        }
    }

    // Backward direction: every occupied slot is still indexed.
    assert forall|h: int|
        0 <= h < slots_a.len() && (#[trigger] slots_a[h]) is Some implies (slots_a[h]->Some_0.order_id
            as int) < idm_a.len() && idm_a[slots_a[h]->Some_0.order_id as int] == Some(
        h as usize,
    ) by {
        assert((h as usize) as int == h);
        if fifo_i.contains(h as usize) {
            let k = choose|k: int| 0 <= k < fifo_i.len() && fifo_i[k] == h as usize;
            assert(handle_ok(fifo_i[k], slots_b, idm_b, price_i, rs));
            assert(fifo_i[k] as int == h);
            if k < removed {
                assert(slots_a[fifo_i[k] as int] is None);
                assert(false);
            }
            assert(same_order_but_qty(slots_a[h]->Some_0, slots_b[h]->Some_0));
            let idh = slots_b[h]->Some_0.order_id as int;
            assert(idm_b[idh] == Some(h as usize));
            if idm_a[idh] != idm_b[idh] {
                assert(fifo_i.contains(idm_b[idh]->Some_0));
                let k3 = choose|k3: int|
                    0 <= k3 < removed && slots_b[fifo_i[k3] as int]->Some_0.order_id as int == idh;
                assert(handle_ok(fifo_i[k3], slots_b, idm_b, price_i, rs));
                assert(idm_b[idh] == Some(fifo_i[k3]));
                assert(fifo_i[k3] == h as usize);
                assert(fifo_i[k] == fifo_i[k3]);
                assert(slots_a[fifo_i[k3] as int] is None);
                assert(false);
            }
        } else {
            assert(!fifo_i.contains(h as usize));
            assert(slots_a[(h as usize) as int] == slots_b[(h as usize) as int]);
            assert(slots_a[h] == slots_b[h]);
            let idh = slots_b[h]->Some_0.order_id as int;
            assert(idm_b[idh] == Some(h as usize));
            if idm_a[idh] != idm_b[idh] {
                assert(fifo_i.contains(idm_b[idh]->Some_0));
                assert(false);
            }
        }
    }

    // The swept side's abstraction changed only at offset `i`.
    assert(side_entries(swept_a, slots_a) =~= side_entries(swept_b, slots_b).update(
        i,
        if rest.len() == 0 { None } else { Some(rest) },
    )) by {
        assert forall|j: int|
            0 <= j < swept_a.len() implies side_entries(swept_a, slots_a)[j] == side_entries(
            swept_b,
            slots_b,
        ).update(i, if rest.len() == 0 { None } else { Some(rest) })[j] by {
            if j == i {
                if rest.len() == 0 {
                    assert(swept_a[i] is None);
                } else {
                    assert(swept_a[i] == lvl_a);
                    assert(level_entries(lvl_a->Some_0.order_indices@, slots_a) == rest);
                }
            } else {
                assert(swept_a[j] == swept_b[j]);
                if swept_b[j] is Some {
                    let lv = swept_b[j]->Some_0;
                    assert(level_entries(lv.order_indices@, slots_a) =~= level_entries(
                        lv.order_indices@,
                        slots_b,
                    ));
                }
            }
        }
    }

    // The untouched side's abstraction did not change at all.
    assert(side_entries((if ask { buy_a } else { sell_a }), slots_a) =~= side_entries(
        other_b,
        slots_b,
    )) by {
        assert forall|j: int|
            0 <= j < other_b.len() implies side_entries(
            (if ask { buy_a } else { sell_a }),
            slots_a,
        )[j] == side_entries(other_b, slots_b)[j] by {
            if other_b[j] is Some {
                let lv = other_b[j]->Some_0;
                assert(level_entries(lv.order_indices@, slots_a) =~= level_entries(
                    lv.order_indices@,
                    slots_b,
                ));
            }
        }
    }
}


/// After one resting order is cancelled, the book's coupled invariants hold
/// again, and the sides' abstractions changed by exactly that one entry.
#[verifier::rlimit(100)]
pub(crate) proof fn lemma_restore_after_cancel(
    buy_b: Seq<Option<PriceLevel>>,
    sell_b: Seq<Option<PriceLevel>>,
    buy_a: Seq<Option<PriceLevel>>,
    sell_a: Seq<Option<PriceLevel>>,
    slots_b: Seq<Option<Order>>,
    slots_a: Seq<Option<Order>>,
    idm_b: Seq<Option<usize>>,
    idm_a: Seq<Option<usize>>,
    base: u64,
    ask: bool,
    off: int,
    k: int,
    h: usize,
    lvl_a: Option<PriceLevel>,
)
    requires
        PRICE_LEVELS as u64 <= base <= u64::MAX - PRICE_LEVELS as u64,
        slots_b.len() <= usize::MAX,
        side_ok(buy_b, slots_b, idm_b, base, false),
        side_ok(sell_b, slots_b, idm_b, base, true),
        forall|id: int|
            0 <= id < idm_b.len() && (#[trigger] idm_b[id]) is Some ==> id_entry_ok(
                id,
                idm_b[id]->Some_0,
                slots_b,
                buy_b,
                sell_b,
                base,
            ),
        forall|hh: int|
            0 <= hh < slots_b.len() && (#[trigger] slots_b[hh]) is Some ==> (slots_b[hh]->Some_0.order_id
                as int) < idm_b.len() && idm_b[slots_b[hh]->Some_0.order_id as int] == Some(
                hh as usize,
            ),
        0 <= off < PRICE_LEVELS as int,
        (if ask { sell_b } else { buy_b })[off] is Some,
        ({
            let fifo = (if ask { sell_b } else { buy_b })[off]->Some_0.order_indices@;
            &&& 0 <= k < fifo.len()
            &&& fifo[k] == h
        }),
        slots_a == slots_b.update(h as int, None::<Order>),
        idm_a == idm_b.update(slots_b[h as int]->Some_0.order_id as int, None::<usize>),
        ({
            let fifo = (if ask { sell_b } else { buy_b })[off]->Some_0.order_indices@;
            &&& (lvl_a is Some <==> fifo.len() > 1)
            &&& lvl_a is Some ==> lvl_a->Some_0.order_indices@ == fifo.remove(k)
                && lvl_a->Some_0.price == level_price(base, ask, off) as u64
                && lvl_a->Some_0.total_quantity as int == (if ask { sell_b } else { buy_b })[
                off
            ]->Some_0.total_quantity - slots_b[h as int]->Some_0.quantity
        }),
        (if ask { sell_a } else { buy_a }) == (if ask { sell_b } else { buy_b }).update(
            off,
            lvl_a,
        ),
        (if ask { buy_a } else { sell_a }) == (if ask { buy_b } else { sell_b }),
    ensures
        side_ok(buy_a, slots_a, idm_a, base, false),
        side_ok(sell_a, slots_a, idm_a, base, true),
        forall|id: int|
            0 <= id < idm_a.len() && (#[trigger] idm_a[id]) is Some ==> id_entry_ok(
                id,
                idm_a[id]->Some_0,
                slots_a,
                buy_a,
                sell_a,
                base,
            ),
        forall|hh: int|
            0 <= hh < slots_a.len() && (#[trigger] slots_a[hh]) is Some ==> (slots_a[hh]->Some_0.order_id
                as int) < idm_a.len() && idm_a[slots_a[hh]->Some_0.order_id as int] == Some(
                hh as usize,
            ),
        side_entries((if ask { sell_a } else { buy_a }), slots_a) == remove_entry_at(
            side_entries((if ask { sell_b } else { buy_b }), slots_b),
            off,
            k,
        ),
        side_entries((if ask { buy_a } else { sell_a }), slots_a) == side_entries(
            (if ask { buy_b } else { sell_b }),
            slots_b,
        ),
{
    let rs = if ask { Side::Sell } else { Side::Buy };
    let os = if ask { Side::Buy } else { Side::Sell };
    let swept_b = if ask { sell_b } else { buy_b };
    let swept_a = if ask { sell_a } else { buy_a };
    let other_b = if ask { buy_b } else { sell_b };
    let price_off = level_price(base, ask, off) as u64;
    let fifo = swept_b[off]->Some_0.order_indices@;
    let cid = slots_b[h as int]->Some_0.order_id as int;
    let e_b = level_entries(fifo, slots_b);

    assert(level_ok(swept_b[off]->Some_0, slots_b, idm_b, price_off, rs));
    assert forall|kk: int| 0 <= kk < fifo.len() implies handle_ok(
        #[trigger] fifo[kk],
        slots_b,
        idm_b,
        price_off,
        rs,
    ) by {}
    assert(handle_ok(h, slots_b, idm_b, price_off, rs));
    assert(idm_b[cid] == Some(h));

    // Any other resting handle differs from `h`, and its id differs from
    // the cancelled id.
    assert forall|j: int, kk: int|
        0 <= j < swept_b.len() && swept_b[j] is Some && 0 <= kk
            < swept_b[j]->Some_0.order_indices@.len() && (j != off || kk != k) implies (
    #[trigger] swept_b[j]->Some_0.order_indices@[kk]) != h && slots_b[swept_b[
        j
    ]->Some_0.order_indices@[kk] as int]->Some_0.order_id as int != cid by {
        let hk = swept_b[j]->Some_0.order_indices@[kk];
        let price_j = level_price(base, ask, j) as u64;
        assert(level_ok(swept_b[j]->Some_0, slots_b, idm_b, price_j, rs));
        assert(handle_ok(hk, slots_b, idm_b, price_j, rs));
        if hk == h {
            if j != off {
                assert(slots_b[h as int]->Some_0.price == price_off);
                assert(price_j != price_off);
                assert(false);
            } else {
                assert(fifo[kk] == fifo[k]);
                assert(false);
            }
        }
        if slots_b[hk as int]->Some_0.order_id as int == cid {
            assert(idm_b[cid] == Some(hk));
            assert(hk == h);
            assert(false);
        }
    }
    assert forall|j: int, kk: int|
        0 <= j < other_b.len() && other_b[j] is Some && 0 <= kk
            < other_b[j]->Some_0.order_indices@.len() implies (
    #[trigger] other_b[j]->Some_0.order_indices@[kk]) != h && slots_b[other_b[
        j
    ]->Some_0.order_indices@[kk] as int]->Some_0.order_id as int != cid by {
        let hk = other_b[j]->Some_0.order_indices@[kk];
        let price_j = level_price(base, !ask, j) as u64;
        assert(level_ok(other_b[j]->Some_0, slots_b, idm_b, price_j, os));
        assert(handle_ok(hk, slots_b, idm_b, price_j, os));
        if hk == h {
            assert(slots_b[h as int]->Some_0.side == rs);
            assert(false);
        }
        if slots_b[hk as int]->Some_0.order_id as int == cid {
            assert(idm_b[cid] == Some(hk));
            assert(hk == h);
            assert(false);
        }
    }

    // The swept side keeps its conditions.
    assert(side_ok(swept_a, slots_a, idm_a, base, ask)) by {
        assert forall|j: int|
            0 <= j < swept_a.len() && (#[trigger] swept_a[j]) is Some implies level_ok(
            swept_a[j]->Some_0,
            slots_a,
            idm_a,
            level_price(base, ask, j) as u64,
            rs,
        ) by {
            if j == off {
                assert(swept_a[j] == lvl_a);
                let nl = lvl_a->Some_0;
                let nf = nl.order_indices@;
                assert(nf == fifo.remove(k));
                assert forall|kk: int|
                    0 <= kk < nf.len() implies handle_ok(
                    #[trigger] nf[kk],
                    slots_a,
                    idm_a,
                    price_off,
                    rs,
                ) by {
                    let kk2: int = if kk < k { kk } else { kk + 1 };
                    assert(nf[kk] == fifo[kk2]);
                    assert(fifo[kk2] != h);
                    assert(slots_a[nf[kk] as int] == slots_b[nf[kk] as int]);
                }
                assert forall|k1: int, k2: int|
                    0 <= k1 < k2 < nf.len() implies nf[k1] != nf[k2] by {
                    let k1b: int = if k1 < k { k1 } else { k1 + 1 };
                    let k2b: int = if k2 < k { k2 } else { k2 + 1 };
                    assert(nf[k1] == fifo[k1b] && nf[k2] == fifo[k2b]);
                }
                assert(level_entries(nf, slots_a) =~= e_b.remove(k)) by {
                    assert forall|kk: int|
                        0 <= kk < nf.len() implies level_entries(nf, slots_a)[kk] == e_b.remove(
                        k,
                    )[kk] by {
                        let kk2: int = if kk < k { kk } else { kk + 1 };
                        assert(nf[kk] == fifo[kk2]);
                        assert(fifo[kk2] != h);
                        assert(slots_a[nf[kk] as int] == slots_b[nf[kk] as int]);
                        assert(e_b.remove(k)[kk] == e_b[kk2]);
                    }
                }
                lemma_sum_qty_remove(e_b, k);
                assert(e_b[k].qty == slots_b[h as int]->Some_0.quantity as int);
            } else {
                assert(swept_a[j] == swept_b[j]);
                let lv = swept_b[j]->Some_0;
                let price_j = level_price(base, ask, j) as u64;
                assert(level_ok(lv, slots_b, idm_b, price_j, rs));
                assert forall|kk: int|
                    0 <= kk < lv.order_indices@.len() implies handle_ok(
                    #[trigger] lv.order_indices@[kk],
                    slots_a,
                    idm_a,
                    price_j,
                    rs,
                ) by {
                    let hk = lv.order_indices@[kk];
                    assert(hk != h);
                    assert(slots_b[hk as int]->Some_0.order_id as int != cid);
                    assert(slots_a[hk as int] == slots_b[hk as int]);
                }
                assert(level_entries(lv.order_indices@, slots_a) =~= level_entries(
                    lv.order_indices@,
                    slots_b,
                ));
            }
        }
        assert(!ask ==> swept_a[0] is None) by {
            if !ask {
                if off == 0 {
                    assert(swept_b[0] is Some);
                    assert(false);
                } else {
                    assert(swept_a[0] == swept_b[0]);
                }
            }
        }
    }

    // The other side keeps its conditions.
    assert(side_ok((if ask { buy_a } else { sell_a }), slots_a, idm_a, base, !ask)) by {
        assert forall|j: int|
            0 <= j < other_b.len() && (#[trigger] other_b[j]) is Some implies level_ok(
            other_b[j]->Some_0,
            slots_a,
            idm_a,
            level_price(base, !ask, j) as u64,
            os,
        ) by {
            let lv = other_b[j]->Some_0;
            let price_j = level_price(base, !ask, j) as u64;
            assert(level_ok(lv, slots_b, idm_b, price_j, os));
            assert forall|kk: int|
                0 <= kk < lv.order_indices@.len() implies handle_ok(
                #[trigger] lv.order_indices@[kk],
                slots_a,
                idm_a,
                price_j,
                os,
            ) by {
                let hk = lv.order_indices@[kk];
                assert(hk != h);
                assert(slots_b[hk as int]->Some_0.order_id as int != cid);
                assert(slots_a[hk as int] == slots_b[hk as int]);
            }
            assert(level_entries(lv.order_indices@, slots_a) =~= level_entries(
                lv.order_indices@,
                slots_b,
            ));
        }
    }

    // Forward direction of the id index.
    assert forall|id: int|
        0 <= id < idm_a.len() && (#[trigger] idm_a[id]) is Some implies id_entry_ok(
        id,
        idm_a[id]->Some_0,
        slots_a,
        buy_a,
        sell_a,
        base,
    ) by {
        assert(id != cid);
        assert(idm_a[id] == idm_b[id]);
        let hh = idm_b[id]->Some_0;
        assert(id_entry_ok(id, hh, slots_b, buy_b, sell_b, base));
        let o_b = slots_b[hh as int]->Some_0;
        assert(hh != h) by {
            if hh == h {
                assert(o_b.order_id as int == cid);
            }
        }
        assert(slots_a[hh as int] == slots_b[hh as int]);
        match o_b.side {
            Side::Buy => {
                let o_off = base - o_b.price;
                if !ask && o_off == off {
                    assert(buy_b[o_off]->Some_0.order_indices@.contains(hh));
                    let kk = choose|kk: int|
                        0 <= kk < fifo.len() && fifo[kk] == hh;
                    assert(kk != k);
                    assert(lvl_a is Some) by {
                        if fifo.len() <= 1 {
                            assert(kk == k);
                        }
                    }
                    let nf = lvl_a->Some_0.order_indices@;
                    if kk < k {
                        assert(nf[kk] == fifo[kk]);
                        assert(nf.contains(hh));
                    } else {
                        assert(nf[kk - 1] == fifo[kk]);
                        assert(nf.contains(hh));
                    }
                    assert(buy_a[o_off] == lvl_a);
                } else {
                    assert(buy_a[o_off] == buy_b[o_off]);
                }
            },
            Side::Sell => {
                let o_off = o_b.price - base;
                if ask && o_off == off {
                    assert(sell_b[o_off]->Some_0.order_indices@.contains(hh));
                    let kk = choose|kk: int|
                        0 <= kk < fifo.len() && fifo[kk] == hh;
                    assert(kk != k);
                    assert(lvl_a is Some) by {
                        if fifo.len() <= 1 {
                            assert(kk == k);
                        }
                    }
                    let nf = lvl_a->Some_0.order_indices@;
                    if kk < k {
                        assert(nf[kk] == fifo[kk]);
                        assert(nf.contains(hh));
                    } else {
                        assert(nf[kk - 1] == fifo[kk]);
                        assert(nf.contains(hh));
                    }
                    assert(sell_a[o_off] == lvl_a);
                } else {
                    assert(sell_a[o_off] == sell_b[o_off]);
                }
            },
        }
    }

    // Backward direction of the id index.
    assert forall|hh: int|
        0 <= hh < slots_a.len() && (#[trigger] slots_a[hh]) is Some implies (slots_a[hh]->Some_0.order_id
            as int) < idm_a.len() && idm_a[slots_a[hh]->Some_0.order_id as int] == Some(
        hh as usize,
    ) by {
        assert(hh != h as int);
        assert(slots_a[hh] == slots_b[hh]);
        let idh = slots_b[hh]->Some_0.order_id as int;
        assert(idm_b[idh] == Some(hh as usize));
        assert(idh != cid) by {
            if idh == cid {
                assert(idm_b[cid] == Some(hh as usize));
                assert(hh as usize == h);
                assert((hh as usize) as int == hh);
            }
        }
    }

    // View equalities.
    assert(side_entries(swept_a, slots_a) =~= remove_entry_at(
        side_entries(swept_b, slots_b),
        off,
        k,
    )) by {
        let before = side_entries(swept_b, slots_b);
        assert(before[off]->Some_0 == e_b);
        assert forall|j: int|
            0 <= j < swept_a.len() implies side_entries(swept_a, slots_a)[j] == remove_entry_at(
            before,
            off,
            k,
        )[j] by {
            if j == off {
                if fifo.len() <= 1 {
                    assert(swept_a[off] is None);
                    assert(e_b.len() <= 1);
                } else {
                    assert(swept_a[off] == lvl_a);
                    assert(e_b.len() > 1);
                    assert(level_entries(lvl_a->Some_0.order_indices@, slots_a) =~= e_b.remove(
                        k,
                    ));
                }
            } else {
                assert(swept_a[j] == swept_b[j]);
                if swept_b[j] is Some {
                    let lv = swept_b[j]->Some_0;
                    assert forall|kk: int|
                        0 <= kk < lv.order_indices@.len() implies level_entries(
                        lv.order_indices@,
                        slots_a,
                    )[kk] == level_entries(lv.order_indices@, slots_b)[kk] by {
                        assert(lv.order_indices@[kk] != h);
                    }
                    assert(level_entries(lv.order_indices@, slots_a) =~= level_entries(
                        lv.order_indices@,
                        slots_b,
                    ));
                }
            }
        }
    }
    assert(side_entries((if ask { buy_a } else { sell_a }), slots_a) =~= side_entries(
        other_b,
        slots_b,
    )) by {
        assert forall|j: int|
            0 <= j < other_b.len() implies side_entries(
            (if ask { buy_a } else { sell_a }),
            slots_a,
        )[j] == side_entries(other_b, slots_b)[j] by {
            if other_b[j] is Some {
                let lv = other_b[j]->Some_0;
                assert forall|kk: int|
                    0 <= kk < lv.order_indices@.len() implies level_entries(
                    lv.order_indices@,
                    slots_a,
                )[kk] == level_entries(lv.order_indices@, slots_b)[kk] by {
                    assert(lv.order_indices@[kk] != h);
                }
                assert(level_entries(lv.order_indices@, slots_a) =~= level_entries(
                    lv.order_indices@,
                    slots_b,
                ));
            }
        }
    }
}


/// After a residual order rests in a fresh pool slot, the book's coupled
/// invariants hold again, and only its side's abstraction changed: the new
/// entry stands at the tail of its level.
#[verifier::rlimit(100)]
pub(crate) proof fn lemma_restore_after_rest(
    buy_b: Seq<Option<PriceLevel>>,
    sell_b: Seq<Option<PriceLevel>>,
    buy_a: Seq<Option<PriceLevel>>,
    sell_a: Seq<Option<PriceLevel>>,
    slots_b: Seq<Option<Order>>,
    slots_a: Seq<Option<Order>>,
    idm_b: Seq<Option<usize>>,
    idm_a: Seq<Option<usize>>,
    base: u64,
    ask: bool,
    off: int,
    hn: usize,
    o: Order,
    lvl_a: PriceLevel,
)
    requires
        PRICE_LEVELS as u64 <= base <= u64::MAX - PRICE_LEVELS as u64,
        slots_b.len() <= usize::MAX,
        side_ok(buy_b, slots_b, idm_b, base, false),
        side_ok(sell_b, slots_b, idm_b, base, true),
        forall|id: int|
            0 <= id < idm_b.len() && (#[trigger] idm_b[id]) is Some ==> id_entry_ok(
                id,
                idm_b[id]->Some_0,
                slots_b,
                buy_b,
                sell_b,
                base,
            ),
        forall|h: int|
            0 <= h < slots_b.len() && (#[trigger] slots_b[h]) is Some ==> (slots_b[h]->Some_0.order_id
                as int) < idm_b.len() && idm_b[slots_b[h]->Some_0.order_id as int] == Some(
                h as usize,
            ),
        0 <= off < PRICE_LEVELS as int,
        !ask ==> off > 0,
        (hn as int) < slots_b.len(),
        slots_b[hn as int] is None,
        o.quantity > 0,
        o.kind == OrderType::Limit,
        o.side == (if ask { Side::Sell } else { Side::Buy }),
        o.price == level_price(base, ask, off) as u64,
        (o.order_id as int) < idm_b.len(),
        idm_b[o.order_id as int] is None,
        slots_a == slots_b.update(hn as int, Some(o)),
        idm_a == idm_b.update(o.order_id as int, Some(hn)),
        ({
            let old_lvl = (if ask { sell_b } else { buy_b })[off];
            match old_lvl {
                Some(lv) => lvl_a.order_indices@ == lv.order_indices@.push(hn)
                    && lvl_a.price == o.price && lvl_a.total_quantity as int == lv.total_quantity
                    + o.quantity,
                None => lvl_a.order_indices@ == Seq::<usize>::empty().push(hn) && lvl_a.price
                    == o.price && lvl_a.total_quantity == o.quantity,
            }
        }),
        (if ask { sell_a } else { buy_a }) == (if ask { sell_b } else { buy_b }).update(
            off,
            Some(lvl_a),
        ),
        (if ask { buy_a } else { sell_a }) == (if ask { buy_b } else { sell_b }),
    ensures
        side_ok(buy_a, slots_a, idm_a, base, false),
        side_ok(sell_a, slots_a, idm_a, base, true),
        forall|id: int|
            0 <= id < idm_a.len() && (#[trigger] idm_a[id]) is Some ==> id_entry_ok(
                id,
                idm_a[id]->Some_0,
                slots_a,
                buy_a,
                sell_a,
                base,
            ),
        forall|h: int|
            0 <= h < slots_a.len() && (#[trigger] slots_a[h]) is Some ==> (slots_a[h]->Some_0.order_id
                as int) < idm_a.len() && idm_a[slots_a[h]->Some_0.order_id as int] == Some(
                h as usize,
            ),
        side_entries((if ask { sell_a } else { buy_a }), slots_a) == rest_at(
            side_entries((if ask { sell_b } else { buy_b }), slots_b),
            off,
            Entry { id: o.order_id, qty: o.quantity as int },
        ),
        side_entries((if ask { buy_a } else { sell_a }), slots_a) == side_entries(
            (if ask { buy_b } else { sell_b }),
            slots_b,
        ),
{
    let rs = if ask { Side::Sell } else { Side::Buy };
    let os = if ask { Side::Buy } else { Side::Sell };
    let swept_b = if ask { sell_b } else { buy_b };
    let swept_a = if ask { sell_a } else { buy_a };
    let other_b = if ask { buy_b } else { sell_b };
    let nid = o.order_id as int;
    let ne = Entry { id: o.order_id, qty: o.quantity as int };

    // No resting handle equals the fresh one, and no resting order carries
    // the fresh id.
    assert forall|j: int, kk: int|
        0 <= j < swept_b.len() && swept_b[j] is Some && 0 <= kk
            < swept_b[j]->Some_0.order_indices@.len() implies (
    #[trigger] swept_b[j]->Some_0.order_indices@[kk]) != hn && slots_b[swept_b[
        j
    ]->Some_0.order_indices@[kk] as int]->Some_0.order_id as int != nid by {
        let hk = swept_b[j]->Some_0.order_indices@[kk];
        let price_j = level_price(base, ask, j) as u64;
        assert(level_ok(swept_b[j]->Some_0, slots_b, idm_b, price_j, rs));
        assert(handle_ok(hk, slots_b, idm_b, price_j, rs));
        if hk == hn {
            assert(slots_b[hn as int] is Some);
            assert(false);
        }
        if slots_b[hk as int]->Some_0.order_id as int == nid {
            assert(idm_b[nid] == Some(hk));
            assert(false);
        }
    }
    assert forall|j: int, kk: int|
        0 <= j < other_b.len() && other_b[j] is Some && 0 <= kk
            < other_b[j]->Some_0.order_indices@.len() implies (
    #[trigger] other_b[j]->Some_0.order_indices@[kk]) != hn && slots_b[other_b[
        j
    ]->Some_0.order_indices@[kk] as int]->Some_0.order_id as int != nid by {
        let hk = other_b[j]->Some_0.order_indices@[kk];
        let price_j = level_price(base, !ask, j) as u64;
        assert(level_ok(other_b[j]->Some_0, slots_b, idm_b, price_j, os));
        assert(handle_ok(hk, slots_b, idm_b, price_j, os));
        if hk == hn {
            assert(slots_b[hn as int] is Some);
            assert(false);
        }
        if slots_b[hk as int]->Some_0.order_id as int == nid {
            assert(idm_b[nid] == Some(hk));
            assert(false);
        }
    }

    assert(handle_ok(hn, slots_a, idm_a, o.price, rs));

    // The grown level is fine.
    let price_off = level_price(base, ask, off) as u64;
    assert(level_ok(lvl_a, slots_a, idm_a, price_off, rs)) by {
        let nf = lvl_a.order_indices@;
        match swept_b[off] {
            Some(lv) => {
                assert(level_ok(lv, slots_b, idm_b, price_off, rs));
                let of = lv.order_indices@;
                assert forall|kk: int|
                    0 <= kk < nf.len() implies handle_ok(
                    #[trigger] nf[kk],
                    slots_a,
                    idm_a,
                    price_off,
                    rs,
                ) by {
                    if kk < of.len() {
                        assert(nf[kk] == of[kk]);
                        assert(handle_ok(of[kk], slots_b, idm_b, price_off, rs));
                        assert(of[kk] != hn);
                        assert(slots_a[of[kk] as int] == slots_b[of[kk] as int]);
                        assert(slots_b[of[kk] as int]->Some_0.order_id as int != nid);
                    } else {
                        assert(nf[kk] == hn);
                    }
                }
                assert forall|k1: int, k2: int|
                    0 <= k1 < k2 < nf.len() implies nf[k1] != nf[k2] by {
                    if k2 == nf.len() - 1 {
                        assert(nf[k1] == of[k1]);
                        assert(of[k1] != hn);
                    }
                }
                assert(level_entries(nf, slots_a) =~= level_entries(of, slots_b).push(ne)) by {
                    assert forall|kk: int|
                        0 <= kk < nf.len() implies level_entries(nf, slots_a)[kk]
                        == level_entries(of, slots_b).push(ne)[kk] by {
                        if kk < of.len() {
                            assert(nf[kk] == of[kk]);
                            assert(of[kk] != hn);
                            assert(slots_a[of[kk] as int] == slots_b[of[kk] as int]);
                        } else {
                            assert(nf[kk] == hn);
                        }
                    }
                }
                lemma_sum_qty_add(level_entries(of, slots_b), Seq::<Entry>::empty().push(ne));
                lemma_sum_qty_singleton(ne);
                assert(level_entries(of, slots_b).push(ne) =~= level_entries(of, slots_b)
                    + Seq::<Entry>::empty().push(ne));
            },
            None => {
                assert(nf == Seq::<usize>::empty().push(hn));
                assert(level_entries(nf, slots_a) =~= Seq::<Entry>::empty().push(ne));
                lemma_sum_qty_singleton(ne);
            },
        }
    }

    // Both sides keep their conditions.
    assert(side_ok(swept_a, slots_a, idm_a, base, ask)) by {
        assert forall|j: int|
            0 <= j < swept_a.len() && (#[trigger] swept_a[j]) is Some implies level_ok(
            swept_a[j]->Some_0,
            slots_a,
            idm_a,
            level_price(base, ask, j) as u64,
            rs,
        ) by {
            if j == off {
                assert(swept_a[j]->Some_0 == lvl_a);
            } else {
                assert(swept_a[j] == swept_b[j]);
                let lv = swept_b[j]->Some_0;
                let price_j = level_price(base, ask, j) as u64;
                assert(level_ok(lv, slots_b, idm_b, price_j, rs));
                assert forall|kk: int|
                    0 <= kk < lv.order_indices@.len() implies handle_ok(
                    #[trigger] lv.order_indices@[kk],
                    slots_a,
                    idm_a,
                    price_j,
                    rs,
                ) by {
                    let hk = lv.order_indices@[kk];
                    assert(hk != hn);
                    assert(slots_b[hk as int]->Some_0.order_id as int != nid);
                    assert(slots_a[hk as int] == slots_b[hk as int]);
                }
                assert(level_entries(lv.order_indices@, slots_a) =~= level_entries(
                    lv.order_indices@,
                    slots_b,
                ));
            }
        }
        assert(!ask ==> swept_a[0] is None) by {
            if !ask {
                assert(swept_a[0] == swept_b[0]);
            }
        }
    }
    assert(side_ok((if ask { buy_a } else { sell_a }), slots_a, idm_a, base, !ask)) by {
        assert forall|j: int|
            0 <= j < other_b.len() && (#[trigger] other_b[j]) is Some implies level_ok(
            other_b[j]->Some_0,
            slots_a,
            idm_a,
            level_price(base, !ask, j) as u64,
            os,
        ) by {
            let lv = other_b[j]->Some_0;
            let price_j = level_price(base, !ask, j) as u64;
            assert(level_ok(lv, slots_b, idm_b, price_j, os));
            assert forall|kk: int|
                0 <= kk < lv.order_indices@.len() implies handle_ok(
                #[trigger] lv.order_indices@[kk],
                slots_a,
                idm_a,
                price_j,
                os,
            ) by {
                let hk = lv.order_indices@[kk];
                assert(hk != hn);
                assert(slots_b[hk as int]->Some_0.order_id as int != nid);
                assert(slots_a[hk as int] == slots_b[hk as int]);
            }
            assert(level_entries(lv.order_indices@, slots_a) =~= level_entries(
                lv.order_indices@,
                slots_b,
            ));
        }
    }

    // Forward direction of the id index.
    assert forall|id: int|
        0 <= id < idm_a.len() && (#[trigger] idm_a[id]) is Some implies id_entry_ok(
        id,
        idm_a[id]->Some_0,
        slots_a,
        buy_a,
        sell_a,
        base,
    ) by {
        if id == nid {
            assert(idm_a[id] == Some(hn));
            assert(lvl_a.order_indices@.last() == hn);
            assert(lvl_a.order_indices@.contains(hn));
            assert(swept_a[off] == Some(lvl_a));
            assert(spec_offset(base, rs, o.price) == off);
        } else {
            assert(idm_a[id] == idm_b[id]);
            let hh = idm_b[id]->Some_0;
            assert(id_entry_ok(id, hh, slots_b, buy_b, sell_b, base));
            let o_b = slots_b[hh as int]->Some_0;
            assert(hh != hn) by {
                if hh == hn {
                    assert(slots_b[hn as int] is Some);
                }
            }
            assert(slots_a[hh as int] == slots_b[hh as int]);
            match o_b.side {
                Side::Buy => {
                    let o_off = base - o_b.price;
                    if !ask && o_off == off {
                        assert(buy_b[o_off] is Some);
                        let of = buy_b[o_off]->Some_0.order_indices@;
                        assert(of.contains(hh));
                        let kk = choose|kk: int| 0 <= kk < of.len() && of[kk] == hh;
                        assert(lvl_a.order_indices@[kk] == hh);
                        assert(lvl_a.order_indices@.contains(hh));
                        assert(buy_a[o_off] == Some(lvl_a));
                    } else {
                        assert(buy_a[o_off] == buy_b[o_off]);
                    }
                },
                Side::Sell => {
                    let o_off = o_b.price - base;
                    if ask && o_off == off {
                        assert(sell_b[o_off] is Some);
                        let of = sell_b[o_off]->Some_0.order_indices@;
                        assert(of.contains(hh));
                        let kk = choose|kk: int| 0 <= kk < of.len() && of[kk] == hh;
                        assert(lvl_a.order_indices@[kk] == hh);
                        assert(lvl_a.order_indices@.contains(hh));
                        assert(sell_a[o_off] == Some(lvl_a));
                    } else {
                        assert(sell_a[o_off] == sell_b[o_off]);
                    }
                },
            }
        }
    }

    // Backward direction of the id index.
    assert forall|h: int|
        0 <= h < slots_a.len() && (#[trigger] slots_a[h]) is Some implies (slots_a[h]->Some_0.order_id
            as int) < idm_a.len() && idm_a[slots_a[h]->Some_0.order_id as int] == Some(
        h as usize,
    ) by {
        if h == hn as int {
            assert(slots_a[h]->Some_0 == o);
            assert((hn as int) == h);
        } else {
            assert(slots_a[h] == slots_b[h]);
            let idh = slots_b[h]->Some_0.order_id as int;
            assert(idm_b[idh] == Some(h as usize));
            assert(idh != nid) by {
                if idh == nid {
                    assert(idm_b[nid] is Some);
                }
            }
        }
    }

    // View equalities.
    let before = side_entries(swept_b, slots_b);
    assert(side_entries(swept_a, slots_a) =~= rest_at(before, off, ne)) by {
        assert forall|j: int|
            0 <= j < swept_a.len() implies side_entries(swept_a, slots_a)[j] == rest_at(
            before,
            off,
            ne,
        )[j] by {
            if j == off {
                match swept_b[off] {
                    Some(lv) => {
                        assert(before[off] == Some(level_entries(lv.order_indices@, slots_b)));
                        assert(level_entries(lvl_a.order_indices@, slots_a) =~= level_entries(
                            lv.order_indices@,
                            slots_b,
                        ).push(ne));
                    },
                    None => {
                        assert(before[off] is None);
                        assert(level_entries(lvl_a.order_indices@, slots_a)
                            =~= Seq::<Entry>::empty().push(ne));
                    },
                }
            } else {
                assert(swept_a[j] == swept_b[j]);
                if swept_b[j] is Some {
                    let lv = swept_b[j]->Some_0;
                    assert forall|kk: int|
                        0 <= kk < lv.order_indices@.len() implies level_entries(
                        lv.order_indices@,
                        slots_a,
                    )[kk] == level_entries(lv.order_indices@, slots_b)[kk] by {
                        assert(lv.order_indices@[kk] != hn);
                    }
                    assert(level_entries(lv.order_indices@, slots_a) =~= level_entries(
                        lv.order_indices@,
                        slots_b,
                    ));
                }
            }
        }
    }
    assert(side_entries((if ask { buy_a } else { sell_a }), slots_a) =~= side_entries(
        other_b,
        slots_b,
    )) by {
        assert forall|j: int|
            0 <= j < other_b.len() implies side_entries(
            (if ask { buy_a } else { sell_a }),
            slots_a,
        )[j] == side_entries(other_b, slots_b)[j] by {
            if other_b[j] is Some {
                let lv = other_b[j]->Some_0;
                assert forall|kk: int|
                    0 <= kk < lv.order_indices@.len() implies level_entries(
                    lv.order_indices@,
                    slots_a,
                )[kk] == level_entries(lv.order_indices@, slots_b)[kk] by {
                    assert(lv.order_indices@[kk] != hn);
                }
                assert(level_entries(lv.order_indices@, slots_a) =~= level_entries(
                    lv.order_indices@,
                    slots_b,
                ));
            }
        }
    }
}


/// An occupied side abstracts to positive, non-empty FIFOs.
pub(crate) proof fn lemma_side_positive_of_ok(
    levels: Seq<Option<PriceLevel>>,
    slots: Seq<Option<Order>>,
    idm: Seq<Option<usize>>,
    base: u64,
    ask: bool,
)
    requires
        side_ok(levels, slots, idm, base, ask),
    ensures
        side_positive(side_entries(levels, slots)),
{
    let sv = side_entries(levels, slots);
    assert forall|i: int|
        0 <= i < sv.len() && (#[trigger] sv[i]) is Some implies fifo_positive(sv[i]->Some_0)
        && sv[i]->Some_0.len() > 0 by {
        assert(levels[i] is Some);
        let l = levels[i]->Some_0;
        let fifo = l.order_indices@;
        assert(sv[i]->Some_0 == level_entries(fifo, slots));
        assert forall|k: int|
            0 <= k < level_entries(fifo, slots).len() implies (#[trigger] level_entries(
            fifo,
            slots,
        )[k]).qty > 0 by {
            assert(handle_ok(fifo[k], slots, idm,
                level_price(base, ask, i) as u64,
                if ask { Side::Sell } else { Side::Buy }));
        }
    }
}

} // verus!
