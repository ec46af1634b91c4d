use vstd::prelude::*;
use crate::book::{
    PriceLevel, SymbolBook, level_front_consumed, level_has_id, partial_fill_of, side_has_id,
    side_has_order,
};
use crate::order::Side;

verus! {

/// The book never rests a crossed market: after any operation on a
/// well-formed book, whenever both sides are non-empty the best bid price is
/// strictly below the best ask price.
pub proof fn lemma_no_resting_cross(b: SymbolBook)
    requires
        b.wf(),
        b.bids@.len() > 0,
        b.asks@.len() > 0,
    ensures
        b.best_bid_price() < b.best_ask_price(),
{
}

/// No price key of a well-formed book maps to an empty queue: a level is
/// pruned the instant its last order leaves.
pub proof fn lemma_no_empty_levels(b: SymbolBook)
    requires
        b.wf(),
    ensures
        forall|i: int| 0 <= i < b.bids@.len() ==> (#[trigger] b.bids@[i]).orders@.len() > 0,
        forall|i: int| 0 <= i < b.asks@.len() ==> (#[trigger] b.asks@[i]).orders@.len() > 0,
{
}

/// Index and book are mutually consistent in a well-formed book: every
/// indexed id rests at exactly one position, on the side and at the price
/// the index records, and every resting order is indexed under its id.
pub proof fn lemma_index_book_consistency(b: SymbolBook)
    requires
        b.wf(),
    ensures
        forall|id: u64| #[trigger]
            b.contains_order(id) ==> (if b.order_lookup@[id].0 == Side::Buy {
                side_has_order(b.bids@, b.order_lookup@[id].1, id)
            } else {
                side_has_order(b.asks@, b.order_lookup@[id].1, id)
            }),
        forall|i: int, j: int|
            0 <= i < b.bids@.len() && 0 <= j < b.bids@[i].orders@.len() ==> {
                let id = (#[trigger] b.bids@[i].orders@[j]).order_id;
                b.contains_order(id) && b.order_lookup@[id] == (Side::Buy, b.bids@[i].price)
            },
        forall|i: int, j: int|
            0 <= i < b.asks@.len() && 0 <= j < b.asks@[i].orders@.len() ==> {
                let id = (#[trigger] b.asks@[i].orders@[j]).order_id;
                b.contains_order(id) && b.order_lookup@[id] == (Side::Sell, b.asks@[i].price)
            },
        forall|i1: int, j1: int, i2: int, j2: int|
            #![trigger b.bids@[i1].orders@[j1], b.bids@[i2].orders@[j2]]
            0 <= i1 < b.bids@.len() && 0 <= j1 < b.bids@[i1].orders@.len() && 0 <= i2
                < b.bids@.len() && 0 <= j2 < b.bids@[i2].orders@.len()
                && b.bids@[i1].orders@[j1].order_id == b.bids@[i2].orders@[j2].order_id
                ==> i1 == i2 && j1 == j2,
        forall|i1: int, j1: int, i2: int, j2: int|
            #![trigger b.asks@[i1].orders@[j1], b.asks@[i2].orders@[j2]]
            0 <= i1 < b.asks@.len() && 0 <= j1 < b.asks@[i1].orders@.len() && 0 <= i2
                < b.asks@.len() && 0 <= j2 < b.asks@[i2].orders@.len()
                && b.asks@[i1].orders@[j1].order_id == b.asks@[i2].orders@[j2].order_id
                ==> i1 == i2 && j1 == j2,
        forall|id: u64| !(side_has_id(b.bids@, id) && #[trigger] side_has_id(b.asks@, id)),
{
    assert forall|id: u64| #[trigger] b.contains_order(id) implies (
    if b.order_lookup@[id].0 == Side::Buy {
        side_has_order(b.bids@, b.order_lookup@[id].1, id)
    } else {
        side_has_order(b.asks@, b.order_lookup@[id].1, id)
    }) by {
        if b.order_lookup@[id].0 == Side::Buy {
            assert(side_has_id(b.bids@, id));
            let i = choose|i: int|
                0 <= i < b.bids@.len() && level_has_id(#[trigger] b.bids@[i], id);
            let j = choose|j: int|
                0 <= j < b.bids@[i].orders@.len() && b.bids@[i].orders@[j].order_id == id;
            assert(b.order_lookup@[id] == (Side::Buy, b.bids@[i].price));
            assert(side_has_order(b.bids@, b.bids@[i].price, id));
        } else {
            assert(side_has_id(b.asks@, id));
            let i = choose|i: int|
                0 <= i < b.asks@.len() && level_has_id(#[trigger] b.asks@[i], id);
            let j = choose|j: int|
                0 <= j < b.asks@[i].orders@.len() && b.asks@[i].orders@[j].order_id == id;
            assert(b.order_lookup@[id] == (Side::Sell, b.asks@[i].price));
            assert(side_has_order(b.asks@, b.asks@[i].price, id));
        }
    }
    assert forall|i1: int, j1: int, i2: int, j2: int|
        #![trigger b.bids@[i1].orders@[j1], b.bids@[i2].orders@[j2]]
        0 <= i1 < b.bids@.len() && 0 <= j1 < b.bids@[i1].orders@.len() && 0 <= i2 < b.bids@.len()
            && 0 <= j2 < b.bids@[i2].orders@.len() && b.bids@[i1].orders@[j1].order_id
            == b.bids@[i2].orders@[j2].order_id implies i1 == i2 && j1 == j2
    by {
        let id = b.bids@[i1].orders@[j1].order_id;
        assert(b.order_lookup@[id] == (Side::Buy, b.bids@[i1].price));
        assert(b.order_lookup@[id] == (Side::Buy, b.bids@[i2].price));
        if i1 < i2 {
            assert(b.bids@[i1].price < b.bids@[i2].price);
        }
        if i2 < i1 {
            assert(b.bids@[i2].price < b.bids@[i1].price);
        }
        if j1 < j2 {
            assert(b.bids@[i1].orders@[j1].order_id != b.bids@[i1].orders@[j2].order_id);
        }
        if j2 < j1 {
            assert(b.bids@[i1].orders@[j2].order_id != b.bids@[i1].orders@[j1].order_id);
        }
    }
    assert forall|i1: int, j1: int, i2: int, j2: int|
        #![trigger b.asks@[i1].orders@[j1], b.asks@[i2].orders@[j2]]
        0 <= i1 < b.asks@.len() && 0 <= j1 < b.asks@[i1].orders@.len() && 0 <= i2 < b.asks@.len()
            && 0 <= j2 < b.asks@[i2].orders@.len() && b.asks@[i1].orders@[j1].order_id
            == b.asks@[i2].orders@[j2].order_id implies i1 == i2 && j1 == j2
    by {
        let id = b.asks@[i1].orders@[j1].order_id;
        assert(b.order_lookup@[id] == (Side::Sell, b.asks@[i1].price));
        assert(b.order_lookup@[id] == (Side::Sell, b.asks@[i2].price));
        if i1 < i2 {
            assert(b.asks@[i1].price < b.asks@[i2].price);
        }
        if i2 < i1 {
            assert(b.asks@[i2].price < b.asks@[i1].price);
        }
        if j1 < j2 {
            assert(b.asks@[i1].orders@[j1].order_id != b.asks@[i1].orders@[j2].order_id);
        }
        if j2 < j1 {
            assert(b.asks@[i1].orders@[j2].order_id != b.asks@[i1].orders@[j1].order_id);
        }
    }
    assert forall|id: u64| !(side_has_id(b.bids@, id) && #[trigger] side_has_id(b.asks@, id)) by {
        if side_has_id(b.bids@, id) && side_has_id(b.asks@, id) {
            let i1 = choose|i: int|
                0 <= i < b.bids@.len() && level_has_id(#[trigger] b.bids@[i], id);
            let j1 = choose|j: int|
                0 <= j < b.bids@[i1].orders@.len() && b.bids@[i1].orders@[j].order_id == id;
            let i2 = choose|i: int|
                0 <= i < b.asks@.len() && level_has_id(#[trigger] b.asks@[i], id);
            let j2 = choose|j: int|
                0 <= j < b.asks@[i2].orders@.len() && b.asks@[i2].orders@[j].order_id == id;
            assert(b.order_lookup@[id].0 == Side::Buy);
            assert(b.order_lookup@[id].0 == Side::Sell);
        }
    }
}

/// FIFO at equal price: fills consume a level strictly in arrival order.
/// As long as an earlier order still rests in the level (the consumed prefix
/// has not reached it), every order that arrived after it is untouched: it
/// survives with its exact original quantity. An order is only ever filled
/// once all orders ahead of it in the queue are fully consumed.
pub proof fn lemma_fifo_at_equal_price(lo: PriceLevel, ln: PriceLevel, j1: int, j2: int)
    requires
        level_front_consumed(lo, ln),
        0 <= j1 < j2 < lo.orders@.len(),
        // the earlier order has not been fully consumed
        lo.orders@.len() - ln.orders@.len() <= j1,
    ensures
        // then the later order has not been touched at all
        ln.orders@[j2 - (lo.orders@.len() - ln.orders@.len())] == lo.orders@[j2],
        // while the earlier one may at most be partially filled
        partial_fill_of(ln.orders@[j1 - (lo.orders@.len() - ln.orders@.len())], lo.orders@[j1])
            || ln.orders@[j1 - (lo.orders@.len() - ln.orders@.len())] == lo.orders@[j1],
{
    let k = lo.orders@.len() - ln.orders@.len();
    assert(ln.orders@[j2 - k] == lo.orders@[k + (j2 - k)]);
    if j1 - k > 0 {
        assert(ln.orders@[j1 - k] == lo.orders@[k + (j1 - k)]);
    }
}

} // verus!
