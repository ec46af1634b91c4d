use vstd::prelude::*;
use crate::order::{Order, Side, Trade};
use std::collections::HashMap;
use std::collections::VecDeque;

verus! {

broadcast use
    vstd::std_specs::hash::group_hash_axioms,
    vstd::std_specs::vecdeque::group_vec_dequeue_axioms;

/// All resting orders at one price, earliest arrival first. New orders join
/// at the back; fills consume the front; a partially filled front order is
/// put back at the front so it keeps its time priority.
pub struct PriceLevel {
    pub price: u64,
    pub orders: VecDeque<Order>,
}

/// The order book for one symbol: bid levels and ask levels, each kept
/// sorted by price in ascending order (best bid is the last bid level, best
/// ask is the first ask level), plus an index from order id to the side and
/// price of the level that holds the order.
pub struct SymbolBook {
    pub bids: Vec<PriceLevel>,
    pub asks: Vec<PriceLevel>,
    pub order_lookup: HashMap<u64, (Side, u64)>,
}

/// Total resting quantity across a queue of orders.
pub open spec fn orders_total(s: Seq<Order>) -> int
    decreases s.len(),
{
    if s.len() == 0 {
        0
    } else {
        orders_total(s.drop_last()) + s.last().quantity
    }
}

/// Total resting quantity across one whole side of a book.
pub open spec fn side_total(s: Seq<PriceLevel>) -> int
    decreases s.len(),
{
    if s.len() == 0 {
        0
    } else {
        side_total(s.drop_last()) + orders_total(s.last().orders@)
    }
}

/// A queue's total splits off at the front.
proof fn lemma_orders_total_front(s: Seq<Order>)
    requires
        s.len() > 0,
    ensures
        orders_total(s) == s[0].quantity + orders_total(s.subrange(1, s.len() as int)),
    decreases s.len(),
{
    if s.len() == 1 {
        assert(s.subrange(1, 1) =~= Seq::<Order>::empty());
        assert(s.drop_last() =~= Seq::<Order>::empty());
    } else {
        lemma_orders_total_front(s.drop_last());
        assert(s.drop_last().subrange(1, s.drop_last().len() as int) =~= s.subrange(
            1,
            s.len() as int,
        ).drop_last());
        assert(s.subrange(1, s.len() as int).last() == s.last());
    }
}

/// A side's total splits off at the front level.
proof fn lemma_side_total_front(s: Seq<PriceLevel>)
    requires
        s.len() > 0,
    ensures
        side_total(s) == orders_total(s[0].orders@) + side_total(s.subrange(1, s.len() as int)),
    decreases s.len(),
{
    if s.len() == 1 {
        assert(s.subrange(1, 1) =~= Seq::<PriceLevel>::empty());
        assert(s.drop_last() =~= Seq::<PriceLevel>::empty());
    } else {
        lemma_side_total_front(s.drop_last());
        assert(s.drop_last().subrange(1, s.drop_last().len() as int) =~= s.subrange(
            1,
            s.len() as int,
        ).drop_last());
        assert(s.subrange(1, s.len() as int).last() == s.last());
    }
}

/// The makers an incoming buy works through, in consumption order: the best
/// (first) ask level front to back, then the next level, and so on.
pub open spec fn queue_front(s: Seq<PriceLevel>) -> Seq<Order>
    decreases s.len(),
{
    if s.len() == 0 {
        Seq::empty()
    } else {
        s[0].orders@ + queue_front(s.subrange(1, s.len() as int))
    }
}

/// The makers an incoming sell works through, in consumption order: the
/// best (last) bid level front to back, then the level below, and so on.
pub open spec fn queue_back(s: Seq<PriceLevel>) -> Seq<Order>
    decreases s.len(),
{
    if s.len() == 0 {
        Seq::empty()
    } else {
        s[s.len() - 1].orders@ + queue_back(s.drop_last())
    }
}

/// The returned trades paired off against the makers in consumption order:
/// the k-th trade fills the k-th maker in the queue, at that maker's price,
/// with the maker's id on the resting side and the incoming order's id on
/// the aggressing side; every maker touched crosses the incoming limit; and
/// every fill but the last consumes its maker whole.
pub open spec fn trades_match_queue(trades: Seq<Trade>, makers: Seq<Order>, incoming: Order) -> bool {
    &&& trades.len() <= makers.len()
    &&& forall|k: int|
        0 <= k < trades.len() ==> {
            let t = #[trigger] trades[k];
            &&& (incoming.side == Side::Buy ==> t.buy_order_id == incoming.order_id
                && t.sell_order_id == makers[k].order_id && makers[k].price <= incoming.price)
            &&& (incoming.side == Side::Sell ==> t.sell_order_id == incoming.order_id
                && t.buy_order_id == makers[k].order_id && makers[k].price >= incoming.price)
            &&& t.price == makers[k].price
            &&& 0 < t.quantity <= makers[k].quantity
        }
    &&& forall|k: int|
        0 <= k < trades.len() - 1 ==> (#[trigger] trades[k]).quantity == makers[k].quantity
}

/// The maker queue of a side whose front level is non-empty starts with
/// that level's front order.
proof fn lemma_queue_front_head(s: Seq<PriceLevel>)
    requires
        s.len() > 0,
        s[0].orders@.len() > 0,
    ensures
        queue_front(s).len() > 0,
        queue_front(s)[0] == s[0].orders@[0],
{
}

/// Consuming the front order of the front level advances the maker queue by
/// exactly one: the level keeps its remaining orders.
proof fn lemma_queue_front_shrink(cur: Seq<PriceLevel>, post: Seq<PriceLevel>)
    requires
        cur.len() > 0,
        cur[0].orders@.len() > 0,
        post.len() == cur.len(),
        post[0].orders@ == cur[0].orders@.subrange(1, cur[0].orders@.len() as int),
        forall|i: int| 1 <= i < post.len() ==> (#[trigger] post[i]) == cur[i],
    ensures
        queue_front(post) == queue_front(cur).subrange(1, queue_front(cur).len() as int),
{
    assert(post.subrange(1, post.len() as int) =~= cur.subrange(1, cur.len() as int));
    assert(queue_front(post) == post[0].orders@ + queue_front(
        post.subrange(1, post.len() as int),
    ));
    assert(queue_front(cur) == cur[0].orders@ + queue_front(cur.subrange(1, cur.len() as int)));
    assert(queue_front(post) =~= queue_front(cur).subrange(1, queue_front(cur).len() as int));
}

/// Consuming the only order of the front level advances the maker queue by
/// exactly one: the emptied level is gone.
proof fn lemma_queue_front_drop(cur: Seq<PriceLevel>, post: Seq<PriceLevel>)
    requires
        cur.len() > 0,
        cur[0].orders@.len() == 1,
        post == cur.subrange(1, cur.len() as int),
    ensures
        queue_front(post) == queue_front(cur).subrange(1, queue_front(cur).len() as int),
{
    assert(queue_front(cur) == cur[0].orders@ + queue_front(cur.subrange(1, cur.len() as int)));
    assert(queue_front(post) =~= queue_front(cur).subrange(1, queue_front(cur).len() as int));
}

/// The maker queue of a bid side whose best (last) level is non-empty
/// starts with that level's front order.
proof fn lemma_queue_back_head(s: Seq<PriceLevel>)
    requires
        s.len() > 0,
        s[s.len() - 1].orders@.len() > 0,
    ensures
        queue_back(s).len() > 0,
        queue_back(s)[0] == s[s.len() - 1].orders@[0],
{
}

/// Consuming the front order of the best (last) bid level advances the
/// maker queue by exactly one: the level keeps its remaining orders.
proof fn lemma_queue_back_shrink(cur: Seq<PriceLevel>, post: Seq<PriceLevel>)
    requires
        cur.len() > 0,
        cur[cur.len() - 1].orders@.len() > 0,
        post.len() == cur.len(),
        post[post.len() - 1].orders@ == cur[cur.len() - 1].orders@.subrange(
            1,
            cur[cur.len() - 1].orders@.len() as int,
        ),
        forall|i: int| 0 <= i < post.len() - 1 ==> (#[trigger] post[i]) == cur[i],
    ensures
        queue_back(post) == queue_back(cur).subrange(1, queue_back(cur).len() as int),
{
    assert(post.drop_last() =~= cur.drop_last());
    assert(queue_back(post) == post[post.len() - 1].orders@ + queue_back(post.drop_last()));
    assert(queue_back(cur) == cur[cur.len() - 1].orders@ + queue_back(cur.drop_last()));
    assert(queue_back(post) =~= queue_back(cur).subrange(1, queue_back(cur).len() as int));
}

/// Consuming the only order of the best (last) bid level advances the maker
/// queue by exactly one: the emptied level is gone.
proof fn lemma_queue_back_drop(cur: Seq<PriceLevel>, post: Seq<PriceLevel>)
    requires
        cur.len() > 0,
        cur[cur.len() - 1].orders@.len() == 1,
        post == cur.drop_last(),
    ensures
        queue_back(post) == queue_back(cur).subrange(1, queue_back(cur).len() as int),
{
    assert(queue_back(cur) == cur[cur.len() - 1].orders@ + queue_back(cur.drop_last()));
    assert(queue_back(post) =~= queue_back(cur).subrange(1, queue_back(cur).len() as int));
}

impl PriceLevel {
    /// Aggregate resting quantity at this level, for depth snapshots. The
    /// sum is exact: it cannot overflow its wider carrier.
    pub fn total_quantity(&self) -> (t: u128)
        ensures
            t == orders_total(self.orders@),
    {
        let mut t: u128 = 0;
        let mut j: usize = 0;
        proof {
            assert(self.orders@.subrange(0, 0) =~= Seq::<Order>::empty());
        }
        while j < self.orders.len()
            invariant
                0 <= j <= self.orders@.len(),
                t == orders_total(self.orders@.subrange(0, j as int)),
                t <= (j as int) * 0xffff_ffff_ffff_ffffu64,
            decreases self.orders@.len() - j,
        {
            let q = self.orders[j].quantity;
            proof {
                let pre = self.orders@.subrange(0, j as int);
                let post = self.orders@.subrange(0, j + 1 as int);
                assert(post.drop_last() =~= pre);
                assert(post.last() == self.orders@[j as int]);
            }
            t = t + q as u128;
            j = j + 1;
        }
        proof {
            assert(self.orders@.subrange(0, self.orders@.len() as int) =~= self.orders@);
        }
        t
    }
}

/// Every order in a level carries the level's price, the side of the book
/// the level sits on, and a strictly positive remaining quantity.
pub open spec fn order_wf(o: Order, side: Side, price: u64) -> bool {
    &&& o.side == side
    &&& o.price == price
    &&& o.quantity > 0
}

/// A level is never empty and all its orders are well formed for it.
pub open spec fn level_wf(l: PriceLevel, side: Side) -> bool {
    &&& l.orders@.len() > 0
    &&& forall|j: int|
        0 <= j < l.orders@.len() ==> order_wf(#[trigger] l.orders@[j], side, l.price)
}

/// Level prices are strictly increasing along the sequence.
pub open spec fn side_sorted(s: Seq<PriceLevel>) -> bool {
    forall|i: int, j: int|
        0 <= i < j < s.len() ==> (#[trigger] s[i].price) < (#[trigger] s[j].price)
}

/// One side of a book: sorted distinct prices, well-formed non-empty levels.
pub open spec fn side_wf(s: Seq<PriceLevel>, side: Side) -> bool {
    &&& side_sorted(s)
    &&& forall|i: int| 0 <= i < s.len() ==> level_wf(#[trigger] s[i], side)
}

/// The level holds an order with this id.
pub open spec fn level_has_id(l: PriceLevel, id: u64) -> bool {
    exists|j: int| 0 <= j < l.orders@.len() && (#[trigger] l.orders@[j]).order_id == id
}

/// Some level on this side holds an order with this id.
pub open spec fn side_has_id(s: Seq<PriceLevel>, id: u64) -> bool {
    exists|i: int| 0 <= i < s.len() && level_has_id(#[trigger] s[i], id)
}

/// No id repeats within any single level of this side.
pub open spec fn side_ids_unique(s: Seq<PriceLevel>) -> bool {
    forall|i: int, j1: int, j2: int|
        0 <= i < s.len() && 0 <= j1 < j2 < s[i].orders@.len()
            ==> (#[trigger] s[i].orders@[j1]).order_id != (#[trigger] s[i].orders@[j2]).order_id
}

/// Every order resting on this side is registered in the index under its id,
/// with this side and the price of its level.
pub open spec fn side_index_sync(s: Seq<PriceLevel>, m: Map<u64, (Side, u64)>, side: Side) -> bool {
    forall|i: int, j: int|
        0 <= i < s.len() && 0 <= j < s[i].orders@.len() ==> {
            let id = (#[trigger] s[i].orders@[j]).order_id;
            &&& m.contains_key(id)
            &&& m[id] == (side, s[i].price)
        }
}

/// The new side sequence is the old one with this order rested: appended to
/// the back of the level at its price, or in a fresh single-order level at
/// the position that keeps the prices sorted. Arriving last, the order is
/// behind every earlier order at the same price.
pub open spec fn rested_in(olds: Seq<PriceLevel>, news: Seq<PriceLevel>, order: Order) -> bool {
    exists|i: int|
        #![auto]
        0 <= i < news.len() && news[i].price == order.price && {
            ||| {
                &&& news.len() == olds.len()
                &&& olds[i].price == order.price
                &&& news[i].orders@ == olds[i].orders@.push(order)
                &&& forall|k: int| 0 <= k < news.len() && k != i ==> news[k] == olds[k]
            }
            ||| {
                &&& news.len() == olds.len() + 1
                &&& news[i].orders@ == seq![order]
                &&& forall|k: int| 0 <= k < i ==> news[k] == olds[k]
                &&& forall|k: int| i < k < news.len() ==> news[k] == olds[k - 1]
            }
        }
}

/// Some level on this side has this price and holds an order with this id.
pub open spec fn side_has_order(s: Seq<PriceLevel>, price: u64, id: u64) -> bool {
    exists|i: int| 0 <= i < s.len() && (#[trigger] s[i]).price == price && level_has_id(s[i], id)
}

/// The new side sequence is the old one with exactly the order carrying this
/// id removed from the level at this price; the level itself goes away when
/// that order was its last.
pub open spec fn cancelled_from(
    olds: Seq<PriceLevel>,
    news: Seq<PriceLevel>,
    price: u64,
    id: u64,
) -> bool {
    exists|i: int, j: int|
        #![auto]
        0 <= i < olds.len() && 0 <= j < olds[i].orders@.len() && olds[i].price == price
            && olds[i].orders@[j].order_id == id && if olds[i].orders@.len() == 1 {
            news == olds.remove(i)
        } else {
            &&& news.len() == olds.len()
            &&& news[i].price == olds[i].price
            &&& news[i].orders@ == olds[i].orders@.remove(j)
            &&& forall|k: int| 0 <= k < news.len() && k != i ==> news[k] == olds[k]
        }
}

/// Total quantity across a sequence of trades.
pub open spec fn trades_total(s: Seq<Trade>) -> int
    decreases s.len(),
{
    if s.len() == 0 {
        0
    } else {
        trades_total(s.drop_last()) + s.last().quantity
    }
}

/// Shape of a trade produced for this incoming order: it carries the
/// order's symbol, a positive quantity no larger than the order's, the
/// incoming order's id on the incoming side, and a maker price at least as
/// favourable as the incoming limit.
pub open spec fn trade_for(t: Trade, incoming: Order) -> bool {
    &&& t.symbol@ == incoming.symbol@
    &&& 0 < t.quantity <= incoming.quantity
    &&& (incoming.side == Side::Buy ==> t.buy_order_id == incoming.order_id
        && t.price <= incoming.price)
    &&& (incoming.side == Side::Sell ==> t.sell_order_id == incoming.order_id
        && t.price >= incoming.price)
}

/// The new order is the old one partially (or not at all) filled: identical
/// but for a positive remaining quantity no larger than before.
pub open spec fn partial_fill_of(n: Order, o: Order) -> bool {
    &&& n.order_id == o.order_id
    &&& n.symbol == o.symbol
    &&& n.side == o.side
    &&& n.price == o.price
    &&& n.timestamp == o.timestamp
    &&& 0 < n.quantity <= o.quantity
}

/// The new level is the old one after zero or more fills taken in FIFO
/// order: some prefix of the queue is fully consumed, and the new front, if
/// any, is the next order in line, possibly partially filled.
pub open spec fn level_front_consumed(lo: PriceLevel, ln: PriceLevel) -> bool {
    &&& ln.price == lo.price
    &&& ln.orders@.len() <= lo.orders@.len()
    &&& {
        let k = lo.orders@.len() - ln.orders@.len();
        &&& forall|j: int|
            1 <= j < ln.orders@.len() ==> (#[trigger] ln.orders@[j]) == lo.orders@[k + j]
        &&& ln.orders@.len() > 0 ==> partial_fill_of(ln.orders@[0], lo.orders@[k as int])
    }
}

/// The new ask side is the old one consumed in price-time priority from the
/// front: whole best-price levels are gone, and the first surviving level
/// lost only a prefix of its queue.
pub open spec fn consumed_from_front(olds: Seq<PriceLevel>, news: Seq<PriceLevel>) -> bool {
    &&& news.len() <= olds.len()
    &&& {
        let d = olds.len() - news.len();
        &&& forall|i: int| 1 <= i < news.len() ==> (#[trigger] news[i]) == olds[d + i]
        &&& news.len() > 0 ==> level_front_consumed(olds[d as int], news[0])
    }
}

/// Mirror image for the bid side, whose best level sits at the back.
pub open spec fn consumed_from_back(olds: Seq<PriceLevel>, news: Seq<PriceLevel>) -> bool {
    &&& news.len() <= olds.len()
    &&& forall|i: int| 0 <= i < news.len() - 1 ==> (#[trigger] news[i]) == olds[i]
    &&& news.len() > 0 ==> level_front_consumed(olds[news.len() - 1], news[news.len() - 1])
}

/// FIFO consumption of a level composes across successive fills.
proof fn lemma_level_front_consumed_trans(a: PriceLevel, b: PriceLevel, c: PriceLevel)
    requires
        level_front_consumed(a, b),
        level_front_consumed(b, c),
        forall|j: int| 0 <= j < a.orders@.len() ==> (#[trigger] a.orders@[j]).quantity > 0,
    ensures
        level_front_consumed(a, c),
{
    let kab = a.orders@.len() - b.orders@.len();
    let kbc = b.orders@.len() - c.orders@.len();
    assert forall|j: int|
        1 <= j < c.orders@.len() implies (#[trigger] c.orders@[j]) == a.orders@[kab + kbc + j]
    by {
        assert(c.orders@[j] == b.orders@[kbc + j]);
    }
    if c.orders@.len() > 0 {
        assert(partial_fill_of(c.orders@[0], b.orders@[kbc as int]));
        if kbc == 0 {
            assert(partial_fill_of(b.orders@[0], a.orders@[kab as int]));
        } else {
            assert(b.orders@[kbc as int] == a.orders@[kab + kbc]);
        }
    }
}

/// Price-time consumption of a whole side composes across successive fills.
proof fn lemma_consumed_from_front_trans(
    a: Seq<PriceLevel>,
    b: Seq<PriceLevel>,
    c: Seq<PriceLevel>,
)
    requires
        consumed_from_front(a, b),
        consumed_from_front(b, c),
        forall|i: int, j: int|
            0 <= i < a.len() && 0 <= j < a[i].orders@.len()
                ==> (#[trigger] a[i].orders@[j]).quantity > 0,
    ensures
        consumed_from_front(a, c),
{
    let dab = a.len() - b.len();
    let dbc = b.len() - c.len();
    assert forall|i: int| 1 <= i < c.len() implies (#[trigger] c[i]) == a[dab + dbc + i] by {
        assert(c[i] == b[dbc + i]);
    }
    if c.len() > 0 {
        assert(level_front_consumed(b[dbc as int], c[0]));
        if dbc == 0 {
            assert(level_front_consumed(a[dab as int], b[0]));
            assert forall|j: int|
                0 <= j < a[dab as int].orders@.len()
                    implies (#[trigger] a[dab as int].orders@[j]).quantity > 0
            by {}
            lemma_level_front_consumed_trans(a[dab as int], b[0], c[0]);
        } else {
            assert(b[dbc as int] == a[dab + dbc]);
        }
    }
}

/// The bid-side mirror of the composition lemma.
proof fn lemma_consumed_from_back_trans(
    a: Seq<PriceLevel>,
    b: Seq<PriceLevel>,
    c: Seq<PriceLevel>,
)
    requires
        consumed_from_back(a, b),
        consumed_from_back(b, c),
        forall|i: int, j: int|
            0 <= i < a.len() && 0 <= j < a[i].orders@.len()
                ==> (#[trigger] a[i].orders@[j]).quantity > 0,
    ensures
        consumed_from_back(a, c),
{
    assert forall|i: int| 0 <= i < c.len() - 1 implies (#[trigger] c[i]) == a[i] by {
        assert(c[i] == b[i]);
    }
    if c.len() > 0 {
        assert(level_front_consumed(b[c.len() - 1], c[c.len() - 1]));
        if c.len() == b.len() {
            assert(level_front_consumed(a[b.len() - 1], b[b.len() - 1]));
            lemma_level_front_consumed_trans(
                a[c.len() - 1],
                b[c.len() - 1],
                c[c.len() - 1],
            );
        } else {
            assert(b[c.len() - 1] == a[c.len() - 1]);
        }
    }
}

/// Rests `order` on one side of a book, keeping the side sorted, the levels
/// non-empty, and every earlier order ahead of the newcomer at its price.
#[verifier::rlimit(50)]
#[verifier::spinoff_prover]
fn insert_order_into_side(levels: &mut Vec<PriceLevel>, order: Order) -> (at: usize)
    requires
        side_wf(old(levels)@, order.side),
        side_ids_unique(old(levels)@),
        order.quantity > 0,
        forall|i: int, j: int|
            0 <= i < old(levels)@.len() && 0 <= j < old(levels)@[i].orders@.len()
                ==> (#[trigger] old(levels)@[i].orders@[j]).order_id != order.order_id,
    ensures
        side_wf(final(levels)@, order.side),
        side_ids_unique(final(levels)@),
        rested_in(old(levels)@, final(levels)@, order),
        forall|id: u64|
            side_has_id(final(levels)@, id)
                <==> side_has_id(old(levels)@, id) || id == order.order_id,
        forall|i2: int, j2: int|
            0 <= i2 < final(levels)@.len() && 0 <= j2 < final(levels)@[i2].orders@.len()
                ==> ((#[trigger] final(levels)@[i2].orders@[j2]) == order
                        && final(levels)@[i2].price == order.price)
                    || (exists|i1: int, j1: int|
                            0 <= i1 < old(levels)@.len()
                            && 0 <= j1 < old(levels)@[i1].orders@.len()
                            && old(levels)@[i1].orders@[j1] == final(levels)@[i2].orders@[j2]
                            && old(levels)@[i1].price == final(levels)@[i2].price),
        final(levels)@.len() > 0,
        final(levels)@[0].price == (if old(levels)@.len() == 0
            || order.price < old(levels)@[0].price {
            order.price
        } else {
            old(levels)@[0].price
        }),
        final(levels)@.last().price == (if old(levels)@.len() == 0
            || order.price > old(levels)@.last().price {
            order.price
        } else {
            old(levels)@.last().price
        }),
        at < final(levels)@.len(),
        final(levels)@[at as int].price == order.price,
        final(levels)@[at as int].orders@.len() > 0,
        final(levels)@[at as int].orders@.last() == order,
{
    let ghost olds = levels@;
    let mut idx: usize = 0;
    while idx < levels.len() && levels[idx].price < order.price
        invariant
            0 <= idx <= levels@.len(),
            levels@ == olds,
            forall|k: int| 0 <= k < idx ==> (#[trigger] levels@[k].price) < order.price,
        decreases levels@.len() - idx,
    {
        idx = idx + 1;
    }
    if idx < levels.len() && levels[idx].price == order.price {
        let mut lvl = levels.remove(idx);
        let ghost oldorders = lvl.orders@;
        lvl.orders.push_back(order);
        let ghost newlvl = lvl;
        levels.insert(idx, lvl);
        proof {
            assert(levels@ =~= olds.update(idx as int, newlvl));
            assert(newlvl.orders@ == oldorders.push(order));
            assert(rested_in(olds, levels@, order)) by {
                assert(0 <= idx < levels@.len() && levels@[idx as int].price == order.price
                    && levels@.len() == olds.len()
                    && olds[idx as int].price == order.price
                    && levels@[idx as int].orders@ == olds[idx as int].orders@.push(order)
                    && forall|k: int|
                        0 <= k < levels@.len() && k != idx ==> levels@[k] == olds[k]);
            }
            assert forall|id: u64|
                side_has_id(levels@, id) <==> side_has_id(olds, id) || id == order.order_id
            by {
                if side_has_id(olds, id) {
                    let i = choose|i: int| 0 <= i < olds.len() && level_has_id(olds[i], id);
                    let j = choose|j: int|
                        0 <= j < olds[i].orders@.len() && olds[i].orders@[j].order_id == id;
                    assert(0 <= j < levels@[i].orders@.len()
                        && levels@[i].orders@[j].order_id == id);
                    assert(level_has_id(levels@[i], id));
                }
                if id == order.order_id {
                    let j = oldorders.len() as int;
                    assert(levels@[idx as int].orders@[j].order_id == id);
                    assert(level_has_id(levels@[idx as int], id));
                }
                if side_has_id(levels@, id) {
                    let i = choose|i: int| 0 <= i < levels@.len() && level_has_id(levels@[i], id);
                    let j = choose|j: int|
                        0 <= j < levels@[i].orders@.len() && levels@[i].orders@[j].order_id == id;
                    if i == idx as int && j == oldorders.len() {
                        assert(id == order.order_id);
                    } else {
                        assert(olds[i].orders@[j].order_id == id);
                        assert(level_has_id(olds[i], id));
                    }
                }
            }
            assert forall|i2: int, j2: int|
                0 <= i2 < levels@.len() && 0 <= j2 < levels@[i2].orders@.len()
                    implies ((#[trigger] levels@[i2].orders@[j2]) == order
                        && levels@[i2].price == order.price)
                    || (exists|i1: int, j1: int|
                            0 <= i1 < olds.len() && 0 <= j1 < olds[i1].orders@.len()
                            && olds[i1].orders@[j1] == levels@[i2].orders@[j2]
                            && olds[i1].price == levels@[i2].price)
            by {
                if i2 == idx as int && j2 == oldorders.len() {
                    assert(levels@[i2].orders@[j2] == order);
                } else {
                    assert(olds[i2].orders@[j2] == levels@[i2].orders@[j2]
                        && olds[i2].price == levels@[i2].price);
                }
            }
        }
        idx
    } else {
        let price = order.price;
        let mut q: VecDeque<Order> = VecDeque::new();
        q.push_back(order);
        let lvl = PriceLevel { price, orders: q };
        let ghost newlvl = lvl;
        levels.insert(idx, lvl);
        proof {
            assert(newlvl.orders@ =~= seq![order]);
            assert(levels@ == olds.insert(idx as int, newlvl));
            assert(idx < olds.len() ==> olds[idx as int].price > order.price);
            assert(rested_in(olds, levels@, order)) by {
                assert(0 <= idx < levels@.len() && levels@[idx as int].price == order.price
                    && levels@.len() == olds.len() + 1
                    && levels@[idx as int].orders@ == seq![order]
                    && (forall|k: int| 0 <= k < idx ==> levels@[k] == olds[k])
                    && (forall|k: int| idx < k < levels@.len() ==> levels@[k] == olds[k - 1]));
            }
            assert(side_sorted(levels@)) by {
                assert forall|a: int, b: int| 0 <= a < b < levels@.len()
                    implies (#[trigger] levels@[a].price) < (#[trigger] levels@[b].price)
                by {
                    if a == idx as int {
                        assert(levels@[b] == olds[b - 1] && b - 1 >= idx);
                    } else if b == idx as int {
                        assert(levels@[a] == olds[a] && a < idx);
                    } else if a < idx as int && b > idx as int {
                        assert(levels@[a] == olds[a] && levels@[b] == olds[b - 1]);
                        assert(a < b - 1 || olds[a].price < order.price
                            && order.price < olds[b - 1].price) by {
                            if a == b - 1 {
                                assert(olds[a].price < order.price);
                                assert(b - 1 >= idx);
                            }
                        }
                    }
                }
            }
            assert forall|id: u64|
                side_has_id(levels@, id) <==> side_has_id(olds, id) || id == order.order_id
            by {
                if side_has_id(olds, id) {
                    let i = choose|i: int| 0 <= i < olds.len() && level_has_id(olds[i], id);
                    let j = choose|j: int|
                        0 <= j < olds[i].orders@.len() && olds[i].orders@[j].order_id == id;
                    let i2 = if i < idx as int { i } else { i + 1 };
                    assert(levels@[i2].orders@[j].order_id == id);
                    assert(level_has_id(levels@[i2], id));
                }
                if id == order.order_id {
                    assert(levels@[idx as int].orders@[0].order_id == id);
                    assert(level_has_id(levels@[idx as int], id));
                }
                if side_has_id(levels@, id) {
                    let i = choose|i: int| 0 <= i < levels@.len() && level_has_id(levels@[i], id);
                    let j = choose|j: int|
                        0 <= j < levels@[i].orders@.len() && levels@[i].orders@[j].order_id == id;
                    if i == idx as int {
                        assert(id == order.order_id);
                    } else {
                        let i1 = if i < idx as int { i } else { i - 1 };
                        assert(olds[i1].orders@[j].order_id == id);
                        assert(level_has_id(olds[i1], id));
                    }
                }
            }
            assert forall|i2: int, j2: int|
                0 <= i2 < levels@.len() && 0 <= j2 < levels@[i2].orders@.len()
                    implies ((#[trigger] levels@[i2].orders@[j2]) == order
                        && levels@[i2].price == order.price)
                    || (exists|i1: int, j1: int|
                            0 <= i1 < olds.len() && 0 <= j1 < olds[i1].orders@.len()
                            && olds[i1].orders@[j1] == levels@[i2].orders@[j2]
                            && olds[i1].price == levels@[i2].price)
            by {
                if i2 == idx as int {
                    assert(levels@[i2].orders@[j2] == order);
                } else {
                    let i1 = if i2 < idx as int { i2 } else { i2 - 1 };
                    assert(olds[i1].orders@[j2] == levels@[i2].orders@[j2]
                        && olds[i1].price == levels@[i2].price);
                }
            }
        }
        idx
    }
}

/// The order resting on this side under this id (meaningful when
/// `side_has_id` holds and ids are unique on the side).
pub open spec fn side_order_of(s: Seq<PriceLevel>, id: u64) -> Order {
    let i = choose|i: int| 0 <= i < s.len() && level_has_id(s[i], id);
    let j = choose|j: int| 0 <= j < s[i].orders@.len() && s[i].orders@[j].order_id == id;
    s[i].orders@[j]
}

/// Under a sorted side in sync with the index, the order a position holds is
/// the one `side_order_of` denotes: the id pins the position down.
proof fn lemma_side_order_of_position(
    s: Seq<PriceLevel>,
    m: Map<u64, (Side, u64)>,
    side: Side,
    id: u64,
    i: int,
    j: int,
)
    requires
        side_sorted(s),
        side_ids_unique(s),
        side_index_sync(s, m, side),
        0 <= i < s.len(),
        0 <= j < s[i].orders@.len(),
        s[i].orders@[j].order_id == id,
    ensures
        side_has_id(s, id),
        side_order_of(s, id) == s[i].orders@[j],
{
    assert(level_has_id(s[i], id));
    assert(side_has_id(s, id));
    let i2 = choose|i2: int| 0 <= i2 < s.len() && level_has_id(s[i2], id);
    let j2 = choose|j2: int| 0 <= j2 < s[i2].orders@.len() && s[i2].orders@[j2].order_id == id;
    assert(m.contains_key(id) && m[id] == (side, s[i].price));
    assert(m[id] == (side, s[i2].price));
    if i2 < i {
        assert(s[i2].price < s[i].price);
    }
    if i2 > i {
        assert(s[i].price < s[i2].price);
    }
    if j2 < j {
        assert(s[i].orders@[j2].order_id != s[i].orders@[j].order_id);
    }
    if j2 > j {
        assert(s[i].orders@[j].order_id != s[i].orders@[j2].order_id);
    }
}

/// In a well-formed book, the resting quantity under an id the index does
/// not know is zero.
proof fn lemma_resting_qty_absent(b: SymbolBook, id: u64)
    requires
        b.wf(),
        !b.order_lookup@.contains_key(id),
    ensures
        b.resting_qty(id) == 0,
{
    if side_has_id(b.bids@, id) {
        let i = choose|i: int| 0 <= i < b.bids@.len() && level_has_id(#[trigger] b.bids@[i], id);
        let j = choose|j: int|
            0 <= j < b.bids@[i].orders@.len() && b.bids@[i].orders@[j].order_id == id;
        assert(b.order_lookup@.contains_key(id));
    }
    if side_has_id(b.asks@, id) {
        let i = choose|i: int| 0 <= i < b.asks@.len() && level_has_id(#[trigger] b.asks@[i], id);
        let j = choose|j: int|
            0 <= j < b.asks@[i].orders@.len() && b.asks@[i].orders@[j].order_id == id;
        assert(b.order_lookup@.contains_key(id));
    }
}

/// In a well-formed book, a position holding an id determines the book's
/// resting quantity under that id.
proof fn lemma_resting_qty_at(b: SymbolBook, id: u64, side: Side, i: int, j: int)
    requires
        b.wf(),
        ({
            let s = if side == Side::Buy { b.bids@ } else { b.asks@ };
            &&& 0 <= i < s.len()
            &&& 0 <= j < s[i].orders@.len()
            &&& s[i].orders@[j].order_id == id
        }),
    ensures
        b.resting_qty(id) == (if side == Side::Buy {
            b.bids@[i].orders@[j].quantity as int
        } else {
            b.asks@[i].orders@[j].quantity as int
        }),
{
    if side == Side::Buy {
        lemma_side_order_of_position(b.bids@, b.order_lookup@, Side::Buy, id, i, j);
    } else {
        lemma_side_order_of_position(b.asks@, b.order_lookup@, Side::Sell, id, i, j);
        assert(!side_has_id(b.bids@, id)) by {
            if side_has_id(b.bids@, id) {
                let i2 = choose|i2: int|
                    0 <= i2 < b.bids@.len() && level_has_id(#[trigger] b.bids@[i2], id);
                let j2 = choose|j2: int|
                    0 <= j2 < b.bids@[i2].orders@.len() && b.bids@[i2].orders@[j2].order_id == id;
                assert(b.order_lookup@[id] == (Side::Buy, b.bids@[i2].price));
                assert(b.order_lookup@[id] == (Side::Sell, b.asks@[i].price));
            }
        }
    }
}

/// Fills an incoming buy order against the ask side in price-time priority:
/// best (lowest) price first and, within a level, earliest arrival first.
/// Returns the trades in execution order and the unmatched remainder.
#[verifier::rlimit(100)]
#[verifier::spinoff_prover]
fn cross_asks(
    asks: &mut Vec<PriceLevel>,
    lookup: &mut HashMap<u64, (Side, u64)>,
    incoming: &Order,
) -> (res: (Vec<Trade>, u64))
    requires
        incoming.side == Side::Buy,
        incoming.quantity > 0,
        side_wf(old(asks)@, Side::Sell),
        side_ids_unique(old(asks)@),
        side_index_sync(old(asks)@, old(lookup)@, Side::Sell),
        forall|id: u64|
            old(lookup)@.contains_key(id) && (#[trigger] old(lookup)@[id]).0 == Side::Sell
                ==> side_has_id(old(asks)@, id),
    ensures
        side_wf(final(asks)@, Side::Sell),
        side_ids_unique(final(asks)@),
        side_index_sync(final(asks)@, final(lookup)@, Side::Sell),
        forall|id: u64|
            final(lookup)@.contains_key(id) && (#[trigger] final(lookup)@[id]).0 == Side::Sell
                ==> side_has_id(final(asks)@, id),
        forall|id: u64| #[trigger]
            final(lookup)@.contains_key(id) ==> old(lookup)@.contains_key(id)
                && final(lookup)@[id] == old(lookup)@[id],
        forall|id: u64|
            old(lookup)@.contains_key(id) && (#[trigger] old(lookup)@[id]).0 == Side::Buy
                ==> final(lookup)@.contains_key(id),
        trades_total(res.0@) + res.1 == incoming.quantity,
        res.1 <= incoming.quantity,
        forall|k: int| 0 <= k < res.0@.len() ==> trade_for(#[trigger] res.0@[k], *incoming),
        consumed_from_front(old(asks)@, final(asks)@),
        side_total(old(asks)@) == side_total(final(asks)@) + trades_total(res.0@),
        trades_match_queue(res.0@, queue_front(old(asks)@), *incoming),
        forall|i: int|
            0 <= i < old(asks)@.len() - final(asks)@.len()
                ==> (#[trigger] old(asks)@[i]).price <= incoming.price,
        final(asks)@.len() > 0
            && final(asks)@[0] != old(asks)@[old(asks)@.len() - final(asks)@.len()]
            ==> old(asks)@[old(asks)@.len() - final(asks)@.len()].price <= incoming.price,
        forall|k1: int, k2: int|
            0 <= k1 <= k2 < res.0@.len() ==> (#[trigger] res.0@[k1]).price
                <= (#[trigger] res.0@[k2]).price,
        res.1 > 0 ==> final(asks)@.len() == 0 || final(asks)@[0].price > incoming.price,
{
    let ghost olds = asks@;
    let ghost flat = queue_front(olds);
    let mut trades: Vec<Trade> = Vec::new();
    let mut remaining: u64 = incoming.quantity;
    while remaining > 0 && asks.len() > 0 && asks[0].price <= incoming.price
        invariant
            incoming.side == Side::Buy,
            incoming.quantity > 0,
            side_wf(olds, Side::Sell),
            side_wf(asks@, Side::Sell),
            side_ids_unique(asks@),
            side_index_sync(asks@, lookup@, Side::Sell),
            forall|id: u64|
                lookup@.contains_key(id) && (#[trigger] lookup@[id]).0 == Side::Sell
                    ==> side_has_id(asks@, id),
            forall|id: u64| #[trigger]
                lookup@.contains_key(id) ==> old(lookup)@.contains_key(id)
                    && lookup@[id] == old(lookup)@[id],
            forall|id: u64|
                old(lookup)@.contains_key(id) && (#[trigger] old(lookup)@[id]).0 == Side::Buy
                    ==> lookup@.contains_key(id),
            trades_total(trades@) + remaining == incoming.quantity,
            remaining <= incoming.quantity,
            forall|k: int| 0 <= k < trades@.len() ==> trade_for(#[trigger] trades@[k], *incoming),
            consumed_from_front(olds, asks@),
            side_total(asks@) + trades_total(trades@) == side_total(olds),
            forall|k1: int, k2: int|
                0 <= k1 <= k2 < trades@.len() ==> (#[trigger] trades@[k1]).price
                    <= (#[trigger] trades@[k2]).price,
            trades@.len() > 0 && asks@.len() > 0 ==> trades@.last().price <= asks@[0].price,
            trades_match_queue(trades@, flat, *incoming),
            remaining > 0 ==> queue_front(asks@) == flat.skip(trades@.len() as int),
            trades@.len() > 0 && trades@[trades@.len() - 1].quantity < flat[trades@.len()
                - 1].quantity ==> remaining == 0,
            forall|i: int|
                0 <= i < olds.len() - asks@.len() ==> (#[trigger] olds[i]).price
                    <= incoming.price,
            asks@.len() > 0 && asks@[0] != olds[olds.len() - asks@.len()]
                ==> olds[olds.len() - asks@.len()].price <= incoming.price,
        decreases remaining,
    {
        let ghost cur = asks@;
        let ghost curm = lookup@;
        let ghost n = trades@.len() as int;
        let mut lvl = asks.remove(0);
        let ghost lvl0 = lvl;
        let resting = lvl.orders.pop_front().unwrap();
        proof {
            assert(resting == lvl0.orders@[0]);
            assert(order_wf(resting, Side::Sell, lvl0.price));
            lemma_queue_front_head(cur);
            assert(queue_front(cur) == flat.skip(n));
            assert(n < flat.len());
            assert(flat[n] == resting);
        }
        let fill = if remaining < resting.quantity {
            remaining
        } else {
            resting.quantity
        };
        let trade = Trade {
            buy_order_id: incoming.order_id,
            sell_order_id: resting.order_id,
            symbol: incoming.symbol.clone(),
            price: resting.price,
            quantity: fill,
        };
        let ghost trades_before = trades@;
        trades.push(trade);
        proof {
            assert(trades@.drop_last() =~= trades_before);
            assert(trades_total(trades@) == trades_total(trades_before) + fill);
            assert forall|k1: int, k2: int|
                0 <= k1 <= k2 < trades@.len()
                    implies (#[trigger] trades@[k1]).price <= (#[trigger] trades@[k2]).price
            by {
                if k2 == trades_before.len() as int && k1 < k2 {
                    assert(trades@[k1] == trades_before[k1]);
                    assert(trades_before[k1].price
                        <= trades_before[trades_before.len() - 1].price);
                    assert(trades_before.last().price <= cur[0].price);
                }
            }
            assert(trades@.last().price == cur[0].price);
            // the new trade fills maker flat[n]
            assert(trades@[n] == trade);
            assert(n > 0 ==> trades_before[n - 1].quantity == flat[n - 1].quantity);
            assert forall|k: int|
                0 <= k < trades@.len() implies {
                    let t = #[trigger] trades@[k];
                    &&& (incoming.side == Side::Buy ==> t.buy_order_id == incoming.order_id
                        && t.sell_order_id == flat[k].order_id && flat[k].price
                        <= incoming.price)
                    &&& (incoming.side == Side::Sell ==> t.sell_order_id == incoming.order_id
                        && t.buy_order_id == flat[k].order_id && flat[k].price
                        >= incoming.price)
                    &&& t.price == flat[k].price
                    &&& 0 < t.quantity <= flat[k].quantity
                }
            by {
                if k < n {
                    assert(trades@[k] == trades_before[k]);
                }
            }
            assert forall|k: int|
                0 <= k < trades@.len() - 1
                    implies (#[trigger] trades@[k]).quantity == flat[k].quantity
            by {
                assert(trades@[k] == trades_before[k]);
            }
            assert(trades_match_queue(trades@, flat, *incoming));
        }
        remaining = remaining - fill;
        let resting_left = resting.quantity - fill;
        let resting_id = resting.order_id;
        if resting_left > 0 {
            let mut refill = resting;
            refill.quantity = resting_left;
            lvl.orders.push_front(refill);
            asks.insert(0, lvl);
            proof {
                assert(asks@ =~= cur.update(0, asks@[0]));
                assert(asks@[0].orders@.len() == lvl0.orders@.len());
                assert(asks@[0].orders@[0] == refill);
                assert forall|j: int|
                    1 <= j < asks@[0].orders@.len()
                        implies (#[trigger] asks@[0].orders@[j]) == lvl0.orders@[j]
                by {
                    assert(asks@[0].orders@[j] == lvl0.orders@.subrange(
                        1,
                        lvl0.orders@.len() as int,
                    )[j - 1]);
                }
                assert(level_front_consumed(cur[0], asks@[0]));
                assert(consumed_from_front(cur, asks@));
                lemma_consumed_from_front_trans(olds, cur, asks@);
                lemma_orders_total_front(lvl0.orders@);
                lemma_orders_total_front(asks@[0].orders@);
                assert(asks@[0].orders@.subrange(1, asks@[0].orders@.len() as int)
                    =~= lvl0.orders@.subrange(1, lvl0.orders@.len() as int));
                assert(orders_total(asks@[0].orders@) == orders_total(lvl0.orders@) - fill);
                lemma_side_total_front(cur);
                lemma_side_total_front(asks@);
                assert(asks@.subrange(1, asks@.len() as int)
                    =~= cur.subrange(1, cur.len() as int));
                assert(side_total(asks@) == side_total(cur) - fill);
                // the index is untouched and every position keeps its entry
                assert forall|i: int, j: int|
                    0 <= i < asks@.len() && 0 <= j < asks@[i].orders@.len()
                        implies {
                            let id = (#[trigger] asks@[i].orders@[j]).order_id;
                            lookup@.contains_key(id) && lookup@[id] == (Side::Sell, asks@[i].price)
                        }
                by {
                    if i == 0 {
                        assert(asks@[0].orders@[j].order_id == cur[0].orders@[j].order_id);
                        assert(asks@[0].price == cur[0].price);
                    } else {
                        assert(asks@[i] == cur[i]);
                    }
                }
                assert forall|id: u64|
                    lookup@.contains_key(id) && (#[trigger] lookup@[id]).0 == Side::Sell
                        implies side_has_id(asks@, id)
                by {
                    assert(side_has_id(cur, id));
                    let i = choose|i: int| 0 <= i < cur.len() && level_has_id(#[trigger] cur[i], id);
                    let j = choose|j: int|
                        0 <= j < cur[i].orders@.len() && cur[i].orders@[j].order_id == id;
                    assert(asks@[i].orders@[j].order_id == id);
                    assert(level_has_id(asks@[i], id));
                }
                assert forall|i: int, j1: int, j2: int|
                    0 <= i < asks@.len() && 0 <= j1 < j2 < asks@[i].orders@.len()
                        implies (#[trigger] asks@[i].orders@[j1]).order_id
                            != (#[trigger] asks@[i].orders@[j2]).order_id
                by {
                    if i == 0 {
                        assert(asks@[0].orders@[j1].order_id == cur[0].orders@[j1].order_id);
                        assert(asks@[0].orders@[j2].order_id == cur[0].orders@[j2].order_id);
                    } else {
                        assert(asks@[i] == cur[i]);
                    }
                }
                // only the front level, already counted as touched, changed
                assert(level_front_consumed(olds[(olds.len() - cur.len()) as int], cur[0]));
                assert(olds[olds.len() - asks@.len()].price <= incoming.price);
            }
        } else {
            lookup.remove(&resting_id);
            proof {
                assert(lookup@ == curm.remove(resting_id));
                assert(curm[resting_id] == (Side::Sell, cur[0].price));
                // any other occurrence of this id would sit at the same level
                // front, so every survivor keeps a different id
                assert forall|i: int, j: int|
                    0 <= i < cur.len() && 0 <= j < cur[i].orders@.len() && !(i == 0 && j == 0)
                        implies (#[trigger] cur[i].orders@[j]).order_id != resting_id
                by {
                    assert(side_index_sync(cur, curm, Side::Sell));
                    if cur[i].orders@[j].order_id == resting_id {
                        assert(curm.contains_key((cur[i].orders@[j]).order_id)
                            && curm[(cur[i].orders@[j]).order_id] == (Side::Sell, cur[i].price));
                        assert(curm[resting_id] == (Side::Sell, cur[i].price));
                        assert(cur[i].price == cur[0].price);
                        if i != 0 {
                            assert(cur[0].price < cur[i].price);
                        }
                        assert(i == 0 && j != 0);
                        assert(cur[0].orders@[0].order_id != cur[0].orders@[j].order_id);
                    }
                }
                assert(side_wf(cur, Side::Sell));
            }
            if lvl.orders.len() > 0 {
                asks.insert(0, lvl);
                proof {
                    assert(asks@ =~= cur.update(0, asks@[0]));
                    assert(asks@[0].orders@ == cur[0].orders@.subrange(
                        1,
                        cur[0].orders@.len() as int,
                    ));
                    assert(level_front_consumed(cur[0], asks@[0])) by {
                        assert(asks@[0].orders@[0] == cur[0].orders@[1]);
                        assert(partial_fill_of(asks@[0].orders@[0], cur[0].orders@[1]));
                    }
                    assert(consumed_from_front(cur, asks@));
                    lemma_consumed_from_front_trans(olds, cur, asks@);
                    lemma_orders_total_front(cur[0].orders@);
                    lemma_side_total_front(cur);
                    lemma_side_total_front(asks@);
                    assert(asks@.subrange(1, asks@.len() as int)
                        =~= cur.subrange(1, cur.len() as int));
                    assert(side_total(asks@) == side_total(cur) - fill);
                    assert forall|i: int, j: int|
                        0 <= i < asks@.len() && 0 <= j < asks@[i].orders@.len()
                            implies {
                                let id = (#[trigger] asks@[i].orders@[j]).order_id;
                                lookup@.contains_key(id) && lookup@[id]
                                    == (Side::Sell, asks@[i].price)
                            }
                    by {
                        if i == 0 {
                            assert(asks@[0].orders@[j] == cur[0].orders@[j + 1]);
                            assert(asks@[0].orders@[j].order_id != resting_id);
                            assert(asks@[0].price == cur[0].price);
                        } else {
                            assert(asks@[i] == cur[i]);
                            assert(asks@[i].orders@[j].order_id != resting_id);
                        }
                    }
                    assert forall|id: u64|
                        lookup@.contains_key(id) && (#[trigger] lookup@[id]).0 == Side::Sell
                            implies side_has_id(asks@, id)
                    by {
                        assert(curm.contains_key(id) && id != resting_id);
                        assert(side_has_id(cur, id));
                        let i = choose|i: int|
                            0 <= i < cur.len() && level_has_id(#[trigger] cur[i], id);
                        let j = choose|j: int|
                            0 <= j < cur[i].orders@.len() && cur[i].orders@[j].order_id == id;
                        if i == 0 {
                            assert(j != 0);
                            assert(asks@[0].orders@[j - 1].order_id == id);
                            assert(level_has_id(asks@[0], id));
                        } else {
                            assert(asks@[i].orders@[j].order_id == id);
                            assert(level_has_id(asks@[i], id));
                        }
                    }
                    assert forall|i: int, j1: int, j2: int|
                        0 <= i < asks@.len() && 0 <= j1 < j2 < asks@[i].orders@.len()
                            implies (#[trigger] asks@[i].orders@[j1]).order_id
                                != (#[trigger] asks@[i].orders@[j2]).order_id
                    by {
                        if i == 0 {
                            assert(asks@[0].orders@[j1] == cur[0].orders@[j1 + 1]);
                            assert(asks@[0].orders@[j2] == cur[0].orders@[j2 + 1]);
                        } else {
                            assert(asks@[i] == cur[i]);
                        }
                    }
                    lemma_queue_front_shrink(cur, asks@);
                    assert(flat.skip(n).subrange(1, flat.skip(n).len() as int) =~= flat.skip(
                        n + 1,
                    ));
                    assert(queue_front(asks@) == flat.skip(trades@.len() as int));
                    assert(level_front_consumed(olds[(olds.len() - cur.len()) as int], cur[0]));
                    assert(olds[olds.len() - asks@.len()].price <= incoming.price);
                }
            } else {
                proof {
                    assert(asks@ =~= cur.subrange(1, cur.len() as int));
                    assert(cur[0].orders@.len() == 1);
                    assert(consumed_from_front(cur, asks@)) by {
                        if asks@.len() > 0 {
                            assert(asks@[0] == cur[1]);
                            assert(level_front_consumed(cur[1], asks@[0])) by {
                                assert(partial_fill_of(asks@[0].orders@[0], cur[1].orders@[0]));
                            }
                        }
                    }
                    lemma_consumed_from_front_trans(olds, cur, asks@);
                    lemma_side_total_front(cur);
                    assert(orders_total(cur[0].orders@) == fill) by {
                        assert(cur[0].orders@.drop_last() =~= Seq::<Order>::empty());
                        assert(orders_total(Seq::<Order>::empty()) == 0);
                        assert(cur[0].orders@.last() == cur[0].orders@[0]);
                        assert(orders_total(cur[0].orders@) == orders_total(
                            cur[0].orders@.drop_last(),
                        ) + cur[0].orders@.last().quantity);
                    }
                    assert(side_total(asks@) == side_total(cur) - fill);
                    assert forall|i: int, j: int|
                        0 <= i < asks@.len() && 0 <= j < asks@[i].orders@.len()
                            implies {
                                let id = (#[trigger] asks@[i].orders@[j]).order_id;
                                lookup@.contains_key(id) && lookup@[id]
                                    == (Side::Sell, asks@[i].price)
                            }
                    by {
                        assert(asks@[i] == cur[i + 1]);
                        assert(asks@[i].orders@[j].order_id != resting_id);
                    }
                    assert forall|id: u64|
                        lookup@.contains_key(id) && (#[trigger] lookup@[id]).0 == Side::Sell
                            implies side_has_id(asks@, id)
                    by {
                        assert(curm.contains_key(id) && id != resting_id);
                        assert(side_has_id(cur, id));
                        let i = choose|i: int|
                            0 <= i < cur.len() && level_has_id(#[trigger] cur[i], id);
                        let j = choose|j: int|
                            0 <= j < cur[i].orders@.len() && cur[i].orders@[j].order_id == id;
                        assert(i != 0);
                        assert(asks@[i - 1].orders@[j].order_id == id);
                        assert(level_has_id(asks@[i - 1], id));
                    }
                    assert forall|i: int, j1: int, j2: int|
                        0 <= i < asks@.len() && 0 <= j1 < j2 < asks@[i].orders@.len()
                            implies (#[trigger] asks@[i].orders@[j1]).order_id
                                != (#[trigger] asks@[i].orders@[j2]).order_id
                    by {
                        assert(asks@[i] == cur[i + 1]);
                    }
                    lemma_queue_front_drop(cur, asks@);
                    assert(flat.skip(n).subrange(1, flat.skip(n).len() as int) =~= flat.skip(
                        n + 1,
                    ));
                    assert(queue_front(asks@) == flat.skip(trades@.len() as int));
                    assert(level_front_consumed(olds[(olds.len() - cur.len()) as int], cur[0]));
                    assert forall|i: int|
                        0 <= i < olds.len() - asks@.len()
                            implies (#[trigger] olds[i]).price <= incoming.price
                    by {
                        if i == olds.len() - cur.len() {
                            assert(olds[i].price == cur[0].price);
                        }
                    }
                    assert(asks@.len() > 0 ==> asks@[0] == olds[olds.len() - asks@.len()]);
                }
            }
        }
    }
    (trades, remaining)
}

/// Fills an incoming sell order against the bid side in price-time priority:
/// best (highest) price first and, within a level, earliest arrival first.
/// Returns the trades in execution order and the unmatched remainder.
#[verifier::rlimit(100)]
#[verifier::spinoff_prover]
fn cross_bids(
    bids: &mut Vec<PriceLevel>,
    lookup: &mut HashMap<u64, (Side, u64)>,
    incoming: &Order,
) -> (res: (Vec<Trade>, u64))
    requires
        incoming.side == Side::Sell,
        incoming.quantity > 0,
        side_wf(old(bids)@, Side::Buy),
        side_ids_unique(old(bids)@),
        side_index_sync(old(bids)@, old(lookup)@, Side::Buy),
        forall|id: u64|
            old(lookup)@.contains_key(id) && (#[trigger] old(lookup)@[id]).0 == Side::Buy
                ==> side_has_id(old(bids)@, id),
    ensures
        side_wf(final(bids)@, Side::Buy),
        side_ids_unique(final(bids)@),
        side_index_sync(final(bids)@, final(lookup)@, Side::Buy),
        forall|id: u64|
            final(lookup)@.contains_key(id) && (#[trigger] final(lookup)@[id]).0 == Side::Buy
                ==> side_has_id(final(bids)@, id),
        forall|id: u64| #[trigger]
            final(lookup)@.contains_key(id) ==> old(lookup)@.contains_key(id)
                && final(lookup)@[id] == old(lookup)@[id],
        forall|id: u64|
            old(lookup)@.contains_key(id) && (#[trigger] old(lookup)@[id]).0 == Side::Sell
                ==> final(lookup)@.contains_key(id),
        trades_total(res.0@) + res.1 == incoming.quantity,
        res.1 <= incoming.quantity,
        forall|k: int| 0 <= k < res.0@.len() ==> trade_for(#[trigger] res.0@[k], *incoming),
        consumed_from_back(old(bids)@, final(bids)@),
        side_total(old(bids)@) == side_total(final(bids)@) + trades_total(res.0@),
        trades_match_queue(res.0@, queue_back(old(bids)@), *incoming),
        forall|i: int|
            final(bids)@.len() <= i < old(bids)@.len()
                ==> (#[trigger] old(bids)@[i]).price >= incoming.price,
        final(bids)@.len() > 0
            && final(bids)@[final(bids)@.len() - 1] != old(bids)@[final(bids)@.len() - 1]
            ==> old(bids)@[final(bids)@.len() - 1].price >= incoming.price,
        forall|k1: int, k2: int|
            0 <= k1 <= k2 < res.0@.len() ==> (#[trigger] res.0@[k1]).price
                >= (#[trigger] res.0@[k2]).price,
        res.1 > 0 ==> final(bids)@.len() == 0
            || final(bids)@[final(bids)@.len() - 1].price < incoming.price,
{
    let ghost olds = bids@;
    let ghost flat = queue_back(olds);
    let mut trades: Vec<Trade> = Vec::new();
    let mut remaining: u64 = incoming.quantity;
    while remaining > 0 && bids.len() > 0 && bids[bids.len() - 1].price >= incoming.price
        invariant
            incoming.side == Side::Sell,
            incoming.quantity > 0,
            side_wf(olds, Side::Buy),
            side_wf(bids@, Side::Buy),
            side_ids_unique(bids@),
            side_index_sync(bids@, lookup@, Side::Buy),
            forall|id: u64|
                lookup@.contains_key(id) && (#[trigger] lookup@[id]).0 == Side::Buy
                    ==> side_has_id(bids@, id),
            forall|id: u64| #[trigger]
                lookup@.contains_key(id) ==> old(lookup)@.contains_key(id)
                    && lookup@[id] == old(lookup)@[id],
            forall|id: u64|
                old(lookup)@.contains_key(id) && (#[trigger] old(lookup)@[id]).0 == Side::Sell
                    ==> lookup@.contains_key(id),
            trades_total(trades@) + remaining == incoming.quantity,
            remaining <= incoming.quantity,
            forall|k: int| 0 <= k < trades@.len() ==> trade_for(#[trigger] trades@[k], *incoming),
            consumed_from_back(olds, bids@),
            side_total(bids@) + trades_total(trades@) == side_total(olds),
            forall|k1: int, k2: int|
                0 <= k1 <= k2 < trades@.len() ==> (#[trigger] trades@[k1]).price
                    >= (#[trigger] trades@[k2]).price,
            trades@.len() > 0 && bids@.len() > 0 ==> trades@.last().price
                >= bids@[bids@.len() - 1].price,
            trades_match_queue(trades@, flat, *incoming),
            remaining > 0 ==> queue_back(bids@) == flat.skip(trades@.len() as int),
            trades@.len() > 0 && trades@[trades@.len() - 1].quantity < flat[trades@.len()
                - 1].quantity ==> remaining == 0,
            forall|i: int|
                bids@.len() <= i < olds.len() ==> (#[trigger] olds[i]).price >= incoming.price,
            bids@.len() > 0 && bids@[bids@.len() - 1] != olds[bids@.len() - 1]
                ==> olds[bids@.len() - 1].price >= incoming.price,
        decreases remaining,
    {
        let ghost cur = bids@;
        let ghost curm = lookup@;
        let ghost n = trades@.len() as int;
        let ghost lasti = cur.len() - 1;
        let mut lvl = bids.pop().unwrap();
        let ghost lvl0 = lvl;
        let resting = lvl.orders.pop_front().unwrap();
        proof {
            assert(lvl0 == cur[lasti]);
            assert(resting == lvl0.orders@[0]);
            assert(order_wf(resting, Side::Buy, lvl0.price));
            lemma_queue_back_head(cur);
            assert(queue_back(cur) == flat.skip(n));
            assert(n < flat.len());
            assert(flat[n] == resting);
        }
        let fill = if remaining < resting.quantity {
            remaining
        } else {
            resting.quantity
        };
        let trade = Trade {
            buy_order_id: resting.order_id,
            sell_order_id: incoming.order_id,
            symbol: incoming.symbol.clone(),
            price: resting.price,
            quantity: fill,
        };
        let ghost trades_before = trades@;
        trades.push(trade);
        proof {
            assert(trades@.drop_last() =~= trades_before);
            assert(trades_total(trades@) == trades_total(trades_before) + fill);
            assert forall|k1: int, k2: int|
                0 <= k1 <= k2 < trades@.len()
                    implies (#[trigger] trades@[k1]).price >= (#[trigger] trades@[k2]).price
            by {
                if k2 == trades_before.len() as int && k1 < k2 {
                    assert(trades@[k1] == trades_before[k1]);
                    assert(trades_before[k1].price
                        >= trades_before[trades_before.len() - 1].price);
                    assert(trades_before.last().price >= cur[lasti].price);
                }
            }
            assert(trades@.last().price == cur[lasti].price);
            // the new trade fills maker flat[n]
            assert(trades@[n] == trade);
            assert(n > 0 ==> trades_before[n - 1].quantity == flat[n - 1].quantity);
            assert forall|k: int|
                0 <= k < trades@.len() implies {
                    let t = #[trigger] trades@[k];
                    &&& (incoming.side == Side::Buy ==> t.buy_order_id == incoming.order_id
                        && t.sell_order_id == flat[k].order_id && flat[k].price
                        <= incoming.price)
                    &&& (incoming.side == Side::Sell ==> t.sell_order_id == incoming.order_id
                        && t.buy_order_id == flat[k].order_id && flat[k].price
                        >= incoming.price)
                    &&& t.price == flat[k].price
                    &&& 0 < t.quantity <= flat[k].quantity
                }
            by {
                if k < n {
                    assert(trades@[k] == trades_before[k]);
                }
            }
            assert forall|k: int|
                0 <= k < trades@.len() - 1
                    implies (#[trigger] trades@[k]).quantity == flat[k].quantity
            by {
                assert(trades@[k] == trades_before[k]);
            }
            assert(trades_match_queue(trades@, flat, *incoming));
        }
        remaining = remaining - fill;
        let resting_left = resting.quantity - fill;
        let resting_id = resting.order_id;
        if resting_left > 0 {
            let mut refill = resting;
            refill.quantity = resting_left;
            lvl.orders.push_front(refill);
            bids.push(lvl);
            proof {
                assert(bids@ =~= cur.update(lasti, bids@[lasti]));
                assert(bids@[lasti].orders@.len() == lvl0.orders@.len());
                assert(bids@[lasti].orders@[0] == refill);
                assert forall|j: int|
                    1 <= j < bids@[lasti].orders@.len()
                        implies (#[trigger] bids@[lasti].orders@[j]) == lvl0.orders@[j]
                by {
                    assert(bids@[lasti].orders@[j] == lvl0.orders@.subrange(
                        1,
                        lvl0.orders@.len() as int,
                    )[j - 1]);
                }
                assert(level_front_consumed(cur[lasti], bids@[lasti]));
                assert(consumed_from_back(cur, bids@));
                lemma_consumed_from_back_trans(olds, cur, bids@);
                lemma_orders_total_front(lvl0.orders@);
                lemma_orders_total_front(bids@[lasti].orders@);
                assert(bids@[lasti].orders@.subrange(1, bids@[lasti].orders@.len() as int)
                    =~= lvl0.orders@.subrange(1, lvl0.orders@.len() as int));
                assert(orders_total(bids@[lasti].orders@) == orders_total(lvl0.orders@) - fill);
                assert(bids@.drop_last() =~= cur.drop_last());
                assert(bids@.last() == bids@[lasti] && cur.last() == cur[lasti]);
                assert(side_total(bids@) == side_total(cur) - fill);
                assert forall|i: int, j: int|
                    0 <= i < bids@.len() && 0 <= j < bids@[i].orders@.len()
                        implies {
                            let id = (#[trigger] bids@[i].orders@[j]).order_id;
                            lookup@.contains_key(id) && lookup@[id] == (Side::Buy, bids@[i].price)
                        }
                by {
                    if i == lasti {
                        assert(bids@[lasti].orders@[j].order_id == cur[lasti].orders@[j].order_id);
                        assert(bids@[lasti].price == cur[lasti].price);
                    } else {
                        assert(bids@[i] == cur[i]);
                    }
                }
                assert forall|id: u64|
                    lookup@.contains_key(id) && (#[trigger] lookup@[id]).0 == Side::Buy
                        implies side_has_id(bids@, id)
                by {
                    assert(side_has_id(cur, id));
                    let i = choose|i: int| 0 <= i < cur.len() && level_has_id(#[trigger] cur[i], id);
                    let j = choose|j: int|
                        0 <= j < cur[i].orders@.len() && cur[i].orders@[j].order_id == id;
                    assert(bids@[i].orders@[j].order_id == id);
                    assert(level_has_id(bids@[i], id));
                }
                assert forall|i: int, j1: int, j2: int|
                    0 <= i < bids@.len() && 0 <= j1 < j2 < bids@[i].orders@.len()
                        implies (#[trigger] bids@[i].orders@[j1]).order_id
                            != (#[trigger] bids@[i].orders@[j2]).order_id
                by {
                    if i == lasti {
                        assert(bids@[lasti].orders@[j1].order_id
                            == cur[lasti].orders@[j1].order_id);
                        assert(bids@[lasti].orders@[j2].order_id
                            == cur[lasti].orders@[j2].order_id);
                    } else {
                        assert(bids@[i] == cur[i]);
                    }
                }
                // only the best level, already counted as touched, changed
                assert(level_front_consumed(olds[(cur.len() - 1) as int], cur[lasti]));
                assert(olds[bids@.len() - 1].price >= incoming.price);
            }
        } else {
            lookup.remove(&resting_id);
            proof {
                assert(lookup@ == curm.remove(resting_id));
                assert(curm[resting_id] == (Side::Buy, cur[lasti].price));
                assert forall|i: int, j: int|
                    0 <= i < cur.len() && 0 <= j < cur[i].orders@.len() && !(i == lasti && j == 0)
                        implies (#[trigger] cur[i].orders@[j]).order_id != resting_id
                by {
                    assert(side_index_sync(cur, curm, Side::Buy));
                    if cur[i].orders@[j].order_id == resting_id {
                        assert(curm.contains_key((cur[i].orders@[j]).order_id)
                            && curm[(cur[i].orders@[j]).order_id] == (Side::Buy, cur[i].price));
                        assert(curm[resting_id] == (Side::Buy, cur[i].price));
                        assert(cur[i].price == cur[lasti].price);
                        if i != lasti {
                            assert(cur[i].price < cur[lasti].price);
                        }
                        assert(i == lasti && j != 0);
                        assert(cur[lasti].orders@[0].order_id != cur[lasti].orders@[j].order_id);
                    }
                }
            }
            if lvl.orders.len() > 0 {
                bids.push(lvl);
                proof {
                    assert(bids@ =~= cur.update(lasti, bids@[lasti]));
                    assert(bids@[lasti].orders@ == cur[lasti].orders@.subrange(
                        1,
                        cur[lasti].orders@.len() as int,
                    ));
                    assert(level_front_consumed(cur[lasti], bids@[lasti])) by {
                        assert(bids@[lasti].orders@[0] == cur[lasti].orders@[1]);
                        assert(partial_fill_of(bids@[lasti].orders@[0], cur[lasti].orders@[1]));
                    }
                    assert(consumed_from_back(cur, bids@));
                    lemma_consumed_from_back_trans(olds, cur, bids@);
                    lemma_orders_total_front(cur[lasti].orders@);
                    assert(bids@.drop_last() =~= cur.drop_last());
                    assert(bids@.last() == bids@[lasti] && cur.last() == cur[lasti]);
                    assert(side_total(bids@) == side_total(cur) - fill);
                    assert forall|i: int, j: int|
                        0 <= i < bids@.len() && 0 <= j < bids@[i].orders@.len()
                            implies {
                                let id = (#[trigger] bids@[i].orders@[j]).order_id;
                                lookup@.contains_key(id) && lookup@[id]
                                    == (Side::Buy, bids@[i].price)
                            }
                    by {
                        if i == lasti {
                            assert(bids@[lasti].orders@[j] == cur[lasti].orders@[j + 1]);
                            assert(bids@[lasti].orders@[j].order_id != resting_id);
                            assert(bids@[lasti].price == cur[lasti].price);
                        } else {
                            assert(bids@[i] == cur[i]);
                            assert(bids@[i].orders@[j].order_id != resting_id);
                        }
                    }
                    assert forall|id: u64|
                        lookup@.contains_key(id) && (#[trigger] lookup@[id]).0 == Side::Buy
                            implies side_has_id(bids@, id)
                    by {
                        assert(curm.contains_key(id) && id != resting_id);
                        assert(side_has_id(cur, id));
                        let i = choose|i: int|
                            0 <= i < cur.len() && level_has_id(#[trigger] cur[i], id);
                        let j = choose|j: int|
                            0 <= j < cur[i].orders@.len() && cur[i].orders@[j].order_id == id;
                        if i == lasti {
                            assert(j != 0);
                            assert(bids@[lasti].orders@[j - 1].order_id == id);
                            assert(level_has_id(bids@[lasti], id));
                        } else {
                            assert(bids@[i].orders@[j].order_id == id);
                            assert(level_has_id(bids@[i], id));
                        }
                    }
                    assert forall|i: int, j1: int, j2: int|
                        0 <= i < bids@.len() && 0 <= j1 < j2 < bids@[i].orders@.len()
                            implies (#[trigger] bids@[i].orders@[j1]).order_id
                                != (#[trigger] bids@[i].orders@[j2]).order_id
                    by {
                        if i == lasti {
                            assert(bids@[lasti].orders@[j1] == cur[lasti].orders@[j1 + 1]);
                            assert(bids@[lasti].orders@[j2] == cur[lasti].orders@[j2 + 1]);
                        } else {
                            assert(bids@[i] == cur[i]);
                        }
                    }
                    lemma_queue_back_shrink(cur, bids@);
                    assert(flat.skip(n).subrange(1, flat.skip(n).len() as int) =~= flat.skip(
                        n + 1,
                    ));
                    assert(queue_back(bids@) == flat.skip(trades@.len() as int));
                    assert(level_front_consumed(olds[(cur.len() - 1) as int], cur[lasti]));
                    assert(olds[bids@.len() - 1].price >= incoming.price);
                }
            } else {
                proof {
                    assert(bids@ =~= cur.subrange(0, lasti));
                    assert(cur[lasti].orders@.len() == 1);
                    assert(consumed_from_back(cur, bids@)) by {
                        if bids@.len() > 0 {
                            assert(bids@[bids@.len() - 1] == cur[bids@.len() - 1]);
                            assert(level_front_consumed(
                                cur[bids@.len() - 1],
                                bids@[bids@.len() - 1],
                            )) by {
                                assert(partial_fill_of(
                                    bids@[bids@.len() - 1].orders@[0],
                                    cur[bids@.len() - 1].orders@[0],
                                ));
                            }
                        }
                    }
                    lemma_consumed_from_back_trans(olds, cur, bids@);
                    assert(bids@ =~= cur.drop_last());
                    assert(orders_total(cur[lasti].orders@) == fill) by {
                        assert(cur[lasti].orders@.drop_last() =~= Seq::<Order>::empty());
                        assert(orders_total(Seq::<Order>::empty()) == 0);
                        assert(cur[lasti].orders@.last() == cur[lasti].orders@[0]);
                        assert(orders_total(cur[lasti].orders@) == orders_total(
                            cur[lasti].orders@.drop_last(),
                        ) + cur[lasti].orders@.last().quantity);
                    }
                    assert(cur.last() == cur[lasti]);
                    assert(side_total(bids@) == side_total(cur) - fill);
                    assert forall|i: int, j: int|
                        0 <= i < bids@.len() && 0 <= j < bids@[i].orders@.len()
                            implies {
                                let id = (#[trigger] bids@[i].orders@[j]).order_id;
                                lookup@.contains_key(id) && lookup@[id]
                                    == (Side::Buy, bids@[i].price)
                            }
                    by {
                        assert(bids@[i] == cur[i]);
                        assert(bids@[i].orders@[j].order_id != resting_id);
                    }
                    assert forall|id: u64|
                        lookup@.contains_key(id) && (#[trigger] lookup@[id]).0 == Side::Buy
                            implies side_has_id(bids@, id)
                    by {
                        assert(curm.contains_key(id) && id != resting_id);
                        assert(side_has_id(cur, id));
                        let i = choose|i: int|
                            0 <= i < cur.len() && level_has_id(#[trigger] cur[i], id);
                        let j = choose|j: int|
                            0 <= j < cur[i].orders@.len() && cur[i].orders@[j].order_id == id;
                        assert(i != lasti);
                        assert(bids@[i].orders@[j].order_id == id);
                        assert(level_has_id(bids@[i], id));
                    }
                    assert forall|i: int, j1: int, j2: int|
                        0 <= i < bids@.len() && 0 <= j1 < j2 < bids@[i].orders@.len()
                            implies (#[trigger] bids@[i].orders@[j1]).order_id
                                != (#[trigger] bids@[i].orders@[j2]).order_id
                    by {
                        assert(bids@[i] == cur[i]);
                    }
                    assert(bids@ == cur.drop_last());
                    lemma_queue_back_drop(cur, bids@);
                    assert(flat.skip(n).subrange(1, flat.skip(n).len() as int) =~= flat.skip(
                        n + 1,
                    ));
                    assert(queue_back(bids@) == flat.skip(trades@.len() as int));
                    assert(level_front_consumed(olds[(cur.len() - 1) as int], cur[lasti]));
                    assert forall|i: int|
                        bids@.len() <= i < olds.len()
                            implies (#[trigger] olds[i]).price >= incoming.price
                    by {
                        if i == cur.len() - 1 {
                            assert(olds[i].price == cur[lasti].price);
                        }
                    }
                    assert(bids@.len() > 0 ==> bids@[bids@.len() - 1] == olds[bids@.len() - 1]);
                }
            }
        }
    }
    (trades, remaining)
}

/// Everything one submission does to a book: the whole contract of
/// `process_order`, as a relation between the book before, the book after,
/// the incoming order, and the returned trades.
pub open spec fn submit_relates(
    pre: SymbolBook,
    post: SymbolBook,
    order: Order,
    trades: Seq<Trade>,
) -> bool {
    &&& post.wf()
    &&& trades_total(trades) <= order.quantity
    &&& trades_total(trades) + post.resting_qty(order.order_id) == order.quantity
    &&& (post.contains_order(order.order_id) <==> trades_total(trades) < order.quantity)
    &&& (post.contains_order(order.order_id) ==> post.order_lookup@[order.order_id] == (
    order.side,
    order.price,
    ))
    &&& forall|id: u64|
        id != order.order_id && #[trigger] post.order_lookup@.contains_key(id)
            ==> pre.order_lookup@.contains_key(id) && post.order_lookup@[id]
            == pre.order_lookup@[id]
    &&& forall|k: int| 0 <= k < trades.len() ==> trade_for(#[trigger] trades[k], order)
    &&& (order.side == Side::Buy ==> {
        &&& consumed_from_front(pre.asks@, post.asks@)
        &&& trades_match_queue(trades, queue_front(pre.asks@), order)
        &&& side_total(pre.asks@) == side_total(post.asks@) + trades_total(trades)
        &&& forall|i: int|
            0 <= i < pre.asks@.len() - post.asks@.len() ==> (#[trigger] pre.asks@[i]).price
                <= order.price
        &&& (post.asks@.len() > 0
            && post.asks@[0] != pre.asks@[pre.asks@.len() - post.asks@.len()]
            ==> pre.asks@[pre.asks@.len() - post.asks@.len()].price <= order.price)
        &&& (trades_total(trades) == order.quantity ==> post.bids@ == pre.bids@)
        &&& (trades_total(trades) < order.quantity ==> rested_in(
            pre.bids@,
            post.bids@,
            Order { quantity: (order.quantity - trades_total(trades)) as u64, ..order },
        ))
        &&& (trades_total(trades) < order.quantity ==> post.asks@.len() == 0
            || post.best_ask_price() > order.price)
        &&& forall|k1: int, k2: int|
            0 <= k1 <= k2 < trades.len() ==> (#[trigger] trades[k1]).price
                <= (#[trigger] trades[k2]).price
    })
    &&& (order.side == Side::Sell ==> {
        &&& consumed_from_back(pre.bids@, post.bids@)
        &&& trades_match_queue(trades, queue_back(pre.bids@), order)
        &&& side_total(pre.bids@) == side_total(post.bids@) + trades_total(trades)
        &&& forall|i: int|
            post.bids@.len() <= i < pre.bids@.len() ==> (#[trigger] pre.bids@[i]).price
                >= order.price
        &&& (post.bids@.len() > 0
            && post.bids@[post.bids@.len() - 1] != pre.bids@[post.bids@.len() - 1]
            ==> pre.bids@[post.bids@.len() - 1].price >= order.price)
        &&& (trades_total(trades) == order.quantity ==> post.asks@ == pre.asks@)
        &&& (trades_total(trades) < order.quantity ==> rested_in(
            pre.asks@,
            post.asks@,
            Order { quantity: (order.quantity - trades_total(trades)) as u64, ..order },
        ))
        &&& (trades_total(trades) < order.quantity ==> post.bids@.len() == 0
            || post.best_bid_price() < order.price)
        &&& forall|k1: int, k2: int|
            0 <= k1 <= k2 < trades.len() ==> (#[trigger] trades[k1]).price
                >= (#[trigger] trades[k2]).price
    })
}

/// Everything one cancellation does to a book: the whole contract of
/// `cancel_order`, as a relation between the book before, the book after,
/// the cancelled id, and the reported result.
pub open spec fn cancel_relates(
    pre: SymbolBook,
    post: SymbolBook,
    order_id: u64,
    removed: bool,
) -> bool {
    &&& post.wf()
    &&& removed == pre.order_lookup@.contains_key(order_id)
    &&& !post.order_lookup@.contains_key(order_id)
    &&& post.order_lookup@ == pre.order_lookup@.remove(order_id)
    &&& (!removed ==> post.bids@ == pre.bids@ && post.asks@ == pre.asks@)
    &&& (removed ==> {
        let entry = pre.order_lookup@[order_id];
        &&& (entry.0 == Side::Buy ==> cancelled_from(pre.bids@, post.bids@, entry.1, order_id)
            && post.asks@ == pre.asks@)
        &&& (entry.0 == Side::Sell ==> cancelled_from(pre.asks@, post.asks@, entry.1, order_id)
            && post.bids@ == pre.bids@)
    })
}

/// After the ask side has been crossed against and the bid side left alone,
/// the book is well formed again.
proof fn lemma_wf_after_cross_asks(pre: SymbolBook, mid: SymbolBook)
    requires
        pre.wf(),
        mid.bids@ == pre.bids@,
        side_wf(mid.asks@, Side::Sell),
        side_ids_unique(mid.asks@),
        side_index_sync(mid.asks@, mid.order_lookup@, Side::Sell),
        forall|id: u64|
            mid.order_lookup@.contains_key(id) && (#[trigger] mid.order_lookup@[id]).0
                == Side::Sell ==> side_has_id(mid.asks@, id),
        forall|id: u64| #[trigger]
            mid.order_lookup@.contains_key(id) ==> pre.order_lookup@.contains_key(id)
                && mid.order_lookup@[id] == pre.order_lookup@[id],
        forall|id: u64|
            pre.order_lookup@.contains_key(id) && (#[trigger] pre.order_lookup@[id]).0
                == Side::Buy ==> mid.order_lookup@.contains_key(id),
        consumed_from_front(pre.asks@, mid.asks@),
    ensures
        mid.wf(),
{
    assert forall|i: int, j: int|
        0 <= i < mid.bids@.len() && 0 <= j < mid.bids@[i].orders@.len()
            implies {
                let id = (#[trigger] mid.bids@[i].orders@[j]).order_id;
                mid.order_lookup@.contains_key(id) && mid.order_lookup@[id]
                    == (Side::Buy, mid.bids@[i].price)
            }
    by {
        let id = mid.bids@[i].orders@[j].order_id;
        assert(pre.order_lookup@.contains_key(id)
            && pre.order_lookup@[id] == (Side::Buy, pre.bids@[i].price));
    }
    assert forall|id: u64| #[trigger] mid.order_lookup@.contains_key(id) implies {
        if mid.order_lookup@[id].0 == Side::Buy {
            side_has_id(mid.bids@, id)
        } else {
            side_has_id(mid.asks@, id)
        }
    } by {
        if mid.order_lookup@[id].0 == Side::Buy {
            assert(side_has_id(pre.bids@, id));
        }
    }
    assert(mid.uncrossed()) by {
        if mid.bids@.len() > 0 && mid.asks@.len() > 0 {
            let d = pre.asks@.len() - mid.asks@.len();
            assert(level_front_consumed(pre.asks@[d as int], mid.asks@[0]));
            assert(mid.asks@[0].price == pre.asks@[d as int].price);
            if d > 0 {
                assert(pre.asks@[0].price < pre.asks@[d as int].price);
            }
            assert(pre.best_bid_price() < pre.best_ask_price());
        }
    }
}

/// After the bid side has been crossed against and the ask side left alone,
/// the book is well formed again.
proof fn lemma_wf_after_cross_bids(pre: SymbolBook, mid: SymbolBook)
    requires
        pre.wf(),
        mid.asks@ == pre.asks@,
        side_wf(mid.bids@, Side::Buy),
        side_ids_unique(mid.bids@),
        side_index_sync(mid.bids@, mid.order_lookup@, Side::Buy),
        forall|id: u64|
            mid.order_lookup@.contains_key(id) && (#[trigger] mid.order_lookup@[id]).0
                == Side::Buy ==> side_has_id(mid.bids@, id),
        forall|id: u64| #[trigger]
            mid.order_lookup@.contains_key(id) ==> pre.order_lookup@.contains_key(id)
                && mid.order_lookup@[id] == pre.order_lookup@[id],
        forall|id: u64|
            pre.order_lookup@.contains_key(id) && (#[trigger] pre.order_lookup@[id]).0
                == Side::Sell ==> mid.order_lookup@.contains_key(id),
        consumed_from_back(pre.bids@, mid.bids@),
    ensures
        mid.wf(),
{
    assert forall|i: int, j: int|
        0 <= i < mid.asks@.len() && 0 <= j < mid.asks@[i].orders@.len()
            implies {
                let id = (#[trigger] mid.asks@[i].orders@[j]).order_id;
                mid.order_lookup@.contains_key(id) && mid.order_lookup@[id]
                    == (Side::Sell, mid.asks@[i].price)
            }
    by {
        let id = mid.asks@[i].orders@[j].order_id;
        assert(pre.order_lookup@.contains_key(id)
            && pre.order_lookup@[id] == (Side::Sell, pre.asks@[i].price));
    }
    assert forall|id: u64| #[trigger] mid.order_lookup@.contains_key(id) implies {
        if mid.order_lookup@[id].0 == Side::Buy {
            side_has_id(mid.bids@, id)
        } else {
            side_has_id(mid.asks@, id)
        }
    } by {
        if mid.order_lookup@[id].0 == Side::Sell {
            assert(side_has_id(pre.asks@, id));
        }
    }
    assert(mid.uncrossed()) by {
        if mid.bids@.len() > 0 && mid.asks@.len() > 0 {
            let lasti = mid.bids@.len() - 1;
            assert(level_front_consumed(pre.bids@[lasti as int], mid.bids@[lasti as int]));
            assert(mid.bids@[lasti as int].price == pre.bids@[lasti as int].price);
            if lasti < pre.bids@.len() - 1 {
                assert(pre.bids@[lasti as int].price < pre.bids@[pre.bids@.len() - 1].price);
            }
            assert(pre.best_bid_price() < pre.best_ask_price());
        }
    }
}

/// Removes the order with the given id from the level at the given price, if
/// both exist, pruning the level when it empties. The id must not rest at any
/// other price on this side (the index guarantees as much to the caller).
#[verifier::rlimit(50)]
#[verifier::spinoff_prover]
fn remove_from_side(
    levels: &mut Vec<PriceLevel>,
    price: u64,
    id: u64,
    Ghost(side): Ghost<Side>,
) -> (removed: bool)
    requires
        side_wf(old(levels)@, side),
        side_ids_unique(old(levels)@),
        forall|i: int, j: int|
            0 <= i < old(levels)@.len() && 0 <= j < old(levels)@[i].orders@.len()
                && (#[trigger] old(levels)@[i].orders@[j]).order_id == id
                ==> old(levels)@[i].price == price,
    ensures
        side_wf(final(levels)@, side),
        side_ids_unique(final(levels)@),
        removed == side_has_order(old(levels)@, price, id),
        !removed ==> final(levels)@ == old(levels)@,
        removed ==> cancelled_from(old(levels)@, final(levels)@, price, id),
        removed ==> !side_has_id(final(levels)@, id),
        forall|oid: u64|
            oid != id ==> (side_has_id(final(levels)@, oid) <==> side_has_id(old(levels)@, oid)),
        removed ==> forall|i2: int, j2: int|
            0 <= i2 < final(levels)@.len() && 0 <= j2 < final(levels)@[i2].orders@.len()
                ==> exists|i1: int, j1: int|
                    0 <= i1 < old(levels)@.len() && 0 <= j1 < old(levels)@[i1].orders@.len()
                    && old(levels)@[i1].orders@[j1]
                        == (#[trigger] final(levels)@[i2].orders@[j2])
                    && old(levels)@[i1].price == final(levels)@[i2].price,
        final(levels)@.len() <= old(levels)@.len(),
        final(levels)@.len() > 0 ==> final(levels)@[0].price >= old(levels)@[0].price
            && final(levels)@.last().price <= old(levels)@.last().price,
{
    let ghost olds = levels@;
    let mut li: usize = 0;
    while li < levels.len() && levels[li].price != price
        invariant
            0 <= li <= levels@.len(),
            levels@ == olds,
            forall|k: int| 0 <= k < li ==> (#[trigger] levels@[k].price) != price,
        decreases levels@.len() - li,
    {
        li = li + 1;
    }
    if li >= levels.len() {
        proof {
            assert(!side_has_order(olds, price, id));
        }
        return false;
    }
    let mut lvl = levels.remove(li);
    let ghost oldorders = lvl.orders@;
    // scan the FIFO queue for the order to cancel
    let mut j: usize = 0;
    let mut found: bool = false;
    let mut fidx: usize = 0;
    while j < lvl.orders.len() && !found
        invariant
            0 <= j <= lvl.orders@.len(),
            lvl.orders@ == oldorders,
            lvl.price == olds[li as int].price,
            !found ==> forall|k: int|
                0 <= k < j ==> (#[trigger] lvl.orders@[k]).order_id != id,
            found ==> fidx < j <= lvl.orders@.len()
                && lvl.orders@[fidx as int].order_id == id,
        decreases lvl.orders@.len() - j + (if found { 0int } else { 1int }),
    {
        if lvl.orders[j].order_id == id {
            found = true;
            fidx = j;
        }
        j = j + 1;
    }
    if !found {
        levels.insert(li, lvl);
        proof {
            assert(levels@ =~= olds);
            assert forall|i: int|
                0 <= i < olds.len() && (#[trigger] olds[i]).price == price
                    implies !level_has_id(olds[i], id)
            by {
                assert(i == li as int) by {
                    if i != li as int {
                        assert(olds[i].price != olds[li as int].price);
                    }
                }
            }
            assert(!side_has_order(olds, price, id));
        }
        return false;
    }
    let _cancelled = lvl.orders.remove(fidx);
    let ghost newlvl = lvl;
    let ghost fi = fidx as int;
    let ghost lio = li as int;
    proof {
        // the cancelled id rests only at position (li, fidx) on this side
        assert forall|i: int, k: int|
            0 <= i < olds.len() && 0 <= k < olds[i].orders@.len()
                && (#[trigger] olds[i].orders@[k]).order_id == id
                implies i == lio && k == fi
        by {
            assert(old(levels)@[i].orders@[k].order_id == id);
            assert(old(levels)@[i].price == price);
            assert(olds[i].price == price);
            assert(olds[lio].price == price);
            assert(olds[lio].orders@[fi].order_id == id);
            if i < lio {
                assert(olds[i].price < olds[lio].price);
            }
            if i > lio {
                assert(olds[lio].price < olds[i].price);
            }
            if i == lio && k < fi {
                assert(olds[lio].orders@[k].order_id != olds[lio].orders@[fi].order_id);
            }
            if i == lio && k > fi {
                assert(olds[lio].orders@[fi].order_id != olds[lio].orders@[k].order_id);
            }
        }
    }
    if lvl.orders.len() > 0 {
        levels.insert(li, lvl);
        proof {
            assert(levels@ =~= olds.update(lio, newlvl));
            assert(newlvl.orders@ == oldorders.remove(fi));
            assert(cancelled_from(olds, levels@, price, id)) by {
                assert(0 <= lio < olds.len() && 0 <= fi < olds[lio].orders@.len()
                    && olds[lio].price == price && olds[lio].orders@[fi].order_id == id
                    && olds[lio].orders@.len() != 1
                    && levels@.len() == olds.len()
                    && levels@[lio].price == olds[lio].price
                    && levels@[lio].orders@ == olds[lio].orders@.remove(fi)
                    && forall|k: int| 0 <= k < levels@.len() && k != lio ==> levels@[k] == olds[k]);
            }
            lemma_removed_side_facts(olds, levels@, lio, fi, id, side);
            assert forall|i2: int, j2: int|
                0 <= i2 < levels@.len() && 0 <= j2 < levels@[i2].orders@.len()
                    implies exists|i1: int, j1: int|
                        0 <= i1 < old(levels)@.len() && 0 <= j1 < old(levels)@[i1].orders@.len()
                        && old(levels)@[i1].orders@[j1] == (#[trigger] levels@[i2].orders@[j2])
                        && old(levels)@[i1].price == levels@[i2].price
            by {
                if i2 == lio {
                    let j1 = if j2 < fi { j2 } else { j2 + 1 };
                    assert(old(levels)@[lio].orders@[j1] == levels@[i2].orders@[j2]
                        && old(levels)@[lio].price == levels@[i2].price);
                } else {
                    assert(old(levels)@[i2].orders@[j2] == levels@[i2].orders@[j2]
                        && old(levels)@[i2].price == levels@[i2].price);
                }
            }
        }
        true
    } else {
        proof {
            assert(oldorders.len() == 1);
            assert(levels@ =~= olds.remove(lio));
            assert(cancelled_from(olds, levels@, price, id)) by {
                assert(0 <= lio < olds.len() && 0 <= fi < olds[lio].orders@.len()
                    && olds[lio].price == price && olds[lio].orders@[fi].order_id == id
                    && olds[lio].orders@.len() == 1 && levels@ == olds.remove(lio));
            }
            lemma_removed_level_facts(olds, levels@, lio, id, side);
            assert forall|i2: int, j2: int|
                0 <= i2 < levels@.len() && 0 <= j2 < levels@[i2].orders@.len()
                    implies exists|i1: int, j1: int|
                        0 <= i1 < old(levels)@.len() && 0 <= j1 < old(levels)@[i1].orders@.len()
                        && old(levels)@[i1].orders@[j1] == (#[trigger] levels@[i2].orders@[j2])
                        && old(levels)@[i1].price == levels@[i2].price
            by {
                let i1 = if i2 < lio { i2 } else { i2 + 1 };
                assert(old(levels)@[i1].orders@[j2] == levels@[i2].orders@[j2]
                    && old(levels)@[i1].price == levels@[i2].price);
            }
        }
        true
    }
}

/// Facts after one order is cancelled out of a level that keeps other
/// orders: the side stays well formed, ids stay unique, membership of every
/// other id is unchanged, and every surviving order sat on the side before.
#[verifier::rlimit(50)]
#[verifier::spinoff_prover]
proof fn lemma_removed_side_facts(
    olds: Seq<PriceLevel>,
    news: Seq<PriceLevel>,
    li: int,
    fi: int,
    id: u64,
    side: Side,
)
    requires
        side_wf(olds, side),
        side_ids_unique(olds),
        0 <= li < olds.len(),
        0 <= fi < olds[li].orders@.len(),
        olds[li].orders@[fi].order_id == id,
        olds[li].orders@.len() > 1,
        news.len() == olds.len(),
        news[li].price == olds[li].price,
        news[li].orders@ == olds[li].orders@.remove(fi),
        forall|k: int| 0 <= k < news.len() && k != li ==> news[k] == olds[k],
        forall|i: int, k: int|
            0 <= i < olds.len() && 0 <= k < olds[i].orders@.len()
                && (#[trigger] olds[i].orders@[k]).order_id == id ==> i == li && k == fi,
    ensures
        side_wf(news, side),
        side_ids_unique(news),
        !side_has_id(news, id),
        forall|oid: u64| oid != id ==> (side_has_id(news, oid) <==> side_has_id(olds, oid)),
        forall|i2: int, j2: int|
            0 <= i2 < news.len() && 0 <= j2 < news[i2].orders@.len()
                ==> exists|i1: int, j1: int|
                    0 <= i1 < olds.len() && 0 <= j1 < olds[i1].orders@.len()
                    && olds[i1].orders@[j1] == (#[trigger] news[i2].orders@[j2])
                    && olds[i1].price == news[i2].price,
        news.len() > 0 ==> news[0].price >= olds[0].price
            && news.last().price <= olds.last().price,
{
    let back = |k: int| if k < fi { k } else { k + 1 };
    assert forall|i2: int, j2: int|
        0 <= i2 < news.len() && 0 <= j2 < news[i2].orders@.len()
            implies exists|i1: int, j1: int|
                0 <= i1 < olds.len() && 0 <= j1 < olds[i1].orders@.len()
                && olds[i1].orders@[j1] == (#[trigger] news[i2].orders@[j2])
                && olds[i1].price == news[i2].price
    by {
        if i2 == li {
            let j1 = if j2 < fi { j2 } else { j2 + 1 };
            assert(olds[li].orders@[j1] == news[i2].orders@[j2]
                && olds[li].price == news[i2].price);
        } else {
            assert(olds[i2].orders@[j2] == news[i2].orders@[j2]
                && olds[i2].price == news[i2].price);
        }
    }
    assert forall|i2: int, j2: int|
        0 <= i2 < news.len() && 0 <= j2 < news[i2].orders@.len()
            implies (#[trigger] news[i2].orders@[j2]).order_id != id
    by {
        if i2 == li {
            let j1 = if j2 < fi { j2 } else { j2 + 1 };
            assert(news[i2].orders@[j2] == olds[li].orders@[j1] && j1 != fi);
        }
    }
    assert(!side_has_id(news, id)) by {
        if side_has_id(news, id) {
            let i = choose|i: int| 0 <= i < news.len() && level_has_id(news[i], id);
            let j = choose|j: int|
                0 <= j < news[i].orders@.len() && news[i].orders@[j].order_id == id;
            assert(news[i].orders@[j].order_id != id);
        }
    }
    assert forall|oid: u64|
        oid != id implies (side_has_id(news, oid) <==> side_has_id(olds, oid))
    by {
        if side_has_id(olds, oid) {
            let i = choose|i: int| 0 <= i < olds.len() && level_has_id(olds[i], oid);
            let j = choose|j: int|
                0 <= j < olds[i].orders@.len() && olds[i].orders@[j].order_id == oid;
            if i == li {
                let j2 = if j < fi { j } else { j - 1 };
                assert(j != fi);
                assert(news[li].orders@[j2].order_id == oid);
                assert(level_has_id(news[li], oid));
            } else {
                assert(news[i].orders@[j].order_id == oid);
                assert(level_has_id(news[i], oid));
            }
        }
        if side_has_id(news, oid) {
            let i = choose|i: int| 0 <= i < news.len() && level_has_id(news[i], oid);
            let j = choose|j: int|
                0 <= j < news[i].orders@.len() && news[i].orders@[j].order_id == oid;
            if i == li {
                let j1 = if j < fi { j } else { j + 1 };
                assert(olds[li].orders@[j1].order_id == oid);
                assert(level_has_id(olds[li], oid));
            } else {
                assert(olds[i].orders@[j].order_id == oid);
                assert(level_has_id(olds[i], oid));
            }
        }
    }
    assert forall|i: int, j1: int, j2: int|
        0 <= i < news.len() && 0 <= j1 < j2 < news[i].orders@.len()
            implies (#[trigger] news[i].orders@[j1]).order_id
                != (#[trigger] news[i].orders@[j2]).order_id
    by {
        if i == li {
            let k1 = if j1 < fi { j1 } else { j1 + 1 };
            let k2 = if j2 < fi { j2 } else { j2 + 1 };
            assert(news[i].orders@[j1] == olds[li].orders@[k1]);
            assert(news[i].orders@[j2] == olds[li].orders@[k2]);
        }
    }
}

/// Facts after a whole level is pruned because its only order was cancelled.
#[verifier::rlimit(50)]
#[verifier::spinoff_prover]
proof fn lemma_removed_level_facts(
    olds: Seq<PriceLevel>,
    news: Seq<PriceLevel>,
    li: int,
    id: u64,
    side: Side,
)
    requires
        side_wf(olds, side),
        side_ids_unique(olds),
        0 <= li < olds.len(),
        olds[li].orders@.len() == 1,
        olds[li].orders@[0].order_id == id,
        news == olds.remove(li),
        forall|i: int, k: int|
            0 <= i < olds.len() && 0 <= k < olds[i].orders@.len()
                && (#[trigger] olds[i].orders@[k]).order_id == id ==> i == li && k == 0,
    ensures
        side_wf(news, side),
        side_ids_unique(news),
        !side_has_id(news, id),
        forall|oid: u64| oid != id ==> (side_has_id(news, oid) <==> side_has_id(olds, oid)),
        forall|i2: int, j2: int|
            0 <= i2 < news.len() && 0 <= j2 < news[i2].orders@.len()
                ==> exists|i1: int, j1: int|
                    0 <= i1 < olds.len() && 0 <= j1 < olds[i1].orders@.len()
                    && olds[i1].orders@[j1] == (#[trigger] news[i2].orders@[j2])
                    && olds[i1].price == news[i2].price,
        news.len() > 0 ==> news[0].price >= olds[0].price
            && news.last().price <= olds.last().price,
{
    assert forall|i2: int, j2: int|
        0 <= i2 < news.len() && 0 <= j2 < news[i2].orders@.len()
            implies exists|i1: int, j1: int|
                0 <= i1 < olds.len() && 0 <= j1 < olds[i1].orders@.len()
                && olds[i1].orders@[j1] == (#[trigger] news[i2].orders@[j2])
                && olds[i1].price == news[i2].price
    by {
        let i1 = if i2 < li { i2 } else { i2 + 1 };
        assert(olds[i1].orders@[j2] == news[i2].orders@[j2]
            && olds[i1].price == news[i2].price);
    }
    assert(!side_has_id(news, id)) by {
        if side_has_id(news, id) {
            let i = choose|i: int| 0 <= i < news.len() && level_has_id(news[i], id);
            let j = choose|j: int|
                0 <= j < news[i].orders@.len() && news[i].orders@[j].order_id == id;
            let i1 = if i < li { i } else { i + 1 };
            assert(olds[i1].orders@[j].order_id == id);
        }
    }
    assert forall|oid: u64|
        oid != id implies (side_has_id(news, oid) <==> side_has_id(olds, oid))
    by {
        if side_has_id(olds, oid) {
            let i = choose|i: int| 0 <= i < olds.len() && level_has_id(olds[i], oid);
            let j = choose|j: int|
                0 <= j < olds[i].orders@.len() && olds[i].orders@[j].order_id == oid;
            assert(i != li) by {
                if i == li {
                    assert(olds[li].orders@[j].order_id == oid && j == 0);
                }
            }
            let i2 = if i < li { i } else { i - 1 };
            assert(news[i2].orders@[j].order_id == oid);
            assert(level_has_id(news[i2], oid));
        }
        if side_has_id(news, oid) {
            let i = choose|i: int| 0 <= i < news.len() && level_has_id(news[i], oid);
            let j = choose|j: int|
                0 <= j < news[i].orders@.len() && news[i].orders@[j].order_id == oid;
            let i1 = if i < li { i } else { i + 1 };
            assert(olds[i1].orders@[j].order_id == oid);
            assert(level_has_id(olds[i1], oid));
        }
    }
    assert(side_sorted(news)) by {
        assert forall|a: int, b: int|
            0 <= a < b < news.len()
                implies (#[trigger] news[a].price) < (#[trigger] news[b].price)
        by {
            let a1 = if a < li { a } else { a + 1 };
            let b1 = if b < li { b } else { b + 1 };
            assert(news[a] == olds[a1] && news[b] == olds[b1]);
        }
    }
    if news.len() > 0 {
        assert(news[0] == if 0 < li { olds[0] } else { olds[1] });
        assert(news.last() == if news.len() - 1 < li { olds[news.len() - 1] } else { olds[news.len() as int] });
    }
}

impl SymbolBook {
    /// The id is registered in the book's index.
    pub open spec fn contains_order(&self, id: u64) -> bool {
        self.order_lookup@.contains_key(id)
    }

    /// Every index entry is backed by a resting order on the side it names.
    pub open spec fn index_backed(&self) -> bool {
        forall|id: u64| #[trigger]
            self.order_lookup@.contains_key(id) ==> {
                if self.order_lookup@[id].0 == Side::Buy {
                    side_has_id(self.bids@, id)
                } else {
                    side_has_id(self.asks@, id)
                }
            }
    }

    /// The index and the book are mutually consistent: each resting order has
    /// exactly one index entry naming its side and level price, each index
    /// entry points at a resting order, and no level holds an id twice.
    pub open spec fn index_wf(&self) -> bool {
        &&& side_index_sync(self.bids@, self.order_lookup@, Side::Buy)
        &&& side_index_sync(self.asks@, self.order_lookup@, Side::Sell)
        &&& self.index_backed()
        &&& side_ids_unique(self.bids@)
        &&& side_ids_unique(self.asks@)
    }

    /// The best (highest) bid price, meaningful when bids exist.
    pub open spec fn best_bid_price(&self) -> u64 {
        self.bids@.last().price
    }

    /// The best (lowest) ask price, meaningful when asks exist.
    pub open spec fn best_ask_price(&self) -> u64 {
        self.asks@[0].price
    }

    /// When both sides are non-empty, the best bid is strictly below the
    /// best ask: the book never rests a crossed market.
    pub open spec fn uncrossed(&self) -> bool {
        self.bids@.len() > 0 && self.asks@.len() > 0
            ==> self.best_bid_price() < self.best_ask_price()
    }

    /// The remaining quantity of the resting order with this id; zero when
    /// no such order rests in the book.
    pub open spec fn resting_qty(&self, id: u64) -> int {
        if side_has_id(self.bids@, id) {
            side_order_of(self.bids@, id).quantity as int
        } else if side_has_id(self.asks@, id) {
            side_order_of(self.asks@, id).quantity as int
        } else {
            0
        }
    }

    /// Full well-formedness of a book.
    pub open spec fn wf(&self) -> bool {
        &&& side_wf(self.bids@, Side::Buy)
        &&& side_wf(self.asks@, Side::Sell)
        &&& self.index_wf()
        &&& self.uncrossed()
    }

    /// An empty book: no levels on either side, an empty index.
    pub fn new() -> (b: SymbolBook)
        ensures
            b.wf(),
            b.bids@.len() == 0,
            b.asks@.len() == 0,
            b.order_lookup@ == Map::<u64, (Side, u64)>::empty(),
    {
        SymbolBook {
            bids: Vec::new(),
            asks: Vec::new(),
            order_lookup: HashMap::new(),
        }
    }

    /// Submits an incoming limit order: it crosses against the opposite
    /// side's levels in price-time priority (best price first, earliest
    /// arrival first within a level, each fill at the resting order's
    /// price), then any unmatched remainder rests on its own side. Returns
    /// the trades in execution order. Submission never fails: the order
    /// fully fills, partially fills and rests, or fully rests.
    ///
    /// The whole contract is `submit_relates`: conservation (trade
    /// quantities plus the resting remainder account for the whole order),
    /// each trade paired with its maker in consumption order at the maker's
    /// price, exact FIFO consumption of the opposite side touching only
    /// levels that cross, and matching stopping only when the order is
    /// exhausted or no crossing liquidity remains.
    #[verifier::rlimit(50)]
    #[verifier::spinoff_prover]
    pub fn process_order(&mut self, order: Order) -> (trades: Vec<Trade>)
        requires
            old(self).wf(),
            order.quantity > 0,
            !old(self).contains_order(order.order_id),
        ensures
            submit_relates(*old(self), *final(self), order, trades@),
    {
        let ghost oldbook = *self;
        match order.side {
            Side::Buy => {
                let (trades, remaining) = cross_asks(
                    &mut self.asks,
                    &mut self.order_lookup,
                    &order,
                );
                proof {
                    lemma_wf_after_cross_asks(oldbook, *self);
                }
                if remaining > 0 {
                    let residual = Order { quantity: remaining, ..order };
                    self.add_resting_order(residual);
                } else {
                    proof {
                        lemma_resting_qty_absent(*self, order.order_id);
                    }
                }
                trades
            },
            Side::Sell => {
                let (trades, remaining) = cross_bids(
                    &mut self.bids,
                    &mut self.order_lookup,
                    &order,
                );
                proof {
                    lemma_wf_after_cross_bids(oldbook, *self);
                }
                if remaining > 0 {
                    let residual = Order { quantity: remaining, ..order };
                    self.add_resting_order(residual);
                } else {
                    proof {
                        lemma_resting_qty_absent(*self, order.order_id);
                    }
                }
                trades
            },
        }
    }

    /// The best (highest) bid price, or nothing when no bids rest.
    pub fn best_bid(&self) -> (r: Option<u64>)
        ensures
            self.bids@.len() == 0 ==> r is None,
            self.bids@.len() > 0 ==> r == Some(self.best_bid_price()),
    {
        if self.bids.len() == 0 {
            None
        } else {
            Some(self.bids[self.bids.len() - 1].price)
        }
    }

    /// The best (lowest) ask price, or nothing when no asks rest.
    pub fn best_ask(&self) -> (r: Option<u64>)
        ensures
            self.asks@.len() == 0 ==> r is None,
            self.asks@.len() > 0 ==> r == Some(self.best_ask_price()),
    {
        if self.asks.len() == 0 {
            None
        } else {
            Some(self.asks[0].price)
        }
    }

    /// Cancels the resting order with this id, if the index knows it: the
    /// order leaves its price level, the level is pruned when it empties,
    /// and the index entry goes away. Returns whether an order was removed;
    /// an unknown id is a negative result, not a fault, and the book is
    /// left untouched. A second cancel of the same id therefore always
    /// reports not-found.
    #[verifier::rlimit(50)]
    #[verifier::spinoff_prover]
    pub fn cancel_order(&mut self, order_id: u64) -> (removed: bool)
        requires
            old(self).wf(),
        ensures
            cancel_relates(*old(self), *final(self), order_id, removed),
    {
        let ghost oldbook = *self;
        let entry = self.order_lookup.remove(&order_id);
        proof {
            assert(self.order_lookup@ == oldbook.order_lookup@.remove(order_id));
        }
        match entry {
            None => {
                proof {
                    assert(self.order_lookup@ =~= oldbook.order_lookup@);
                }
                false
            },
            Some((side, price)) => {
                proof {
                    // on the order's own side, its id rests only at `price`
                    assert forall|i: int, j: int|
                        0 <= i < oldbook.bids@.len() && 0 <= j < oldbook.bids@[i].orders@.len()
                            && (#[trigger] oldbook.bids@[i].orders@[j]).order_id == order_id
                            implies oldbook.bids@[i].price == price
                    by {
                        assert(oldbook.order_lookup@[order_id]
                            == (Side::Buy, oldbook.bids@[i].price));
                    }
                    assert forall|i: int, j: int|
                        0 <= i < oldbook.asks@.len() && 0 <= j < oldbook.asks@[i].orders@.len()
                            && (#[trigger] oldbook.asks@[i].orders@[j]).order_id == order_id
                            implies oldbook.asks@[i].price == price
                    by {
                        assert(oldbook.order_lookup@[order_id]
                            == (Side::Sell, oldbook.asks@[i].price));
                    }
                    // the index entry is backed, so the scan will find it
                    if side == Side::Buy {
                        let i = choose|i: int|
                            0 <= i < oldbook.bids@.len() && level_has_id(
                                #[trigger] oldbook.bids@[i],
                                order_id,
                            );
                        let j = choose|j: int|
                            0 <= j < oldbook.bids@[i].orders@.len()
                                && oldbook.bids@[i].orders@[j].order_id == order_id;
                        assert(oldbook.bids@[i].price == price);
                        assert(side_has_order(oldbook.bids@, price, order_id));
                    } else {
                        let i = choose|i: int|
                            0 <= i < oldbook.asks@.len() && level_has_id(
                                #[trigger] oldbook.asks@[i],
                                order_id,
                            );
                        let j = choose|j: int|
                            0 <= j < oldbook.asks@[i].orders@.len()
                                && oldbook.asks@[i].orders@[j].order_id == order_id;
                        assert(oldbook.asks@[i].price == price);
                        assert(side_has_order(oldbook.asks@, price, order_id));
                    }
                }
                match side {
                    Side::Buy => {
                        let r = remove_from_side(
                            &mut self.bids,
                            price,
                            order_id,
                            Ghost(Side::Buy),
                        );
                        proof {
                            lemma_after_cancel(
                                oldbook,
                                *self,
                                order_id,
                                Side::Buy,
                                oldbook.bids@,
                                self.bids@,
                                oldbook.asks@,
                                Side::Sell,
                            );
                        }
                        r
                    },
                    Side::Sell => {
                        let r = remove_from_side(
                            &mut self.asks,
                            price,
                            order_id,
                            Ghost(Side::Sell),
                        );
                        proof {
                            lemma_after_cancel(
                                oldbook,
                                *self,
                                order_id,
                                Side::Sell,
                                oldbook.asks@,
                                self.asks@,
                                oldbook.bids@,
                                Side::Buy,
                            );
                        }
                        r
                    },
                }
            },
        }
    }

    /// Rests an order that did not (or did not fully) match: it joins the
    /// back of the level at its price on its own side, and the index gains
    /// its entry. The order must not cross the opposite side's best price:
    /// crossing quantity is matched, never rested.
    #[verifier::rlimit(50)]
    #[verifier::spinoff_prover]
    pub fn add_resting_order(&mut self, order: Order)
        requires
            old(self).wf(),
            order.quantity > 0,
            !old(self).contains_order(order.order_id),
            order.side == Side::Buy && old(self).asks@.len() > 0
                ==> order.price < old(self).best_ask_price(),
            order.side == Side::Sell && old(self).bids@.len() > 0
                ==> order.price > old(self).best_bid_price(),
        ensures
            final(self).wf(),
            final(self).order_lookup@
                == old(self).order_lookup@.insert(order.order_id, (order.side, order.price)),
            order.side == Side::Buy ==> rested_in(old(self).bids@, final(self).bids@, order)
                && final(self).asks@ == old(self).asks@,
            order.side == Side::Sell ==> rested_in(old(self).asks@, final(self).asks@, order)
                && final(self).bids@ == old(self).bids@,
            final(self).resting_qty(order.order_id) == order.quantity,
    {
        let ghost oldbook = *self;
        let price = order.price;
        let side = order.side;
        let order_id = order.order_id;
        proof {
            lemma_absent_id_not_on_side(
                oldbook.bids@,
                oldbook.order_lookup@,
                Side::Buy,
                order.order_id,
            );
            lemma_absent_id_not_on_side(
                oldbook.asks@,
                oldbook.order_lookup@,
                Side::Sell,
                order.order_id,
            );
        }
        self.order_lookup.insert(order_id, (side, price));
        match side {
            Side::Buy => {
                let at = insert_order_into_side(&mut self.bids, order);
                proof {
                    lemma_rested_side_sync(
                        oldbook.bids@,
                        self.bids@,
                        oldbook.order_lookup@,
                        self.order_lookup@,
                        order,
                    );
                    lemma_unchanged_side_sync(
                        self.asks@,
                        oldbook.order_lookup@,
                        self.order_lookup@,
                        Side::Sell,
                        order.order_id,
                        (order.side, order.price),
                    );
                    assert forall|id: u64| #[trigger]
                        self.order_lookup@.contains_key(id) implies {
                        if self.order_lookup@[id].0 == Side::Buy {
                            side_has_id(self.bids@, id)
                        } else {
                            side_has_id(self.asks@, id)
                        }
                    } by {
                        if id != order.order_id {
                            assert(oldbook.order_lookup@.contains_key(id));
                        }
                    }
                    assert(self.uncrossed());
                    lemma_resting_qty_at(
                        *self,
                        order.order_id,
                        Side::Buy,
                        at as int,
                        self.bids@[at as int].orders@.len() - 1,
                    );
                }
            },
            Side::Sell => {
                let at = insert_order_into_side(&mut self.asks, order);
                proof {
                    lemma_rested_side_sync(
                        oldbook.asks@,
                        self.asks@,
                        oldbook.order_lookup@,
                        self.order_lookup@,
                        order,
                    );
                    lemma_unchanged_side_sync(
                        self.bids@,
                        oldbook.order_lookup@,
                        self.order_lookup@,
                        Side::Buy,
                        order.order_id,
                        (order.side, order.price),
                    );
                    assert forall|id: u64| #[trigger]
                        self.order_lookup@.contains_key(id) implies {
                        if self.order_lookup@[id].0 == Side::Buy {
                            side_has_id(self.bids@, id)
                        } else {
                            side_has_id(self.asks@, id)
                        }
                    } by {
                        if id != order.order_id {
                            assert(oldbook.order_lookup@.contains_key(id));
                        }
                    }
                    assert(self.uncrossed());
                    lemma_resting_qty_at(
                        *self,
                        order.order_id,
                        Side::Sell,
                        at as int,
                        self.asks@[at as int].orders@.len() - 1,
                    );
                }
            },
        }
    }
}

/// After the order with the cancelled id is removed from one side and its
/// entry is dropped from the index, the whole book is well formed again.
#[verifier::rlimit(50)]
#[verifier::spinoff_prover]
proof fn lemma_after_cancel(
    pre: SymbolBook,
    post: SymbolBook,
    id: u64,
    side: Side,
    own_pre: Seq<PriceLevel>,
    own_post: Seq<PriceLevel>,
    other: Seq<PriceLevel>,
    other_side: Side,
)
    requires
        pre.wf(),
        pre.order_lookup@.contains_key(id),
        pre.order_lookup@[id].0 == side,
        side != other_side,
        own_pre == (if side == Side::Buy { pre.bids@ } else { pre.asks@ }),
        own_post == (if side == Side::Buy { post.bids@ } else { post.asks@ }),
        other == (if side == Side::Buy { pre.asks@ } else { pre.bids@ }),
        (if side == Side::Buy { post.asks@ } else { post.bids@ }) == other,
        post.order_lookup@ == pre.order_lookup@.remove(id),
        side_wf(own_post, side),
        side_ids_unique(own_post),
        !side_has_id(own_post, id),
        forall|oid: u64| oid != id ==> (side_has_id(own_post, oid) <==> side_has_id(own_pre, oid)),
        forall|i2: int, j2: int|
            0 <= i2 < own_post.len() && 0 <= j2 < own_post[i2].orders@.len()
                ==> exists|i1: int, j1: int|
                    0 <= i1 < own_pre.len() && 0 <= j1 < own_pre[i1].orders@.len()
                    && own_pre[i1].orders@[j1] == (#[trigger] own_post[i2].orders@[j2])
                    && own_pre[i1].price == own_post[i2].price,
        own_post.len() <= own_pre.len(),
        own_post.len() > 0 ==> own_post[0].price >= own_pre[0].price
            && own_post.last().price <= own_pre.last().price,
    ensures
        post.wf(),
{
    let m = pre.order_lookup@;
    let m2 = post.order_lookup@;
    assert(side_index_sync(own_pre, m, side));
    assert(side_index_sync(other, m, other_side));
    // the surviving side stays in sync with the shrunken index
    assert forall|i: int, j: int|
        0 <= i < own_post.len() && 0 <= j < own_post[i].orders@.len()
            implies {
                let oid = (#[trigger] own_post[i].orders@[j]).order_id;
                m2.contains_key(oid) && m2[oid] == (side, own_post[i].price)
            }
    by {
        let (i1, j1) = choose|i1: int, j1: int|
            0 <= i1 < own_pre.len() && 0 <= j1 < own_pre[i1].orders@.len()
                && own_pre[i1].orders@[j1] == own_post[i].orders@[j]
                && own_pre[i1].price == own_post[i].price;
        let oid = own_post[i].orders@[j].order_id;
        assert(m.contains_key(oid) && m[oid] == (side, own_pre[i1].price));
        assert(oid != id) by {
            if oid == id {
                assert(level_has_id(own_post[i], id));
                assert(side_has_id(own_post, id));
            }
        }
    }
    // the untouched side never held the cancelled id, so it stays in sync
    assert forall|i: int, j: int|
        0 <= i < other.len() && 0 <= j < other[i].orders@.len()
            implies {
                let oid = (#[trigger] other[i].orders@[j]).order_id;
                m2.contains_key(oid) && m2[oid] == (other_side, other[i].price)
            }
    by {
        assert(side_index_sync(other, m, other_side));
        let o = other[i].orders@[j];
        assert(m.contains_key(o.order_id) && m[o.order_id] == (other_side, other[i].price));
        let oid = other[i].orders@[j].order_id;
        assert(m.contains_key(oid) && m[oid] == (other_side, other[i].price));
        assert(oid != id);
    }
    // every surviving index entry is still backed
    assert forall|oid: u64| #[trigger] m2.contains_key(oid) implies {
        if m2[oid].0 == Side::Buy {
            side_has_id(post.bids@, oid)
        } else {
            side_has_id(post.asks@, oid)
        }
    } by {
        assert(m.contains_key(oid) && m[oid] == m2[oid] && oid != id);
        if m[oid].0 == side {
            assert(side_has_id(own_pre, oid));
            assert(side_has_id(own_post, oid));
        } else {
            assert(side_has_id(other, oid));
        }
    }
    assert(post.uncrossed());
}

/// After an order rests on one side and its entry is added to the index,
/// the changed side is in sync with the updated index.
proof fn lemma_rested_side_sync(
    own_pre: Seq<PriceLevel>,
    own_post: Seq<PriceLevel>,
    m_pre: Map<u64, (Side, u64)>,
    m_post: Map<u64, (Side, u64)>,
    order: Order,
)
    requires
        side_index_sync(own_pre, m_pre, order.side),
        forall|i: int, j: int|
            0 <= i < own_pre.len() && 0 <= j < own_pre[i].orders@.len()
                ==> (#[trigger] own_pre[i].orders@[j]).order_id != order.order_id,
        m_post == m_pre.insert(order.order_id, (order.side, order.price)),
        forall|i2: int, j2: int|
            0 <= i2 < own_post.len() && 0 <= j2 < own_post[i2].orders@.len()
                ==> ((#[trigger] own_post[i2].orders@[j2]) == order
                        && own_post[i2].price == order.price)
                    || (exists|i1: int, j1: int|
                            0 <= i1 < own_pre.len() && 0 <= j1 < own_pre[i1].orders@.len()
                            && own_pre[i1].orders@[j1] == own_post[i2].orders@[j2]
                            && own_pre[i1].price == own_post[i2].price),
    ensures
        side_index_sync(own_post, m_post, order.side),
{
    assert forall|i: int, j: int|
        0 <= i < own_post.len() && 0 <= j < own_post[i].orders@.len()
            implies {
                let id = (#[trigger] own_post[i].orders@[j]).order_id;
                m_post.contains_key(id) && m_post[id] == (order.side, own_post[i].price)
            }
    by {
        if own_post[i].orders@[j] == order && own_post[i].price == order.price {
            assert(m_post.contains_key(order.order_id));
        } else {
            let (i1, j1) = choose|i1: int, j1: int|
                0 <= i1 < own_pre.len() && 0 <= j1 < own_pre[i1].orders@.len()
                    && own_pre[i1].orders@[j1] == own_post[i].orders@[j]
                    && own_pre[i1].price == own_post[i].price;
            assert(own_pre[i1].orders@[j1].order_id != order.order_id);
            assert(m_pre.contains_key(own_pre[i1].orders@[j1].order_id));
        }
    }
}

/// A side that did not change stays in sync after an entry for an id that
/// rests nowhere on it is added to the index.
proof fn lemma_unchanged_side_sync(
    s: Seq<PriceLevel>,
    m_pre: Map<u64, (Side, u64)>,
    m_post: Map<u64, (Side, u64)>,
    side: Side,
    new_id: u64,
    entry: (Side, u64),
)
    requires
        side_index_sync(s, m_pre, side),
        forall|i: int, j: int|
            0 <= i < s.len() && 0 <= j < s[i].orders@.len()
                ==> (#[trigger] s[i].orders@[j]).order_id != new_id,
        m_post == m_pre.insert(new_id, entry),
    ensures
        side_index_sync(s, m_post, side),
{
    assert forall|i: int, j: int|
        0 <= i < s.len() && 0 <= j < s[i].orders@.len()
            implies {
                let id = (#[trigger] s[i].orders@[j]).order_id;
                m_post.contains_key(id) && m_post[id] == (side, s[i].price)
            }
    by {
        assert(s[i].orders@[j].order_id != new_id);
    }
}

/// Under a consistent index, an id that the index does not know rests
/// nowhere on the given side.
proof fn lemma_absent_id_not_on_side(
    s: Seq<PriceLevel>,
    m: Map<u64, (Side, u64)>,
    side: Side,
    id: u64,
)
    requires
        side_index_sync(s, m, side),
        !m.contains_key(id),
    ensures
        forall|i: int, j: int|
            0 <= i < s.len() && 0 <= j < s[i].orders@.len()
                ==> (#[trigger] s[i].orders@[j]).order_id != id,
{
    assert forall|i: int, j: int|
        0 <= i < s.len() && 0 <= j < s[i].orders@.len()
            implies (#[trigger] s[i].orders@[j]).order_id != id
    by {
        if s[i].orders@[j].order_id == id {
            assert(m.contains_key(id));
        }
    }
}

} // verus!
