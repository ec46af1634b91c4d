use vstd::prelude::*;
use crate::book::SymbolBook;
use crate::book::{cancel_relates, rested_in, submit_relates, trade_for, trades_total, PriceLevel};
use crate::order::{Order, Side, Trade};

verus! {

/// One symbol's book together with the symbol it serves.
pub struct BookEntry {
    pub symbol: String,
    pub book: SymbolBook,
}

/// Routes orders to one book per symbol and accumulates the global trade
/// history across all submissions. Books for different symbols are fully
/// independent.
pub struct MatchingEngine {
    pub books: Vec<BookEntry>,
    pub trades: Vec<Trade>,
}

/// The engine has some book serving this symbol.
pub open spec fn engine_has_book(books: Seq<BookEntry>, sym: Seq<char>) -> bool {
    exists|i: int| 0 <= i < books.len() && (#[trigger] books[i]).symbol@ == sym
}

/// The index of the book serving this symbol (meaningful when
/// `engine_has_book` holds and symbols are distinct).
pub open spec fn engine_book_index(books: Seq<BookEntry>, sym: Seq<char>) -> int {
    choose|i: int| 0 <= i < books.len() && (#[trigger] books[i]).symbol@ == sym
}

impl MatchingEngine {
    /// No two entries serve the same symbol, and every book is well formed.
    pub open spec fn wf(&self) -> bool {
        &&& forall|i: int, j: int|
            0 <= i < j < self.books@.len()
                ==> (#[trigger] self.books@[i].symbol@) != (#[trigger] self.books@[j].symbol@)
        &&& forall|i: int| 0 <= i < self.books@.len() ==> (#[trigger] self.books@[i]).book.wf()
    }

    /// The engine has a book serving this symbol.
    pub open spec fn has_book(&self, sym: Seq<char>) -> bool {
        engine_has_book(self.books@, sym)
    }

    /// The book serving this symbol.
    pub open spec fn book_at(&self, sym: Seq<char>) -> SymbolBook {
        self.books@[engine_book_index(self.books@, sym)].book
    }

    /// An engine with no books and no trade history.
    pub fn new() -> (e: MatchingEngine)
        ensures
            e.wf(),
            e.books@.len() == 0,
            e.trades@.len() == 0,
    {
        MatchingEngine { books: Vec::new(), trades: Vec::new() }
    }
}

/// With distinct symbols, a position serving a symbol is the position the
/// engine's book lookup denotes.
pub proof fn lemma_book_at_position(books: Seq<BookEntry>, sym: Seq<char>, i: int)
    requires
        forall|i1: int, j1: int|
            0 <= i1 < j1 < books.len()
                ==> (#[trigger] books[i1].symbol@) != (#[trigger] books[j1].symbol@),
        0 <= i < books.len(),
        books[i].symbol@ == sym,
    ensures
        engine_has_book(books, sym),
        engine_book_index(books, sym) == i,
{
    assert(engine_has_book(books, sym));
    let i2 = engine_book_index(books, sym);
    assert(0 <= i2 < books.len() && books[i2].symbol@ == sym);
    if i2 < i {
        assert(books[i2].symbol@ != books[i].symbol@);
    }
    if i2 > i {
        assert(books[i].symbol@ != books[i2].symbol@);
    }
}

impl MatchingEngine {
    /// Index of the book serving this symbol, if one exists.
    fn find_book(&self, symbol: &String) -> (r: Option<usize>)
        requires
            self.wf(),
        ensures
            match r {
                Some(i) => i < self.books@.len() && self.books@[i as int].symbol@ == symbol@
                    && self.has_book(symbol@)
                    && engine_book_index(self.books@, symbol@) == i,
                None => !self.has_book(symbol@),
            },
    {
        let mut i: usize = 0;
        while i < self.books.len()
            invariant
                self.wf(),
                0 <= i <= self.books@.len(),
                forall|k: int| 0 <= k < i ==> (#[trigger] self.books@[k].symbol@) != symbol@,
            decreases self.books@.len() - i,
        {
            if self.books[i].symbol == *symbol {
                proof {
                    lemma_book_at_position(self.books@, symbol@, i as int);
                }
                return Some(i);
            }
            i = i + 1;
        }
        proof {
            if self.has_book(symbol@) {
                let k = choose|k: int|
                    0 <= k < self.books@.len() && (#[trigger] self.books@[k]).symbol@ == symbol@;
                assert(self.books@[k].symbol@ != symbol@);
            }
        }
        None
    }

    /// Index of the book serving this symbol, creating an empty book for it
    /// first when none exists yet.
    fn get_or_create_book(&mut self, symbol: &String) -> (i: usize)
        requires
            old(self).wf(),
        ensures
            final(self).wf(),
            i < final(self).books@.len(),
            final(self).books@[i as int].symbol@ == symbol@,
            engine_book_index(final(self).books@, symbol@) == i,
            final(self).trades@ == old(self).trades@,
            old(self).has_book(symbol@) ==> final(self).books@ == old(self).books@
                && i == engine_book_index(old(self).books@, symbol@),
            !old(self).has_book(symbol@) ==> final(self).books@.len() == old(self).books@.len()
                + 1 && i == old(self).books@.len()
                && (forall|k: int|
                    0 <= k < old(self).books@.len() ==> final(self).books@[k]
                        == old(self).books@[k]) && final(self).books@[i as int].book.bids@.len()
                == 0 && final(self).books@[i as int].book.asks@.len() == 0
                && final(self).books@[i as int].book.order_lookup@
                == Map::<u64, (crate::order::Side, u64)>::empty(),
    {
        let found = self.find_book(symbol);
        match found {
            Some(i) => i,
            None => {
                let i = self.books.len();
                let entry = BookEntry { symbol: symbol.clone(), book: SymbolBook::new() };
                self.books.push(entry);
                proof {
                    assert forall|i1: int, j1: int|
                        0 <= i1 < j1 < self.books@.len()
                            implies (#[trigger] self.books@[i1].symbol@)
                                != (#[trigger] self.books@[j1].symbol@)
                    by {
                        if j1 < i {
                            assert(old(self).books@[i1].symbol@ != old(self).books@[j1].symbol@);
                        } else {
                            assert(old(self).books@[i1].symbol@ != symbol@);
                        }
                    }
                    lemma_book_at_position(self.books@, symbol@, i as int);
                }
                i
            },
        }
    }

    /// Submits an order to its symbol's book (creating the book on first
    /// use), appends the resulting trades to the global history, and returns
    /// them in execution order.
    pub fn add_order(&mut self, order: Order) -> (trades: Vec<Trade>)
        requires
            old(self).wf(),
            order.quantity > 0,
            old(self).has_book(order.symbol@) ==> !old(self).book_at(
                order.symbol@,
            ).contains_order(order.order_id),
        ensures
            final(self).wf(),
            final(self).trades@ == old(self).trades@ + trades@,
            forall|k: int| 0 <= k < trades@.len() ==> trade_for(#[trigger] trades@[k], order),
            trades_total(trades@) <= order.quantity,
            final(self).has_book(order.symbol@),
            trades_total(trades@) + final(self).book_at(order.symbol@).resting_qty(
                order.order_id,
            ) == order.quantity,
            forall|sym: Seq<char>|
                sym != order.symbol@ ==> ((final(self).has_book(sym) <==> old(self).has_book(sym))
                    && (old(self).has_book(sym) ==> final(self).book_at(sym) == old(self).book_at(
                    sym,
                ))),
            old(self).has_book(order.symbol@) ==> submit_relates(
                old(self).book_at(order.symbol@),
                final(self).book_at(order.symbol@),
                order,
                trades@,
            ),
            !old(self).has_book(order.symbol@) ==> trades@.len() == 0
                && final(self).books@.len() == old(self).books@.len() + 1 && ({
                let post = final(self).book_at(order.symbol@);
                &&& post.order_lookup@ == Map::<u64, (Side, u64)>::empty().insert(
                    order.order_id,
                    (order.side, order.price),
                )
                &&& (order.side == Side::Buy ==> post.asks@.len() == 0 && rested_in(
                    Seq::<PriceLevel>::empty(),
                    post.bids@,
                    order,
                ))
                &&& (order.side == Side::Sell ==> post.bids@.len() == 0 && rested_in(
                    Seq::<PriceLevel>::empty(),
                    post.asks@,
                    order,
                ))
            }),
    {
        let ghost olde = *self;
        let symbol = order.symbol.clone();
        let i = self.get_or_create_book(&symbol);
        let ghost mide = *self;
        let mut entry = self.books.remove(i);
        let new_trades = entry.book.process_order(order);
        self.books.insert(i, entry);
        proof {
            assert(self.books@ =~= mide.books@.update(i as int, self.books@[i as int]));
            assert(self.books@[i as int].symbol@ == symbol@);
            assert forall|i1: int, j1: int|
                0 <= i1 < j1 < self.books@.len()
                    implies (#[trigger] self.books@[i1].symbol@)
                        != (#[trigger] self.books@[j1].symbol@)
            by {
                assert(self.books@[i1].symbol@ == mide.books@[i1].symbol@);
                assert(self.books@[j1].symbol@ == mide.books@[j1].symbol@);
            }
            lemma_book_at_position(self.books@, symbol@, i as int);
            assert forall|sym: Seq<char>|
                sym != order.symbol@ implies ((self.has_book(sym) <==> olde.has_book(sym)) && (
            olde.has_book(sym) ==> self.book_at(sym) == olde.book_at(sym)))
            by {
                if olde.has_book(sym) {
                    let k = choose|k: int|
                        0 <= k < olde.books@.len() && (#[trigger] olde.books@[k]).symbol@ == sym;
                    assert(self.books@[k].symbol@ == sym);
                    assert(self.books@[k] == olde.books@[k]);
                    lemma_book_at_position(self.books@, sym, k);
                    lemma_book_at_position(olde.books@, sym, k);
                }
                if self.has_book(sym) {
                    let k = choose|k: int|
                        0 <= k < self.books@.len() && (#[trigger] self.books@[k]).symbol@ == sym;
                    assert(k != i);
                    assert(olde.books@[k].symbol@ == sym);
                }
            }
        }
        // append the new trades to the global history
        let ghost oldtrades = self.trades@;
        let ghost booksnap = self.books@;
        let mut k: usize = 0;
        while k < new_trades.len()
            invariant
                0 <= k <= new_trades@.len(),
                self.trades@ == oldtrades + new_trades@.subrange(0, k as int),
                self.books@ == booksnap,
            decreases new_trades@.len() - k,
        {
            let t = new_trades[k].clone();
            self.trades.push(t);
            proof {
                assert(self.trades@ =~= oldtrades + new_trades@.subrange(0, k + 1 as int));
            }
            k = k + 1;
        }
        proof {
            assert(new_trades@.subrange(0, new_trades@.len() as int) =~= new_trades@);
        }
        new_trades
    }

    /// Cancels an order in the book serving this symbol. Returns `None` when
    /// no book serves the symbol, otherwise whether an order was removed.
    pub fn cancel_order(&mut self, order_id: u64, symbol: &str) -> (r: Option<bool>)
        requires
            old(self).wf(),
        ensures
            final(self).wf(),
            final(self).trades@ == old(self).trades@,
            r is Some <==> old(self).has_book(symbol@),
            old(self).has_book(symbol@) ==> {
                let pre = old(self).book_at(symbol@);
                let post = final(self).book_at(symbol@);
                &&& r == Some(pre.contains_order(order_id))
                &&& final(self).has_book(symbol@)
                &&& cancel_relates(pre, post, order_id, pre.order_lookup@.contains_key(order_id))
            },
            !old(self).has_book(symbol@) ==> final(self).books@ == old(self).books@,
            forall|sym: Seq<char>|
                sym != symbol@ ==> ((final(self).has_book(sym) <==> old(self).has_book(sym)) && (
                old(self).has_book(sym) ==> final(self).book_at(sym) == old(self).book_at(sym))),
    {
        let ghost olde = *self;
        let owned = symbol.to_owned();
        let found = self.find_book(&owned);
        match found {
            None => None,
            Some(i) => {
                let mut entry = self.books.remove(i);
                let removed = entry.book.cancel_order(order_id);
                self.books.insert(i, entry);
                proof {
                    assert(self.books@ =~= olde.books@.update(i as int, self.books@[i as int]));
                    assert(self.books@[i as int].symbol@ == symbol@);
                    assert forall|i1: int, j1: int|
                        0 <= i1 < j1 < self.books@.len()
                            implies (#[trigger] self.books@[i1].symbol@)
                                != (#[trigger] self.books@[j1].symbol@)
                    by {
                        assert(self.books@[i1].symbol@ == olde.books@[i1].symbol@);
                        assert(self.books@[j1].symbol@ == olde.books@[j1].symbol@);
                    }
                    lemma_book_at_position(self.books@, symbol@, i as int);
                    lemma_book_at_position(olde.books@, symbol@, i as int);
                    assert forall|sym: Seq<char>|
                        sym != symbol@ implies ((self.has_book(sym) <==> olde.has_book(sym)) && (
                    olde.has_book(sym) ==> self.book_at(sym) == olde.book_at(sym)))
                    by {
                        if olde.has_book(sym) {
                            let k = choose|k: int|
                                0 <= k < olde.books@.len() && (#[trigger] olde.books@[k]).symbol@
                                    == sym;
                            assert(self.books@[k].symbol@ == sym);
                            assert(self.books@[k] == olde.books@[k]);
                            lemma_book_at_position(self.books@, sym, k);
                            lemma_book_at_position(olde.books@, sym, k);
                        }
                        if self.has_book(sym) {
                            let k = choose|k: int|
                                0 <= k < self.books@.len() && (#[trigger] self.books@[k]).symbol@
                                    == sym;
                            assert(k != i);
                            assert(olde.books@[k].symbol@ == sym);
                        }
                    }
                }
                Some(removed)
            },
        }
    }
}

} // verus!
