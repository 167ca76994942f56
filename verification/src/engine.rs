//! Multi-symbol routing over per-symbol order books.
//!
//! A book is created for a symbol the first time an order for it arrives;
//! the engine holds at most one book per symbol.

use vstd::prelude::*;

use crate::decimal::Decimal;
use crate::order_book::{
    BookModel, DepthLevel, DepthSnapshot, OrderBook, add_spec, cancel_spec, depth_fits, depth_side, depth_sums_ok, fill_ok,
    flatten, match_spec, opposite,
};
use crate::types::{EngineError, Order, Side, Trade};

verus! {

/// The book of one symbol.
#[derive(Debug)]
pub struct SymbolBook {
    symbol: String,
    book: OrderBook,
}

/// Top-level engine: routes each order to the book of its symbol.
#[derive(Debug)]
pub struct Engine {
    books: Vec<SymbolBook>,
}

/// Some entry of `books` is for symbol `sym`.
spec fn has_symbol(books: Seq<SymbolBook>, sym: Seq<char>) -> bool {
    exists|i: int| 0 <= i < books.len() && (#[trigger] books[i].symbol@) == sym
}

/// The position of the entry for `sym`.
spec fn symbol_index(books: Seq<SymbolBook>, sym: Seq<char>) -> int {
    choose|i: int| 0 <= i < books.len() && (#[trigger] books[i].symbol@) == sym
}

/// No symbol has two entries.
spec fn symbols_unique(books: Seq<SymbolBook>) -> bool {
    forall|i: int, j: int|
        0 <= i < books.len() && 0 <= j < books.len() && (#[trigger] books[i].symbol@) == (
        #[trigger] books[j].symbol@) ==> i == j
}

/// The books by symbol.
spec fn books_view(books: Seq<SymbolBook>) -> Map<Seq<char>, BookModel> {
    Map::new(
        |sym: Seq<char>| has_symbol(books, sym),
        |sym: Seq<char>| books[symbol_index(books, sym)].book@,
    )
}

/// With unique symbols, the entry found for a symbol is the one at `i`.
proof fn lemma_symbol_index(books: Seq<SymbolBook>, i: int)
    requires
        symbols_unique(books),
        0 <= i < books.len(),
    ensures
        has_symbol(books, books[i].symbol@),
        symbol_index(books, books[i].symbol@) == i,
{
    assert(has_symbol(books, books[i].symbol@));
}

/// Replacing the book at `i` (same symbol) replaces that symbol's book.
proof fn lemma_books_view_update(books: Seq<SymbolBook>, i: int, sb: SymbolBook)
    requires
        symbols_unique(books),
        0 <= i < books.len(),
        sb.symbol@ == books[i].symbol@,
    ensures
        symbols_unique(books.update(i, sb)),
        books_view(books.update(i, sb)) == books_view(books).insert(sb.symbol@, sb.book@),
{
    let b2 = books.update(i, sb);
    assert forall|a: int, c: int|
        0 <= a < b2.len() && 0 <= c < b2.len() && (#[trigger] b2[a].symbol@) == (#[trigger] b2[c].symbol@)
            implies a == c by {
        assert(b2[a].symbol@ == books[a].symbol@);
        assert(b2[c].symbol@ == books[c].symbol@);
    }
    assert forall|k: Seq<char>| has_symbol(b2, k) == (has_symbol(books, k) || k == sb.symbol@) by {
        if has_symbol(books, k) {
            let j = symbol_index(books, k);
            assert(b2[j].symbol@ == books[j].symbol@);
        }
        if has_symbol(b2, k) {
            let j = symbol_index(b2, k);
            assert(b2[j].symbol@ == books[j].symbol@);
        }
        if k == sb.symbol@ {
            assert(b2[i].symbol@ == k);
        }
    }
    assert forall|k: Seq<char>| #[trigger] books_view(b2).contains_key(k) implies books_view(b2)[k]
        == books_view(books).insert(sb.symbol@, sb.book@)[k] by {
        let j = symbol_index(b2, k);
        lemma_symbol_index(b2, j);
        if k == sb.symbol@ {
            lemma_symbol_index(b2, i);
        } else {
            lemma_symbol_index(books, j);
        }
    }
    assert(books_view(b2) =~= books_view(books).insert(sb.symbol@, sb.book@));
}

/// Adding a book for a new symbol adds that symbol.
proof fn lemma_books_view_push(books: Seq<SymbolBook>, sb: SymbolBook)
    requires
        symbols_unique(books),
        !has_symbol(books, sb.symbol@),
    ensures
        symbols_unique(books.push(sb)),
        books_view(books.push(sb)) == books_view(books).insert(sb.symbol@, sb.book@),
{
    let b2 = books.push(sb);
    let n = books.len() as int;
    assert forall|a: int, c: int|
        0 <= a < b2.len() && 0 <= c < b2.len() && (#[trigger] b2[a].symbol@) == (#[trigger] b2[c].symbol@)
            implies a == c by {
        if a < n && c < n {
            assert(b2[a].symbol@ == books[a].symbol@);
            assert(b2[c].symbol@ == books[c].symbol@);
        } else if a < n {
            assert(b2[a] == books[a]);
        } else if c < n {
            assert(b2[c] == books[c]);
        }
    }
    assert forall|k: Seq<char>| has_symbol(b2, k) == (has_symbol(books, k) || k == sb.symbol@) by {
        if has_symbol(books, k) {
            let j = symbol_index(books, k);
            assert(b2[j] == books[j]);
        }
        if has_symbol(b2, k) {
            let j = symbol_index(b2, k);
            if j < n {
                assert(b2[j] == books[j]);
            }
        }
        if k == sb.symbol@ {
            assert(b2[n].symbol@ == k);
        }
    }
    assert forall|k: Seq<char>| #[trigger] books_view(b2).contains_key(k) implies books_view(b2)[k]
        == books_view(books).insert(sb.symbol@, sb.book@)[k] by {
        let j = symbol_index(b2, k);
        lemma_symbol_index(b2, j);
        if k == sb.symbol@ {
            lemma_symbol_index(b2, n);
        } else {
            assert(j < n);
            assert(b2[j] == books[j]);
            lemma_symbol_index(books, j);
        }
    }
    assert(books_view(b2) =~= books_view(books).insert(sb.symbol@, sb.book@));
}

/// There are as many symbols as entries.
proof fn lemma_dom_len(books: Seq<SymbolBook>)
    requires
        symbols_unique(books),
    ensures
        books_view(books).dom().finite(),
        books_view(books).dom().len() == books.len(),
    decreases books.len(),
{
    if books.len() == 0 {
        assert(books_view(books).dom() =~= Set::<Seq<char>>::empty());
    } else {
        let pre = books.drop_last();
        let last = books.last();
        assert(books =~= pre.push(last));
        assert(symbols_unique(pre)) by {
            assert forall|a: int, c: int|
                0 <= a < pre.len() && 0 <= c < pre.len() && (#[trigger] pre[a].symbol@) == (
                #[trigger] pre[c].symbol@) implies a == c by {
                assert(pre[a].symbol@ == books[a].symbol@);
                assert(pre[c].symbol@ == books[c].symbol@);
            }
        }
        assert(!has_symbol(pre, last.symbol@)) by {
            if has_symbol(pre, last.symbol@) {
                let j = symbol_index(pre, last.symbol@);
                assert(books[j].symbol@ == books[books.len() - 1].symbol@);
            }
        }
        lemma_dom_len(pre);
        lemma_books_view_push(pre, last);
        assert(books_view(books).dom() =~= books_view(pre).dom().insert(last.symbol@));
    }
}

/// A book with no orders.
pub open spec fn empty_book() -> BookModel {
    BookModel { bids: Seq::empty(), asks: Seq::empty() }
}

/// The orders of `user` among `orders`, in order.
pub open spec fn orders_of_user(orders: Seq<Order>, user: u64) -> Seq<Order>
    decreases orders.len(),
{
    if orders.len() == 0 {
        Seq::empty()
    } else if orders.last().user_id == user {
        orders_of_user(orders.drop_last(), user).push(orders.last())
    } else {
        orders_of_user(orders.drop_last(), user)
    }
}

/// Picking the orders of a user keeps exactly that user's orders: each one
/// picked belongs to `user`, and every order of `user` is picked.
pub proof fn law_orders_of_user(orders: Seq<Order>, user: u64)
    ensures
        forall|k: int|
            0 <= k < orders_of_user(orders, user).len() ==> (#[trigger] orders_of_user(orders, user)[k]).user_id == user,
        forall|k: int| 0 <= k < orders.len() && (#[trigger] orders[k]).user_id == user ==> orders_of_user(
            orders,
            user,
        ).contains(orders[k]),
        orders_of_user(orders, user).len() <= orders.len(),
    decreases orders.len(),
{
    if orders.len() > 0 {
        let init = orders.drop_last();
        law_orders_of_user(init, user);
        let r = orders_of_user(orders, user);
        let r0 = orders_of_user(init, user);
        assert forall|k: int| 0 <= k < orders.len() && (#[trigger] orders[k]).user_id == user implies r.contains(
            orders[k],
        ) by {
            if k < orders.len() - 1 {
                assert(init[k] == orders[k]);
                assert(r0.contains(orders[k]));
                let j = choose|j: int| 0 <= j < r0.len() && r0[j] == orders[k];
                if orders.last().user_id == user {
                    assert(r[j] == r0[j]);
                }
            } else {
                assert(r[r.len() - 1] == orders.last());
            }
        }
        assert forall|k: int| 0 <= k < r.len() implies (#[trigger] r[k]).user_id == user by {
            if orders.last().user_id == user && k == r.len() - 1 {
            } else {
                assert(r[k] == r0[k]);
            }
        }
    }
}

impl Engine {
    /// The books by symbol.
    pub closed spec fn view(&self) -> Map<Seq<char>, BookModel> {
        books_view(self.books@)
    }

    /// One book per symbol, each well formed.
    pub closed spec fn wf(&self) -> bool {
        &&& symbols_unique(self.books@)
        &&& forall|i: int| 0 <= i < self.books@.len() ==> (#[trigger] self.books@[i]).book.wf()
    }

    /// The book of `sym`, or an empty one if it has none yet.
    pub open spec fn book_for(&self, sym: Seq<char>) -> BookModel {
        if self@.contains_key(sym) {
            self@[sym]
        } else {
            empty_book()
        }
    }

    pub fn new() -> (r: Engine)
        ensures
            r.wf(),
            r@ == Map::<Seq<char>, BookModel>::empty(),
    {
        let r = Engine { books: Vec::new() };
        assert(r@ =~= Map::<Seq<char>, BookModel>::empty());
        r
    }

    /// The position of the book of `symbol`, if it has one.
    fn find(&self, symbol: &str) -> (r: Option<usize>)
        requires
            self.wf(),
        ensures
            r is Some <==> self@.contains_key(symbol@),
            r is Some ==> r->0 < self.books@.len() && self.books@[r->0 as int].symbol@ == symbol@
                && self@[symbol@] == self.books@[r->0 as int].book@,
    {
        let key = String::from_str(symbol);
        let mut i: usize = 0;
        while i < self.books.len()
            invariant
                i <= self.books@.len(),
                self.wf(),
                key@ == symbol@,
                forall|j: int| 0 <= j < i ==> (#[trigger] self.books@[j].symbol@) != symbol@,
            decreases self.books@.len() - i,
        {
            if self.books[i].symbol == key {
                proof {
                    lemma_symbol_index(self.books@, i as int);
                }
                return Some(i);
            }
            i = i + 1;
        }
        None
    }

    /// Match `order` against the book for `order.symbol`.
    /// The book is created lazily on the first order for a new symbol, even
    /// when the order is then refused.
    pub fn match_order(&mut self, order: Order) -> (r: Result<Vec<Trade>, EngineError>)
        requires
            old(self).wf(),
            order.wf(),
            order.price.value() > 0 && order.amount.value() > 0 ==> order.remaining.value() > 0,
        ensures
            final(self).wf(),
            final(self)@ == old(self)@.insert(
                order.symbol@,
                match match_spec(old(self).book_for(order.symbol@), order) {
                    Ok((b, _)) => b,
                    Err(_) => old(self).book_for(order.symbol@),
                },
            ),
            match match_spec(old(self).book_for(order.symbol@), order) {
                Ok((_, t)) => r is Ok && r->Ok_0@ == t,
                Err(e) => r == Err::<Vec<Trade>, EngineError>(e),
            },
            r is Ok ==> forall|k: int|
                0 <= k < r->Ok_0@.len() ==> fill_ok(
                    #[trigger] r->Ok_0@[k],
                    order,
                    opposite(old(self).book_for(order.symbol@), order),
                    order.side == Side::Buy,
                ),
    {
        let ghost sym = order.symbol@;
        let idx = match self.find(order.symbol.as_str()) {
            Some(i) => i,
            None => {
                let sb = SymbolBook { symbol: order.symbol.clone(), book: OrderBook::new() };
                proof {
                    assert(sb.book@.bids =~= empty_book().bids);
                    assert(sb.book@.asks =~= empty_book().asks);
                    assert(sb.book@ == empty_book());
                    lemma_books_view_push(self.books@, sb);
                }
                self.books.push(sb);
                proof {
                    lemma_symbol_index(self.books@, self.books@.len() - 1);
                }
                self.books.len() - 1
            },
        };
        let ghost mid = self.books@;
        assert(self.books@[idx as int].book@ == old(self).book_for(sym));
        assert(self.books@[idx as int].book.wf());
        let mut sb = self.books.remove(idx);
        let r = sb.book.match_order(order);
        self.books.insert(idx, sb);
        proof {
            assert(self.books@ =~= mid.update(idx as int, sb));
            lemma_books_view_update(mid, idx as int, sb);
            assert forall|i: int| 0 <= i < self.books@.len() implies (#[trigger] self.books@[i]).book.wf() by {
                if i != idx as int {
                    assert(self.books@[i] == mid[i]);
                }
            }
        }
        r
    }

    /// Cancel a resting order in the `symbol` book by its `order_id`.
    /// Returns `OrderNotFound` if the symbol has no book or the order is not
    /// in it.
    pub fn cancel_order(&mut self, symbol: &str, order_id: u64) -> (r: Result<Order, EngineError>)
        requires
            old(self).wf(),
        ensures
            final(self).wf(),
            !old(self)@.contains_key(symbol@) ==> r == Err::<Order, EngineError>(
                EngineError::OrderNotFound(order_id),
            ) && final(self)@ == old(self)@,
            old(self)@.contains_key(symbol@) ==> match cancel_spec(old(self)@[symbol@], order_id) {
                Ok((b, o)) => r == Ok::<Order, EngineError>(o) && final(self)@ == old(self)@.insert(symbol@, b),
                Err(e) => r == Err::<Order, EngineError>(e) && final(self)@ == old(self)@,
            },
    {
        let idx = match self.find(symbol) {
            Some(i) => i,
            None => {
                return Err(EngineError::OrderNotFound(order_id));
            },
        };
        let ghost mid = self.books@;
        assert(self.books@[idx as int].book.wf());
        let mut sb = self.books.remove(idx);
        let r = sb.book.cancel_order(order_id);
        self.books.insert(idx, sb);
        proof {
            assert(self.books@ =~= mid.update(idx as int, sb));
            lemma_books_view_update(mid, idx as int, sb);
            assert forall|i: int| 0 <= i < self.books@.len() implies (#[trigger] self.books@[i]).book.wf() by {
                if i != idx as int {
                    assert(self.books@[i] == mid[i]);
                }
            }
            if r is Err {
                assert(old(self)@.insert(symbol@, old(self)@[symbol@]) =~= old(self)@);
            }
        }
        r
    }

    /// Return the top-`limit` depth levels for `symbol`, or two empty lists
    /// if no book exists for the symbol yet.
    pub fn depth_snapshot(&self, symbol: &str, limit: usize) -> (r: DepthSnapshot)
        requires
            self.wf(),
            self@.contains_key(symbol@) ==> depth_fits(self@[symbol@].bids, limit) && depth_fits(
                self@[symbol@].asks,
                limit,
            ),
        ensures
            r.0@ == depth_side(self.book_for(symbol@).bids, limit),
            r.1@ == depth_side(self.book_for(symbol@).asks, limit),
    {
        match self.find(symbol) {
            Some(i) => {
                assert(self.books@[i as int].book.wf());
                self.books[i].book.depth_snapshot(limit)
            },
            None => {
                let bids: Vec<DepthLevel> = Vec::new();
                let asks: Vec<DepthLevel> = Vec::new();
                assert(bids@ =~= depth_side(empty_book().bids, limit));
                assert(asks@ =~= depth_side(empty_book().asks, limit));
                (bids, asks)
            },
        }
    }

    /// The depth snapshot of `symbol` (two empty lists when it has no book),
    /// or `None` when summing one of the first `limit` levels overflows.
    pub fn try_depth_snapshot(&self, symbol: &str, limit: usize) -> (r: Option<DepthSnapshot>)
        requires
            self.wf(),
        ensures
            r is Some <==> depth_sums_ok(self.book_for(symbol@).bids, limit) && depth_sums_ok(
                self.book_for(symbol@).asks,
                limit,
            ),
            r is Some ==> (r->0).0@ == depth_side(self.book_for(symbol@).bids, limit) && (r->0).1@ == depth_side(
                self.book_for(symbol@).asks,
                limit,
            ),
    {
        match self.find(symbol) {
            Some(i) => {
                assert(self.books@[i as int].book.wf());
                self.books[i].book.try_depth_snapshot(limit)
            },
            None => {
                let bids: Vec<DepthLevel> = Vec::new();
                let asks: Vec<DepthLevel> = Vec::new();
                assert(bids@ =~= depth_side(empty_book().bids, limit));
                assert(asks@ =~= depth_side(empty_book().asks, limit));
                Some((bids, asks))
            },
        }
    }

    /// The resting orders of `user_id` in the book of `symbol`: bids best
    /// first, then asks best first, oldest first within a level.
    pub fn open_orders_by_user(&self, symbol: &str, user_id: u64) -> (r: Vec<Order>)
        requires
            self.wf(),
        ensures
            r@ == orders_of_user(flatten(self.book_for(symbol@).bids) + flatten(self.book_for(symbol@).asks), user_id),
            forall|k: int| 0 <= k < r@.len() ==> (#[trigger] r@[k]).user_id == user_id,
            forall|o: Order|
                #![trigger (flatten(self.book_for(symbol@).bids) + flatten(self.book_for(symbol@).asks)).contains(o)]
                (flatten(self.book_for(symbol@).bids) + flatten(self.book_for(symbol@).asks)).contains(o) && o.user_id
                    == user_id ==> r@.contains(o),
    {
        let all = match self.find(symbol) {
            Some(i) => self.books[i].book.open_orders(),
            None => {
                let none: Vec<Order> = Vec::new();
                assert(none@ =~= flatten(empty_book().bids) + flatten(empty_book().asks));
                none
            },
        };
        let mut out: Vec<Order> = Vec::new();
        let mut k: usize = 0;
        assert(all@.take(0) =~= Seq::<Order>::empty());
        while k < all.len()
            invariant
                k <= all@.len(),
                out@ == orders_of_user(all@.take(k as int), user_id),
            decreases all@.len() - k,
        {
            proof {
                let next = all@.take(k as int + 1);
                assert(next.drop_last() =~= all@.take(k as int));
                assert(next.last() == all@[k as int]);
            }
            if all[k].user_id == user_id {
                out.push(all[k].clone());
            }
            k = k + 1;
        }
        assert(all@.take(k as int) =~= all@);
        proof {
            law_orders_of_user(all@, user_id);
        }
        out
    }

    /// All symbols for which at least one order has been placed.
    pub fn symbols(&self) -> (r: Vec<&str>)
        requires
            self.wf(),
        ensures
            r@.len() == self@.dom().len(),
            forall|i: int| 0 <= i < r@.len() ==> self@.contains_key((#[trigger] r@[i])@),
            forall|i: int, j: int| 0 <= i < j < r@.len() ==> (#[trigger] r@[i])@ != (#[trigger] r@[j])@,
    {
        let mut out: Vec<&str> = Vec::new();
        let mut i: usize = 0;
        while i < self.books.len()
            invariant
                i <= self.books@.len(),
                self.wf(),
                out@.len() == i,
                forall|k: int| 0 <= k < i ==> (#[trigger] out@[k])@ == self.books@[k].symbol@,
            decreases self.books@.len() - i,
        {
            out.push(self.books[i].symbol.as_str());
            i = i + 1;
        }
        proof {
            assert forall|k: int| 0 <= k < out@.len() implies self@.contains_key((#[trigger] out@[k])@) by {
                lemma_symbol_index(self.books@, k);
            }
            lemma_dom_len(self.books@);
        }
        out
    }
}

impl Default for Engine {
    fn default() -> (r: Engine)
        ensures
            r.wf(),
            r@ == Map::<Seq<char>, BookModel>::empty(),
    {
        Engine::new()
    }
}

} // verus!
