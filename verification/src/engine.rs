//! The matching engine: single point of mutation for all order books.
//!
//! The engine owns one [`OrderBook`] per trading pair and processes one
//! message at a time, to completion; the surrounding process is expected to
//! feed it from an ordered queue, which makes every book operation
//! linearizable without locks. [`Engine::handle_message`] is that one-step
//! transition: state and message in, response and next state out.

use vstd::prelude::*;
use crate::models::{Order, OrderBookEntry, PairView, PriceUpdate, Trade, TradingPair};
use crate::order_book::{add_rel, match_post, match_rel, snapshot_of, OrderBook};

verus! {

/// The engine's inbound message set. Queries are answered through the
/// returned [`Response`]; commands answer [`Response::Done`].
pub enum Message {
    NewOrder(Order),
    PriceUpdate(PriceUpdate),
    MatchOrders(TradingPair),
    GetPrice(TradingPair),
    GetOrderBook(TradingPair),
    GetTradeHistory(TradingPair),
    Shutdown,
}

/// What one processed message answers.
pub enum Response {
    /// A command took effect; nothing is echoed to the caller.
    Done,
    /// The last-traded price of the queried pair.
    Price(Option<u64>),
    /// Snapshot of the queried pair's resting bids and asks.
    Book(Vec<OrderBookEntry>, Vec<OrderBookEntry>),
    /// The queried pair's trade ledger, in chronological order.
    History(Vec<Trade>),
    /// The engine drained and stopped; the total count of orders still
    /// resting, saturated at `usize::MAX`.
    Halted(usize),
}

/// Some book in `s` is for pair `p`.
pub open spec fn has_book(s: Seq<OrderBook>, p: PairView) -> bool {
    exists|i: int| 0 <= i < s.len() && (#[trigger] s[i]).trading_pair@ == p
}

/// The index of the book for pair `p` (unique in a well-formed engine).
pub open spec fn book_at(s: Seq<OrderBook>, p: PairView) -> int {
    choose|i: int| 0 <= i < s.len() && (#[trigger] s[i]).trading_pair@ == p
}

/// `post` is `pre` with at most the book at index `i` replaced.
pub open spec fn books_unchanged_except(
    pre: Seq<OrderBook>,
    post: Seq<OrderBook>,
    i: int,
) -> bool {
    &&& post.len() == pre.len()
    &&& (forall|j: int| #![trigger post[j]] 0 <= j < pre.len() && j != i ==> post[j] == pre[j])
}

/// Total count of resting orders across all books.
pub open spec fn total_active(s: Seq<OrderBook>) -> int
    decreases s.len(),
{
    if s.len() == 0 {
        0
    } else {
        s[0].bids@.len() + s[0].asks@.len() + total_active(s.drop_first())
    }
}

/// The book addressed by `o` (if it exists) has room for one more resting
/// order: its arrival clock and its queues are below their machine bounds.
pub open spec fn new_order_fits(e: Engine, o: Order) -> bool {
    has_book(e.books@, o.trading_pair@) ==> {
        let b = e.books@[book_at(e.books@, o.trading_pair@)];
        b.next_arrival < u64::MAX && b.bids@.len() + b.asks@.len() < usize::MAX
    }
}

/// The engine: the pair-to-book mapping (one book per pair, created lazily,
/// never removed) and the processing-loop flag that `Shutdown` clears.
pub struct Engine {
    pub books: Vec<OrderBook>,
    pub running: bool,
}

impl Engine {
    /// Every book is well-formed and no two books serve the same pair.
    pub open spec fn wf(self) -> bool {
        &&& (forall|i: int|
            #![trigger self.books@[i]]
            0 <= i < self.books@.len() ==> self.books@[i].wf())
        &&& (forall|i: int, j: int|
            #![trigger self.books@[i], self.books@[j]]
            0 <= i < j < self.books@.len() ==> self.books@[i].trading_pair@
                != self.books@[j].trading_pair@)
    }

    pub fn new() -> (r: Engine)
        ensures
            r.wf(),
            r.books@.len() == 0,
            r.running,
    {
        Engine { books: Vec::new(), running: true }
    }
}

impl Default for Engine {
    fn default() -> (r: Engine)
        ensures
            r.wf(),
            r.books@.len() == 0,
            r.running,
    {
        Engine::new()
    }
}

impl Engine {
    /// The index of the book for `p`, if one exists.
    fn find_book(&self, p: &TradingPair) -> (r: Option<usize>)
        requires
            self.wf(),
        ensures
            (match r {
                Option::Some(i) => {
                    &&& i < self.books@.len()
                    &&& self.books@[i as int].trading_pair@ == p@
                    &&& has_book(self.books@, p@)
                    &&& book_at(self.books@, p@) == i as int
                },
                Option::None => !has_book(self.books@, p@),
            }),
    {
        let mut i: usize = 0;
        while i < self.books.len()
            invariant
                self.wf(),
                i <= self.books@.len(),
                forall|j: int|
                    #![trigger self.books@[j]]
                    0 <= j < i ==> self.books@[j].trading_pair@ != p@,
            decreases self.books@.len() - i,
        {
            if self.books[i].trading_pair.eq_pair(p) {
                proof {
                    assert(has_book(self.books@, p@));
                    let k = book_at(self.books@, p@);
                    assert(0 <= k < self.books@.len() && self.books@[k].trading_pair@ == p@);
                    if k != i as int {
                        assert(self.books@[k].trading_pair@ != self.books@[i as int].trading_pair@);
                        assert(false);
                    }
                }
                return Some(i);
            }
            i = i + 1;
        }
        proof {
            if has_book(self.books@, p@) {
                let k = choose|k: int|
                    0 <= k < self.books@.len() && (#[trigger] self.books@[k]).trading_pair@ == p@;
                assert(self.books@[k].trading_pair@ != p@);
            }
        }
        None
    }

    /// Processes one message to completion and answers it.
    ///
    /// `NewOrder` lazily creates the addressed book and inserts the order
    /// (no matching); `MatchOrders` runs one pass on an existing book (a
    /// missing book is a silent no-op); `GetPrice` lazily creates the book
    /// and answers its last-traded price; `GetOrderBook` and
    /// `GetTradeHistory` answer snapshots without creating anything;
    /// `PriceUpdate` is informational only; `Shutdown` runs a final pass on
    /// every book, answers the count of still-resting orders, and stops the
    /// engine: `running` is cleared, so no later message can be processed.
    pub fn handle_message(&mut self, msg: Message) -> (r: Response)
        requires
            old(self).wf(),
            old(self).running,
            msg matches Message::NewOrder(o) ==> o.price > 0 && o.quantity > 0 && new_order_fits(
                *old(self),
                o,
            ),
        ensures
            final(self).wf(),
            final(self).running == !(msg matches Message::Shutdown),
            msg matches Message::NewOrder(o) ==> {
                &&& r is Done
                &&& if has_book(old(self).books@, o.trading_pair@) {
                    let i = book_at(old(self).books@, o.trading_pair@);
                    &&& books_unchanged_except(old(self).books@, final(self).books@, i)
                    &&& add_rel(old(self).books@[i], final(self).books@[i], o)
                } else {
                    &&& final(self).books@.len() == old(self).books@.len() + 1
                    &&& (forall|j: int|
                        #![trigger final(self).books@[j]]
                        0 <= j < old(self).books@.len() ==> final(self).books@[j]
                            == old(self).books@[j])
                    &&& (exists|fresh: OrderBook|
                        {
                            &&& #[trigger] add_rel(fresh, final(self).books@.last(), o)
                            &&& fresh.is_empty_book()
                            &&& fresh.trading_pair@ == o.trading_pair@
                        })
                }
            },
            msg matches Message::MatchOrders(p) ==> {
                &&& r is Done
                &&& if has_book(old(self).books@, p@) {
                    let i = book_at(old(self).books@, p@);
                    &&& books_unchanged_except(old(self).books@, final(self).books@, i)
                    &&& (exists|out: Seq<Trade>|
                        #[trigger] match_rel(old(self).books@[i], final(self).books@[i], out))
                } else {
                    final(self).books@ == old(self).books@
                }
            },
            msg matches Message::GetPrice(p) ==> {
                if has_book(old(self).books@, p@) {
                    let i = book_at(old(self).books@, p@);
                    &&& final(self).books@ == old(self).books@
                    &&& r == Response::Price(old(self).books@[i].last_price)
                } else {
                    &&& final(self).books@.len() == old(self).books@.len() + 1
                    &&& (forall|j: int|
                        #![trigger final(self).books@[j]]
                        0 <= j < old(self).books@.len() ==> final(self).books@[j]
                            == old(self).books@[j])
                    &&& final(self).books@.last().is_empty_book()
                    &&& final(self).books@.last().trading_pair@ == p@
                    &&& r == Response::Price(Option::<u64>::None)
                }
            },
            msg matches Message::GetOrderBook(p) ==> {
                &&& final(self).books@ == old(self).books@
                &&& (r matches Response::Book(bids, asks) && if has_book(old(self).books@, p@) {
                    let i = book_at(old(self).books@, p@);
                    snapshot_of(bids@, old(self).books@[i].bids@) && snapshot_of(
                        asks@,
                        old(self).books@[i].asks@,
                    )
                } else {
                    bids@.len() == 0 && asks@.len() == 0
                })
            },
            msg matches Message::GetTradeHistory(p) ==> {
                &&& final(self).books@ == old(self).books@
                &&& (r matches Response::History(ts) && if has_book(old(self).books@, p@) {
                    ts@ == old(self).books@[book_at(old(self).books@, p@)].trades@
                } else {
                    ts@.len() == 0
                })
            },
            msg matches Message::PriceUpdate(u) ==> final(self).books@ == old(self).books@
                && r is Done,
            msg matches Message::Shutdown ==> {
                &&& final(self).books@.len() == old(self).books@.len()
                &&& (forall|j: int|
                    #![trigger old(self).books@[j]]
                    0 <= j < old(self).books@.len() ==> match_post(
                        old(self).books@[j],
                        final(self).books@[j],
                    ))
                &&& (r matches Response::Halted(n) && n as int == (
                if total_active(final(self).books@) <= usize::MAX {
                    total_active(final(self).books@)
                } else {
                    usize::MAX as int
                }))
            },
    {
        match msg {
            Message::NewOrder(order) => {
                match self.find_book(&order.trading_pair) {
                    Some(i) => {
                        let mut bk = self.books.remove(i);
                        bk.add_order(order);
                        self.books.insert(i, bk);
                        proof {
                            assert(self.books@ =~= old(self).books@.update(
                                book_at(old(self).books@, old(self).books@[i as int].trading_pair@),
                                self.books@[i as int],
                            ));
                        }
                    },
                    None => {
                        let mut bk = OrderBook::new(order.trading_pair.clone_pair());
                        let ghost fresh = bk;
                        bk.add_order(order);
                        self.books.push(bk);
                        proof {
                            assert(add_rel(fresh, self.books@.last(), msg->NewOrder_0));
                        }
                    },
                }
                Response::Done
            },
            Message::PriceUpdate(_update) => Response::Done,
            Message::MatchOrders(pair) => {
                match self.find_book(&pair) {
                    Some(i) => {
                        let mut bk = self.books.remove(i);
                        let out = bk.match_orders();
                        self.books.insert(i, bk);
                        proof {
                            assert(self.books@ =~= old(self).books@.update(
                                book_at(old(self).books@, pair@),
                                self.books@[i as int],
                            ));
                            assert(match_rel(
                                old(self).books@[i as int],
                                self.books@[i as int],
                                out@,
                            ));
                        }
                    },
                    None => {},
                }
                Response::Done
            },
            Message::GetPrice(pair) => {
                match self.find_book(&pair) {
                    Some(i) => {
                        let price = self.books[i].get_current_price();
                        Response::Price(price)
                    },
                    None => {
                        let bk = OrderBook::new(pair);
                        let price = bk.get_current_price();
                        self.books.push(bk);
                        Response::Price(price)
                    },
                }
            },
            Message::GetOrderBook(pair) => {
                match self.find_book(&pair) {
                    Some(i) => {
                        let (bids, asks) = self.books[i].get_order_book();
                        Response::Book(bids, asks)
                    },
                    None => Response::Book(Vec::new(), Vec::new()),
                }
            },
            Message::GetTradeHistory(pair) => {
                match self.find_book(&pair) {
                    Some(i) => Response::History(self.books[i].get_trade_history()),
                    None => Response::History(Vec::new()),
                }
            },
            Message::Shutdown => {
                self.running = false;
                let ghost pre_books = self.books@;
                let mut n: usize = 0;
                let mut i: usize = 0;
                while i < self.books.len()
                    invariant
                        !self.running,
                        i <= self.books@.len(),
                        self.books@.len() == pre_books.len(),
                        forall|j: int|
                            #![trigger self.books@[j]]
                            i <= j < pre_books.len() ==> self.books@[j] == pre_books[j],
                        forall|j: int|
                            #![trigger pre_books[j]]
                            0 <= j < i ==> {
                                &&& self.books@[j].wf()
                                &&& self.books@[j].trading_pair == pre_books[j].trading_pair
                                &&& match_post(pre_books[j], self.books@[j])
                            },
                        forall|j: int|
                            #![trigger pre_books[j]]
                            0 <= j < pre_books.len() ==> pre_books[j].wf(),
                        forall|j1: int, j2: int|
                            #![trigger pre_books[j1], pre_books[j2]]
                            0 <= j1 < j2 < pre_books.len() ==> pre_books[j1].trading_pair@
                                != pre_books[j2].trading_pair@,
                        n as int == (if total_active(self.books@.subrange(0, i as int))
                            <= usize::MAX {
                            total_active(self.books@.subrange(0, i as int))
                        } else {
                            usize::MAX as int
                        }),
                    decreases self.books@.len() - i,
                {
                    let ghost before = self.books@;
                    let ghost prefix = self.books@.subrange(0, i as int);
                    let mut bk = self.books.remove(i);
                    let _trades = bk.match_orders();
                    let c = bk.get_active_orders_count();
                    self.books.insert(i, bk);
                    proof {
                        assert(self.books@ =~= before.update(i as int, self.books@[i as int]));
                        assert(self.books@.subrange(0, i as int) =~= prefix);
                        assert(self.books@.subrange(0, i + 1) =~= prefix.push(
                            self.books@[i as int],
                        ));
                        lemma_total_active_push(prefix, self.books@[i as int]);
                    }
                    if n <= usize::MAX - c {
                        n = n + c;
                    } else {
                        n = usize::MAX;
                    }
                    i = i + 1;
                }
                proof {
                    assert(self.books@.subrange(0, pre_books.len() as int) =~= self.books@);
                    assert forall|j: int|
                        #![trigger self.books@[j]]
                        0 <= j < self.books@.len() implies (self.books@[j].wf()
                        && self.books@[j].trading_pair == pre_books[j].trading_pair) by {
                        // the indexed term lets the loop invariant instantiate at j
                        let p = pre_books[j];
                    }
                    assert forall|j1: int, j2: int|
                        #![trigger self.books@[j1], self.books@[j2]]
                        0 <= j1 < j2 < self.books@.len() implies self.books@[j1].trading_pair@
                        != self.books@[j2].trading_pair@ by {
                        // the indexed terms let the loop invariant instantiate
                        let p1 = pre_books[j1];
                        let p2 = pre_books[j2];
                    }
                }
                Response::Halted(n)
            },
        }
    }
}

/// Appending a book adds its resting count to the total.
proof fn lemma_total_active_push(s: Seq<OrderBook>, b: OrderBook)
    ensures
        total_active(s.push(b)) == total_active(s) + b.bids@.len() + b.asks@.len(),
    decreases s.len(),
{
    if s.len() == 0 {
        assert(s.push(b)[0] == b);
        assert(s.push(b).drop_first() =~= Seq::<OrderBook>::empty());
        assert(total_active(s.push(b).drop_first()) == 0);
        assert(total_active(s.push(b)) == s.push(b)[0].bids@.len() + s.push(b)[0].asks@.len()
            + total_active(s.push(b).drop_first()));
    } else {
        lemma_total_active_push(s.drop_first(), b);
        assert(s.push(b)[0] == s[0]);
        assert(s.push(b).drop_first() =~= s.drop_first().push(b));
    }
}

} // verus!
