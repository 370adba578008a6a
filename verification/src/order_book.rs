//! Per-instrument order book: resting bid/ask queues under price-time
//! priority, the append-only trade ledger, and the matching pass.
//!
//! The whole matching pass is pinned by the recursive specification
//! [`spec_match`]: the executable [`OrderBook::match_orders`] is proved to
//! produce exactly the trades and the residual book that `spec_match`
//! computes from the pre-pass state.

use vstd::prelude::*;
use crate::models::{Order, OrderBookEntry, OrderType, PairView, Trade, TradingPair};

verus! {

/// A resting order: the book-internal state of a submitted order, carrying
/// its remaining quantity and the book-assigned arrival rank.
#[derive(Debug, Clone, Copy, PartialEq, Eq, Structural)]
pub struct RestingOrder {
    pub id: u64,
    pub price: u64,
    pub quantity: u64,
    pub timestamp: i64,
    pub arrival: u64,
}

/// Ghost record of one generated trade, without the trading pair (which is
/// constant across a book).
pub struct TradeRec {
    pub id: int,
    pub buy_order_id: u64,
    pub sell_order_id: u64,
    pub price: u64,
    pub quantity: u64,
    pub timestamp: i64,
}

/// Ghost result of a matching pass: the trades generated, in order, and the
/// residual resting queues.
pub struct MatchResult {
    pub trades: Seq<TradeRec>,
    pub bids: Seq<RestingOrder>,
    pub asks: Seq<RestingOrder>,
}

/// Strict priority: `a` must rest strictly ahead of `b` on the given side
/// (better price first; at equal price, earlier arrival first).
pub open spec fn rests_before(a: RestingOrder, b: RestingOrder, side: OrderType) -> bool {
    if side is Buy {
        a.price > b.price || (a.price == b.price && a.arrival < b.arrival)
    } else {
        a.price < b.price || (a.price == b.price && a.arrival < b.arrival)
    }
}

/// The queue is strictly ordered by the side's priority key.
pub open spec fn side_sorted(s: Seq<RestingOrder>, side: OrderType) -> bool {
    forall|i: int, j: int|
        #![trigger s[i], s[j]]
        0 <= i < j < s.len() ==> rests_before(s[i], s[j], side)
}

/// Every resting order has positive price and remaining quantity, and an
/// arrival rank below the book's next free rank.
pub open spec fn side_valid(s: Seq<RestingOrder>, bound: u64) -> bool {
    forall|i: int|
        #![trigger s[i]]
        0 <= i < s.len() ==> (s[i].quantity > 0 && s[i].price > 0 && s[i].arrival < bound)
}

/// No arrival rank is shared between the two sides.
pub open spec fn arrivals_distinct(bids: Seq<RestingOrder>, asks: Seq<RestingOrder>) -> bool {
    forall|i: int, j: int|
        #![trigger bids[i], asks[j]]
        0 <= i < bids.len() && 0 <= j < asks.len() ==> bids[i].arrival != asks[j].arrival
}

/// Ledger shape: trade ids are the positions in the ledger, every trade is
/// on the book's pair and has positive price and quantity.
pub open spec fn ledger_wf(trades: Seq<Trade>, pair: PairView) -> bool {
    forall|i: int|
        #![trigger trades[i]]
        0 <= i < trades.len() ==> (trades[i].id as int == i && trades[i].trading_pair@ == pair
            && trades[i].quantity > 0 && trades[i].price > 0)
}

/// The last-traded price: the price of the most recent ledger entry, `None`
/// while no trade has ever occurred.
pub open spec fn last_price_of(trades: Seq<Trade>) -> Option<u64> {
    if trades.len() == 0 {
        Option::None
    } else {
        Option::Some(trades.last().price)
    }
}

/// One matching pass over the resting queues, as a mathematical function.
///
/// While the book is crossed (best bid price at or above best ask price), a
/// trade is generated for the minimum of the two head quantities, at the
/// price of the earlier-arrived (the resting) of the two orders; a head
/// whose remaining quantity reaches zero is removed. `next_id` is the id of
/// the next trade generated.
pub open spec fn spec_match(
    bids: Seq<RestingOrder>,
    asks: Seq<RestingOrder>,
    next_id: int,
) -> MatchResult
    decreases bids.len() + asks.len(),
{
    if bids.len() == 0 || asks.len() == 0 || bids[0].price < asks[0].price {
        MatchResult { trades: Seq::empty(), bids, asks }
    } else {
        let b = bids[0];
        let a = asks[0];
        let q = if b.quantity <= a.quantity {
            b.quantity
        } else {
            a.quantity
        };
        let t = TradeRec {
            id: next_id,
            buy_order_id: b.id,
            sell_order_id: a.id,
            price: if b.arrival <= a.arrival {
                b.price
            } else {
                a.price
            },
            quantity: q,
            timestamp: if b.timestamp >= a.timestamp {
                b.timestamp
            } else {
                a.timestamp
            },
        };
        let bids2 = if b.quantity == q {
            bids.drop_first()
        } else {
            bids.update(
                0,
                RestingOrder {
                    id: b.id,
                    price: b.price,
                    quantity: (b.quantity - q) as u64,
                    timestamp: b.timestamp,
                    arrival: b.arrival,
                },
            )
        };
        let asks2 = if a.quantity == q {
            asks.drop_first()
        } else {
            asks.update(
                0,
                RestingOrder {
                    id: a.id,
                    price: a.price,
                    quantity: (a.quantity - q) as u64,
                    timestamp: a.timestamp,
                    arrival: a.arrival,
                },
            )
        };
        let rest = spec_match(bids2, asks2, next_id + 1);
        MatchResult {
            trades: seq![t] + rest.trades,
            bids: rest.bids,
            asks: rest.asks,
        }
    }
}

/// The image of an order as it comes to rest with a given arrival rank.
pub open spec fn resting_of(o: Order, arrival: u64) -> RestingOrder {
    RestingOrder {
        id: o.id,
        price: o.price,
        quantity: o.quantity,
        timestamp: o.timestamp,
        arrival,
    }
}

/// Whether `a`'s price is strictly worse than `b`'s for the given side
/// (lower for bids, higher for asks).
pub open spec fn price_worse(a: RestingOrder, b: RestingOrder, side: OrderType) -> bool {
    if side is Buy {
        a.price < b.price
    } else {
        a.price > b.price
    }
}

/// `post` is `pre` with `r` inserted after every entry at `r`'s price or
/// better and before the first entry at a strictly worse price.
pub open spec fn inserted_by_price(
    pre: Seq<RestingOrder>,
    post: Seq<RestingOrder>,
    r: RestingOrder,
    side: OrderType,
) -> bool {
    exists|k: int|
        #![trigger pre.insert(k, r)]
        {
            &&& 0 <= k <= pre.len()
            &&& post == pre.insert(k, r)
            &&& (forall|i: int| 0 <= i < k ==> !price_worse(#[trigger] pre[i], r, side))
            &&& (k < pre.len() ==> price_worse(pre[k], r, side))
        }
}

/// How one `add_order` call relates the new book state to the old: the
/// order comes to rest on its own side at its priority position, everything
/// else is untouched, and the arrival clock ticks once.
pub open spec fn add_rel(pre: OrderBook, post: OrderBook, o: Order) -> bool {
    let r = resting_of(o, pre.next_arrival);
    &&& post.trading_pair == pre.trading_pair
    &&& post.trades == pre.trades
    &&& post.last_price == pre.last_price
    &&& post.next_arrival == pre.next_arrival + 1
    &&& (o.order_type is Buy ==> post.asks == pre.asks && inserted_by_price(
        pre.bids@,
        post.bids@,
        r,
        OrderType::Buy,
    ))
    &&& (o.order_type is Sell ==> post.bids == pre.bids && inserted_by_price(
        pre.asks@,
        post.asks@,
        r,
        OrderType::Sell,
    ))
}

/// The executable trade `t` records the ghost trade `g` on pair `pair`.
pub open spec fn trade_matches(t: Trade, g: TradeRec, pair: PairView) -> bool {
    &&& t.id as int == g.id
    &&& t.trading_pair@ == pair
    &&& t.buy_order_id == g.buy_order_id
    &&& t.sell_order_id == g.sell_order_id
    &&& t.price == g.price
    &&& t.quantity == g.quantity
    &&& t.timestamp == g.timestamp
}

/// How one `match_orders` call relates the new book state to the old: the
/// residual queues and the returned trades are exactly those of
/// [`spec_match`] on the pre-pass queues, and the ledger grows by exactly
/// the returned trades.
pub open spec fn match_rel(pre: OrderBook, post: OrderBook, out: Seq<Trade>) -> bool {
    let m = spec_match(pre.bids@, pre.asks@, pre.trades@.len() as int);
    &&& post.trading_pair == pre.trading_pair
    &&& post.next_arrival == pre.next_arrival
    &&& post.bids@ == m.bids
    &&& post.asks@ == m.asks
    &&& out.len() == m.trades.len()
    &&& post.trades@ == pre.trades@ + out
    &&& (forall|i: int|
        0 <= i < out.len() ==> trade_matches(#[trigger] out[i], m.trades[i], pre.trading_pair@))
}

/// Like [`match_rel`], but without naming the returned trades: the new book
/// state is determined by [`spec_match`] on the old queues, and the ledger
/// grows by exactly the generated trades.
pub open spec fn match_post(pre: OrderBook, post: OrderBook) -> bool {
    let m = spec_match(pre.bids@, pre.asks@, pre.trades@.len() as int);
    &&& post.trading_pair == pre.trading_pair
    &&& post.next_arrival == pre.next_arrival
    &&& post.bids@ == m.bids
    &&& post.asks@ == m.asks
    &&& post.trades@.len() == pre.trades@.len() + m.trades.len()
    &&& (forall|k: int|
        #![trigger post.trades@[k]]
        0 <= k < pre.trades@.len() ==> post.trades@[k] == pre.trades@[k])
    &&& (forall|k: int|
        #![trigger post.trades@[k]]
        pre.trades@.len() <= k < post.trades@.len() ==> trade_matches(
            post.trades@[k],
            m.trades[k - pre.trades@.len()],
            pre.trading_pair@,
        ))
}

/// The per-instrument order book.
pub struct OrderBook {
    pub trading_pair: TradingPair,
    pub bids: Vec<RestingOrder>,
    pub asks: Vec<RestingOrder>,
    pub trades: Vec<Trade>,
    pub last_price: Option<u64>,
    pub next_arrival: u64,
}

impl OrderBook {
    /// Well-formedness: both queues strictly ordered by their priority key,
    /// all resting state positive and below the arrival clock, arrival
    /// ranks unique, the ledger well-shaped, and the last-traded price
    /// equal to the most recent trade's price.
    pub open spec fn wf(self) -> bool {
        &&& side_sorted(self.bids@, OrderType::Buy)
        &&& side_sorted(self.asks@, OrderType::Sell)
        &&& side_valid(self.bids@, self.next_arrival)
        &&& side_valid(self.asks@, self.next_arrival)
        &&& arrivals_distinct(self.bids@, self.asks@)
        &&& ledger_wf(self.trades@, self.trading_pair@)
        &&& self.last_price == last_price_of(self.trades@)
        &&& self.bids@.len() + self.asks@.len() <= usize::MAX
    }

    /// An empty book: no resting orders, no trades, no price yet.
    pub open spec fn is_empty_book(self) -> bool {
        &&& self.bids@.len() == 0
        &&& self.asks@.len() == 0
        &&& self.trades@.len() == 0
        &&& self.last_price is None
        &&& self.next_arrival == 0
    }

    pub fn new(trading_pair: TradingPair) -> (r: OrderBook)
        ensures
            r.wf(),
            r.is_empty_book(),
            r.trading_pair == trading_pair,
    {
        OrderBook {
            trading_pair,
            bids: Vec::new(),
            asks: Vec::new(),
            trades: Vec::new(),
            last_price: Option::None,
            next_arrival: 0,
        }
    }

    /// Inserts `order` as a resting order on its side, at its price-time
    /// priority position. Insertion alone triggers no matching.
    pub fn add_order(&mut self, order: Order)
        requires
            old(self).wf(),
            order.trading_pair@ == old(self).trading_pair@,
            order.price > 0,
            order.quantity > 0,
            old(self).next_arrival < u64::MAX,
            old(self).bids@.len() + old(self).asks@.len() < usize::MAX,
        ensures
            final(self).wf(),
            add_rel(*old(self), *final(self), order),
    {
        let r = RestingOrder {
            id: order.id,
            price: order.price,
            quantity: order.quantity,
            timestamp: order.timestamp,
            arrival: self.next_arrival,
        };
        self.next_arrival = self.next_arrival + 1;
        match order.order_type {
            OrderType::Buy => {
                let mut k: usize = 0;
                while k < self.bids.len() && self.bids[k].price >= r.price
                    invariant
                        k <= self.bids@.len(),
                        forall|i: int| 0 <= i < k ==> (#[trigger] self.bids@[i]).price >= r.price,
                    decreases self.bids@.len() - k,
                {
                    k = k + 1;
                }
                let ghost pre = self.bids@;
                self.bids.insert(k, r);
                proof {
                    assert forall|i: int, j: int|
                        0 <= i < j < self.bids@.len() implies rests_before(
                        self.bids@[i],
                        self.bids@[j],
                        OrderType::Buy,
                    ) by {
                        assert(forall|i0: int|
                            0 <= i0 < pre.len() ==> (#[trigger] pre[i0]).arrival < r.arrival);
                        if i < k && j == k {
                            assert(self.bids@[i] == pre[i]);
                        } else if i == k && j > k {
                            assert(self.bids@[j] == pre[j - 1]);
                            assert(pre[j - 1].price < r.price);
                        } else if i < k && j > k {
                            assert(self.bids@[i] == pre[i] && self.bids@[j] == pre[j - 1]);
                        } else if i < j && j < k {
                            assert(self.bids@[i] == pre[i] && self.bids@[j] == pre[j]);
                        } else if i > k && j > k {
                            assert(self.bids@[i] == pre[i - 1] && self.bids@[j] == pre[j - 1]);
                        }
                    }
                }
            },
            OrderType::Sell => {
                let mut k: usize = 0;
                while k < self.asks.len() && self.asks[k].price <= r.price
                    invariant
                        k <= self.asks@.len(),
                        forall|i: int| 0 <= i < k ==> (#[trigger] self.asks@[i]).price <= r.price,
                    decreases self.asks@.len() - k,
                {
                    k = k + 1;
                }
                let ghost pre = self.asks@;
                self.asks.insert(k, r);
                proof {
                    assert forall|i: int, j: int|
                        0 <= i < j < self.asks@.len() implies rests_before(
                        self.asks@[i],
                        self.asks@[j],
                        OrderType::Sell,
                    ) by {
                        assert(forall|i0: int|
                            0 <= i0 < pre.len() ==> (#[trigger] pre[i0]).arrival < r.arrival);
                        if i < k && j == k {
                            assert(self.asks@[i] == pre[i]);
                        } else if i == k && j > k {
                            assert(self.asks@[j] == pre[j - 1]);
                            assert(pre[j - 1].price > r.price);
                        } else if i < k && j > k {
                            assert(self.asks@[i] == pre[i] && self.asks@[j] == pre[j - 1]);
                        } else if i < j && j < k {
                            assert(self.asks@[i] == pre[i] && self.asks@[j] == pre[j]);
                        } else if i > k && j > k {
                            assert(self.asks@[i] == pre[i - 1] && self.asks@[j] == pre[j - 1]);
                        }
                    }
                }
            },
        }
    }

    /// Runs one matching pass; returns the generated trades in generation
    /// order. Leaves the book uncrossed.
    pub fn match_orders(&mut self) -> (out: Vec<Trade>)
        requires
            old(self).wf(),
        ensures
            final(self).wf(),
            match_rel(*old(self), *final(self), out@),
            match_post(*old(self), *final(self)),
            final(self).bids@.len() == 0 || final(self).asks@.len() == 0
                || final(self).bids@[0].price < final(self).asks@[0].price,
    {
        let ghost pre = *old(self);
        let ghost m = spec_match(pre.bids@, pre.asks@, pre.trades@.len() as int);
        let mut out: Vec<Trade> = Vec::new();
        let ghost mut gout: Seq<TradeRec> = Seq::empty();
        while self.bids.len() > 0 && self.asks.len() > 0 && self.bids[0].price
            >= self.asks[0].price
            invariant
                self.trading_pair == pre.trading_pair,
                self.next_arrival == pre.next_arrival,
                side_sorted(self.bids@, OrderType::Buy),
                side_sorted(self.asks@, OrderType::Sell),
                side_valid(self.bids@, self.next_arrival),
                side_valid(self.asks@, self.next_arrival),
                arrivals_distinct(self.bids@, self.asks@),
                ledger_wf(self.trades@, self.trading_pair@),
                self.last_price == last_price_of(self.trades@),
                self.bids@.len() + self.asks@.len() <= usize::MAX,
                self.trades@ == pre.trades@ + out@,
                out@.len() == gout.len(),
                forall|i: int|
                    0 <= i < gout.len() ==> trade_matches(
                        #[trigger] out@[i],
                        gout[i],
                        pre.trading_pair@,
                    ),
                m.trades == gout + spec_match(
                    self.bids@,
                    self.asks@,
                    self.trades@.len() as int,
                ).trades,
                m.bids == spec_match(self.bids@, self.asks@, self.trades@.len() as int).bids,
                m.asks == spec_match(self.bids@, self.asks@, self.trades@.len() as int).asks,
            decreases self.bids@.len() + self.asks@.len(),
        {
            let ghost prev = *self;
            let b = self.bids[0];
            let a = self.asks[0];
            let q = if b.quantity <= a.quantity {
                b.quantity
            } else {
                a.quantity
            };
            let price = if b.arrival <= a.arrival {
                b.price
            } else {
                a.price
            };
            let ts = if b.timestamp >= a.timestamp {
                b.timestamp
            } else {
                a.timestamp
            };
            let tid = self.trades.len() as u64;
            let t = Trade {
                id: tid,
                trading_pair: self.trading_pair.clone_pair(),
                buy_order_id: b.id,
                sell_order_id: a.id,
                price,
                quantity: q,
                timestamp: ts,
            };
            let t_copy = Trade {
                id: tid,
                trading_pair: self.trading_pair.clone_pair(),
                buy_order_id: b.id,
                sell_order_id: a.id,
                price,
                quantity: q,
                timestamp: ts,
            };
            proof {
                assert(t == t_copy);
            }
            self.trades.push(t);
            out.push(t_copy);
            self.last_price = Some(price);
            if b.quantity == q {
                self.bids.remove(0);
            } else {
                self.bids[0] = RestingOrder {
                    id: b.id,
                    price: b.price,
                    quantity: b.quantity - q,
                    timestamp: b.timestamp,
                    arrival: b.arrival,
                };
            }
            if a.quantity == q {
                self.asks.remove(0);
            } else {
                self.asks[0] = RestingOrder {
                    id: a.id,
                    price: a.price,
                    quantity: a.quantity - q,
                    timestamp: a.timestamp,
                    arrival: a.arrival,
                };
            }
            proof {
                let g = TradeRec {
                    id: tid as int,
                    buy_order_id: b.id,
                    sell_order_id: a.id,
                    price,
                    quantity: q,
                    timestamp: ts,
                };
                let n_prev = prev.trades@.len() as int;
                let step = spec_match(prev.bids@, prev.asks@, n_prev);
                if b.quantity == q {
                    assert(self.bids@ =~= prev.bids@.drop_first());
                }
                if a.quantity == q {
                    assert(self.asks@ =~= prev.asks@.drop_first());
                }
                let rest = spec_match(self.bids@, self.asks@, self.trades@.len() as int);
                assert(step.trades == seq![g] + rest.trades);
                assert(step.bids == rest.bids);
                assert(step.asks == rest.asks);
                assert((gout + seq![g]) + rest.trades =~= gout + (seq![g] + rest.trades));
                gout = gout + seq![g];
                assert(self.trades@ =~= pre.trades@ + out@);
                assert forall|i: int, j: int|
                    0 <= i < j < self.bids@.len() implies rests_before(
                    self.bids@[i],
                    self.bids@[j],
                    OrderType::Buy,
                ) by {
                    if b.quantity == q {
                        assert(self.bids@[i] == prev.bids@[i + 1]);
                        assert(self.bids@[j] == prev.bids@[j + 1]);
                    }
                }
                assert forall|i: int, j: int|
                    0 <= i < j < self.asks@.len() implies rests_before(
                    self.asks@[i],
                    self.asks@[j],
                    OrderType::Sell,
                ) by {
                    if a.quantity == q {
                        assert(self.asks@[i] == prev.asks@[i + 1]);
                        assert(self.asks@[j] == prev.asks@[j + 1]);
                    }
                }
            }
        }
        proof {
            assert(spec_match(self.bids@, self.asks@, self.trades@.len() as int).trades
                =~= Seq::<TradeRec>::empty());
            assert(m.trades =~= gout);
            assert(self.trades@ == pre.trades@ + out@);
        }
        out
    }

    /// The last-traded price, `None` while no trade has ever occurred.
    pub fn get_current_price(&self) -> (r: Option<u64>)
        requires
            self.wf(),
        ensures
            r == last_price_of(self.trades@),
            r == self.last_price,
    {
        self.last_price
    }

    /// A read-only snapshot of the resting queues, best-priced first, as
    /// `(price, remaining quantity)` entries.
    pub fn get_order_book(&self) -> (r: (Vec<OrderBookEntry>, Vec<OrderBookEntry>))
        ensures
            snapshot_of(r.0@, self.bids@),
            snapshot_of(r.1@, self.asks@),
    {
        (side_snapshot(&self.bids), side_snapshot(&self.asks))
    }

    /// The full trade ledger, in chronological order.
    pub fn get_trade_history(&self) -> (r: Vec<Trade>)
        ensures
            r@ == self.trades@,
    {
        let mut r: Vec<Trade> = Vec::new();
        let mut i: usize = 0;
        while i < self.trades.len()
            invariant
                i <= self.trades@.len(),
                r@ == self.trades@.subrange(0, i as int),
            decreases self.trades@.len() - i,
        {
            let t = &self.trades[i];
            let copy = Trade {
                id: t.id,
                trading_pair: t.trading_pair.clone_pair(),
                buy_order_id: t.buy_order_id,
                sell_order_id: t.sell_order_id,
                price: t.price,
                quantity: t.quantity,
                timestamp: t.timestamp,
            };
            proof {
                assert(copy == self.trades@[i as int]);
            }
            r.push(copy);
            proof {
                assert(r@ =~= self.trades@.subrange(0, i + 1));
            }
            i = i + 1;
        }
        proof {
            assert(r@ =~= self.trades@);
        }
        r
    }

    /// Number of resting orders across both sides.
    pub fn get_active_orders_count(&self) -> (n: usize)
        requires
            self.wf(),
        ensures
            n == self.bids@.len() + self.asks@.len(),
    {
        self.bids.len() + self.asks.len()
    }
}

/// Total remaining quantity resting in a queue.
pub open spec fn total_quantity(s: Seq<RestingOrder>) -> int
    decreases s.len(),
{
    if s.len() == 0 {
        0
    } else {
        s[0].quantity + total_quantity(s.drop_first())
    }
}

/// Total quantity of a sequence of generated trades.
pub open spec fn total_traded(ts: Seq<TradeRec>) -> int
    decreases ts.len(),
{
    if ts.len() == 0 {
        0
    } else {
        ts[0].quantity + total_traded(ts.drop_first())
    }
}

/// A matching pass never leaves the book crossed: afterwards one side is
/// empty or the best bid prices strictly below the best ask.
pub proof fn lemma_match_uncrossed(bids: Seq<RestingOrder>, asks: Seq<RestingOrder>, next_id: int)
    ensures
        ({
            let m = spec_match(bids, asks, next_id);
            m.bids.len() == 0 || m.asks.len() == 0 || m.bids[0].price < m.asks[0].price
        }),
    decreases bids.len() + asks.len(),
{
    if bids.len() == 0 || asks.len() == 0 || bids[0].price < asks[0].price {
    } else {
        let b = bids[0];
        let a = asks[0];
        let q = if b.quantity <= a.quantity {
            b.quantity
        } else {
            a.quantity
        };
        let bids2 = if b.quantity == q {
            bids.drop_first()
        } else {
            bids.update(
                0,
                RestingOrder {
                    id: b.id,
                    price: b.price,
                    quantity: (b.quantity - q) as u64,
                    timestamp: b.timestamp,
                    arrival: b.arrival,
                },
            )
        };
        let asks2 = if a.quantity == q {
            asks.drop_first()
        } else {
            asks.update(
                0,
                RestingOrder {
                    id: a.id,
                    price: a.price,
                    quantity: (a.quantity - q) as u64,
                    timestamp: a.timestamp,
                    arrival: a.arrival,
                },
            )
        };
        lemma_match_uncrossed(bids2, asks2, next_id + 1);
    }
}

/// Matching twice in a row with no intervening insert yields no trades the
/// second time: the residue of a pass is already uncrossed.
pub proof fn lemma_empty_match_idempotent(
    bids: Seq<RestingOrder>,
    asks: Seq<RestingOrder>,
    next_id: int,
    second_id: int,
)
    ensures
        ({
            let m = spec_match(bids, asks, next_id);
            spec_match(m.bids, m.asks, second_id).trades.len() == 0
        }),
{
    lemma_match_uncrossed(bids, asks, next_id);
}

/// Prepending one trade adds its quantity to the total.
proof fn lemma_total_traded_cons(t: TradeRec, ts: Seq<TradeRec>)
    ensures
        total_traded(seq![t] + ts) == t.quantity + total_traded(ts),
{
    assert((seq![t] + ts).drop_first() =~= ts);
    assert((seq![t] + ts)[0] == t);
}

/// Matching conserves quantity exactly, on each side: the total quantity of
/// the trades generated in one pass plus the quantity still resting equals
/// the pre-pass resting quantity. In particular the traded total never
/// exceeds the pre-pass total of either side.
pub proof fn lemma_match_conserves_quantity(
    bids: Seq<RestingOrder>,
    asks: Seq<RestingOrder>,
    next_id: int,
)
    ensures
        ({
            let m = spec_match(bids, asks, next_id);
            &&& total_traded(m.trades) + total_quantity(m.bids) == total_quantity(bids)
            &&& total_traded(m.trades) + total_quantity(m.asks) == total_quantity(asks)
        }),
    decreases bids.len() + asks.len(),
{
    if bids.len() == 0 || asks.len() == 0 || bids[0].price < asks[0].price {
    } else {
        let b = bids[0];
        let a = asks[0];
        let q = if b.quantity <= a.quantity {
            b.quantity
        } else {
            a.quantity
        };
        let nb = RestingOrder {
            id: b.id,
            price: b.price,
            quantity: (b.quantity - q) as u64,
            timestamp: b.timestamp,
            arrival: b.arrival,
        };
        let na = RestingOrder {
            id: a.id,
            price: a.price,
            quantity: (a.quantity - q) as u64,
            timestamp: a.timestamp,
            arrival: a.arrival,
        };
        let bids2 = if b.quantity == q {
            bids.drop_first()
        } else {
            bids.update(0, nb)
        };
        let asks2 = if a.quantity == q {
            asks.drop_first()
        } else {
            asks.update(0, na)
        };
        if b.quantity != q {
            assert(bids2.drop_first() =~= bids.drop_first());
            assert(total_quantity(bids2) == nb.quantity + total_quantity(bids.drop_first()));
        }
        if a.quantity != q {
            assert(asks2.drop_first() =~= asks.drop_first());
            assert(total_quantity(asks2) == na.quantity + total_quantity(asks.drop_first()));
        }
        lemma_match_conserves_quantity(bids2, asks2, next_id + 1);
        let rest = spec_match(bids2, asks2, next_id + 1);
        let t = spec_match(bids, asks, next_id).trades[0];
        assert(spec_match(bids, asks, next_id).trades == seq![t] + rest.trades);
        lemma_total_traded_cons(t, rest.trades);
    }
}

/// Remaining quantities stay strictly positive: every trade of a pass has
/// positive quantity — so an order's remainder strictly decreases with
/// every trade it participates in — and no residual resting order is left
/// at zero: an order is removed exactly when its remainder reaches zero.
pub proof fn lemma_match_quantities_positive(
    bids: Seq<RestingOrder>,
    asks: Seq<RestingOrder>,
    next_id: int,
)
    requires
        forall|i: int| #![trigger bids[i]] 0 <= i < bids.len() ==> bids[i].quantity > 0,
        forall|i: int| #![trigger asks[i]] 0 <= i < asks.len() ==> asks[i].quantity > 0,
    ensures
        ({
            let m = spec_match(bids, asks, next_id);
            &&& (forall|i: int|
                #![trigger m.trades[i]]
                0 <= i < m.trades.len() ==> m.trades[i].quantity > 0)
            &&& (forall|i: int| #![trigger m.bids[i]] 0 <= i < m.bids.len() ==> m.bids[i].quantity > 0)
            &&& (forall|i: int| #![trigger m.asks[i]] 0 <= i < m.asks.len() ==> m.asks[i].quantity > 0)
        }),
    decreases bids.len() + asks.len(),
{
    let m = spec_match(bids, asks, next_id);
    if bids.len() == 0 || asks.len() == 0 || bids[0].price < asks[0].price {
    } else {
        let b = bids[0];
        let a = asks[0];
        let q = if b.quantity <= a.quantity {
            b.quantity
        } else {
            a.quantity
        };
        let nb = RestingOrder {
            id: b.id,
            price: b.price,
            quantity: (b.quantity - q) as u64,
            timestamp: b.timestamp,
            arrival: b.arrival,
        };
        let na = RestingOrder {
            id: a.id,
            price: a.price,
            quantity: (a.quantity - q) as u64,
            timestamp: a.timestamp,
            arrival: a.arrival,
        };
        let bids2 = if b.quantity == q {
            bids.drop_first()
        } else {
            bids.update(0, nb)
        };
        let asks2 = if a.quantity == q {
            asks.drop_first()
        } else {
            asks.update(0, na)
        };
        assert forall|i: int| #![trigger bids2[i]] 0 <= i < bids2.len() implies bids2[i].quantity
            > 0 by {
            if b.quantity == q {
                assert(bids2[i] == bids[i + 1]);
            } else {
                assert(bids2[i] == if i == 0 {
                    nb
                } else {
                    bids[i]
                });
            }
        }
        assert forall|i: int| #![trigger asks2[i]] 0 <= i < asks2.len() implies asks2[i].quantity
            > 0 by {
            if a.quantity == q {
                assert(asks2[i] == asks[i + 1]);
            } else {
                assert(asks2[i] == if i == 0 {
                    na
                } else {
                    asks[i]
                });
            }
        }
        lemma_match_quantities_positive(bids2, asks2, next_id + 1);
        let rest = spec_match(bids2, asks2, next_id + 1);
        assert forall|i: int| #![trigger m.trades[i]] 0 <= i < m.trades.len() implies m.trades[i].quantity
            > 0 by {
            if i > 0 {
                assert(m.trades[i] == rest.trades[i - 1]);
            }
        }
    }
}

/// Orders at the same price rest in arrival order: within a well-formed
/// side, of two equal-priced resting orders the earlier-arrived stands
/// closer to the front, so it is consumed first.
pub proof fn lemma_fifo_within_price(s: Seq<RestingOrder>, side: OrderType, i: int, j: int)
    requires
        side_sorted(s, side),
        0 <= i < j < s.len(),
        s[i].price == s[j].price,
    ensures
        s[i].arrival < s[j].arrival,
{
}

/// FIFO across two insertions: if `a` is inserted into a well-formed side,
/// and then `b` with the same price but a later arrival, `a` stands
/// strictly ahead of `b` afterwards, so `a` is considered for matching
/// first.
pub proof fn lemma_fifo_insertion(
    s0: Seq<RestingOrder>,
    s1: Seq<RestingOrder>,
    s2: Seq<RestingOrder>,
    a: RestingOrder,
    b: RestingOrder,
    side: OrderType,
)
    requires
        side_sorted(s0, side),
        inserted_by_price(s0, s1, a, side),
        inserted_by_price(s1, s2, b, side),
        a.price == b.price,
    ensures
        exists|ia: int, ib: int|
            #![trigger s2[ia], s2[ib]]
            0 <= ia < ib < s2.len() && s2[ia] == a && s2[ib] == b,
{
    let k1 = choose|k: int|
        #![trigger s0.insert(k, a)]
        {
            &&& 0 <= k <= s0.len()
            &&& s1 == s0.insert(k, a)
            &&& (forall|i: int| 0 <= i < k ==> !price_worse(#[trigger] s0[i], a, side))
            &&& (k < s0.len() ==> price_worse(s0[k], a, side))
        };
    let k2 = choose|k: int|
        #![trigger s1.insert(k, b)]
        {
            &&& 0 <= k <= s1.len()
            &&& s2 == s1.insert(k, b)
            &&& (forall|i: int| 0 <= i < k ==> !price_worse(#[trigger] s1[i], b, side))
            &&& (k < s1.len() ==> price_worse(s1[k], b, side))
        };
    assert(s1[k1] == a);
    if k2 <= k1 {
        assert(k2 < s1.len());
        assert(price_worse(s1[k2], b, side));
        if k2 == k1 {
            assert(s1[k2] == a);
            assert(false);
        } else {
            assert(s1[k2] == s0[k2]);
            assert(!price_worse(s0[k2], a, side));
            assert(false);
        }
    }
    assert(s2[k1] == s1[k1]);
    assert(s2[k2] == b);
    assert(0 <= k1 < k2 < s2.len());
}

/// FIFO across two submissions: when order `a` and then order `b` are added
/// to a book, in that order, on the same side and at the same price, `a`
/// comes to rest strictly ahead of `b`, so `a` is considered for matching
/// first.
pub proof fn lemma_fifo_two_orders(
    b0: OrderBook,
    b1: OrderBook,
    b2: OrderBook,
    oa: Order,
    ob: Order,
)
    requires
        b0.wf(),
        add_rel(b0, b1, oa),
        add_rel(b1, b2, ob),
        oa.order_type == ob.order_type,
        oa.price == ob.price,
    ensures
        oa.order_type is Buy ==> exists|ia: int, ib: int|
            #![trigger b2.bids@[ia], b2.bids@[ib]]
            0 <= ia < ib < b2.bids@.len() && b2.bids@[ia] == resting_of(oa, b0.next_arrival)
                && b2.bids@[ib] == resting_of(ob, b1.next_arrival),
        oa.order_type is Sell ==> exists|ia: int, ib: int|
            #![trigger b2.asks@[ia], b2.asks@[ib]]
            0 <= ia < ib < b2.asks@.len() && b2.asks@[ia] == resting_of(oa, b0.next_arrival)
                && b2.asks@[ib] == resting_of(ob, b1.next_arrival),
{
    let ra = resting_of(oa, b0.next_arrival);
    let rb = resting_of(ob, b1.next_arrival);
    if oa.order_type is Buy {
        lemma_fifo_insertion(b0.bids@, b1.bids@, b2.bids@, ra, rb, OrderType::Buy);
    } else {
        lemma_fifo_insertion(b0.asks@, b1.asks@, b2.asks@, ra, rb, OrderType::Sell);
    }
}

/// Every trade of a pass prints at the price of the earlier-arrived of its
/// two participating orders — the one that was already resting when the
/// other crossed the book — and its participants come from the pre-pass
/// queues.
pub proof fn lemma_trade_price_from_resting(
    bids: Seq<RestingOrder>,
    asks: Seq<RestingOrder>,
    next_id: int,
)
    ensures
        ({
            let m = spec_match(bids, asks, next_id);
            forall|i: int|
                #![trigger m.trades[i]]
                0 <= i < m.trades.len() ==> exists|bi: int, ai: int|
                    #![trigger bids[bi], asks[ai]]
                    {
                        &&& 0 <= bi < bids.len()
                        &&& 0 <= ai < asks.len()
                        &&& bids[bi].id == m.trades[i].buy_order_id
                        &&& asks[ai].id == m.trades[i].sell_order_id
                        &&& m.trades[i].price == (if bids[bi].arrival <= asks[ai].arrival {
                            bids[bi].price
                        } else {
                            asks[ai].price
                        })
                    }
        }),
    decreases bids.len() + asks.len(),
{
    let m = spec_match(bids, asks, next_id);
    if bids.len() == 0 || asks.len() == 0 || bids[0].price < asks[0].price {
    } else {
        let b = bids[0];
        let a = asks[0];
        let q = if b.quantity <= a.quantity {
            b.quantity
        } else {
            a.quantity
        };
        let nb = RestingOrder {
            id: b.id,
            price: b.price,
            quantity: (b.quantity - q) as u64,
            timestamp: b.timestamp,
            arrival: b.arrival,
        };
        let na = RestingOrder {
            id: a.id,
            price: a.price,
            quantity: (a.quantity - q) as u64,
            timestamp: a.timestamp,
            arrival: a.arrival,
        };
        let bids2 = if b.quantity == q {
            bids.drop_first()
        } else {
            bids.update(0, nb)
        };
        let asks2 = if a.quantity == q {
            asks.drop_first()
        } else {
            asks.update(0, na)
        };
        lemma_trade_price_from_resting(bids2, asks2, next_id + 1);
        let m2 = spec_match(bids2, asks2, next_id + 1);
        assert forall|i: int|
            #![trigger m.trades[i]]
            0 <= i < m.trades.len() implies exists|bi: int, ai: int|
            #![trigger bids[bi], asks[ai]]
            {
                &&& 0 <= bi < bids.len()
                &&& 0 <= ai < asks.len()
                &&& bids[bi].id == m.trades[i].buy_order_id
                &&& asks[ai].id == m.trades[i].sell_order_id
                &&& m.trades[i].price == (if bids[bi].arrival <= asks[ai].arrival {
                    bids[bi].price
                } else {
                    asks[ai].price
                })
            } by {
            if i == 0 {
                assert(m.trades[0].buy_order_id == bids[0].id);
                assert(m.trades[0].sell_order_id == asks[0].id);
            } else {
                assert(m.trades[i] == m2.trades[i - 1]);
                let (bi2, ai2): (int, int) = choose|bi: int, ai: int|
                    #![trigger bids2[bi], asks2[ai]]
                    {
                        &&& 0 <= bi < bids2.len()
                        &&& 0 <= ai < asks2.len()
                        &&& bids2[bi].id == m2.trades[i - 1].buy_order_id
                        &&& asks2[ai].id == m2.trades[i - 1].sell_order_id
                        &&& m2.trades[i - 1].price == (if bids2[bi].arrival <= asks2[ai].arrival {
                            bids2[bi].price
                        } else {
                            asks2[ai].price
                        })
                    };
                let bi = if b.quantity == q {
                    bi2 + 1
                } else {
                    bi2
                };
                let ai = if a.quantity == q {
                    ai2 + 1
                } else {
                    ai2
                };
                assert(bids[bi].id == bids2[bi2].id && bids[bi].price == bids2[bi2].price
                    && bids[bi].arrival == bids2[bi2].arrival);
                assert(asks[ai].id == asks2[ai2].id && asks[ai].price == asks2[ai2].price
                    && asks[ai].arrival == asks2[ai2].arrival);
            }
        }
    }
}

/// `entries` is the `(price, remaining quantity)` image of `side`.
pub open spec fn snapshot_of(entries: Seq<OrderBookEntry>, side: Seq<RestingOrder>) -> bool {
    &&& entries.len() == side.len()
    &&& (forall|i: int|
        0 <= i < side.len() ==> #[trigger] entries[i] == (OrderBookEntry {
            price: side[i].price,
            quantity: side[i].quantity,
        }))
}

fn side_snapshot(side: &Vec<RestingOrder>) -> (r: Vec<OrderBookEntry>)
    ensures
        snapshot_of(r@, side@),
{
    let mut r: Vec<OrderBookEntry> = Vec::new();
    let mut i: usize = 0;
    while i < side.len()
        invariant
            i <= side@.len(),
            r@.len() == i,
            forall|j: int|
                0 <= j < i ==> #[trigger] r@[j] == (OrderBookEntry {
                    price: side@[j].price,
                    quantity: side@[j].quantity,
                }),
        decreases side@.len() - i,
    {
        r.push(OrderBookEntry { price: side[i].price, quantity: side[i].quantity });
        i = i + 1;
    }
    r
}

} // verus!
