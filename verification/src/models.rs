//! Domain value types: trading pairs, orders, trades, price updates and
//! order-book snapshot entries.
//!
//! Prices and quantities are integral ticks: a price is a positive number of
//! quote ticks per unit, a quantity a positive number of base units.
//! Timestamps are seconds since the epoch.

use vstd::prelude::*;
use vstd::string::StringExecFns;

verus! {

/// Side of an order: a bid (`Buy`) or an ask (`Sell`).
#[derive(Debug, Clone, Copy, PartialEq, Eq, Structural)]
pub enum OrderType {
    Buy,
    Sell,
}

/// An instrument: a base symbol quoted in a quote symbol.
#[derive(Debug, Clone, PartialEq, Eq, Hash)]
pub struct TradingPair {
    pub base: String,
    pub quote: String,
}

/// Mathematical image of a `TradingPair`: the two symbols as character
/// sequences.
#[verifier::ext_equal]
pub struct PairView {
    pub base: Seq<char>,
    pub quote: Seq<char>,
}

impl View for TradingPair {
    type V = PairView;

    open spec fn view(&self) -> PairView {
        PairView { base: self.base@, quote: self.quote@ }
    }
}

/// Number of occurrences of `c` in `s`.
pub open spec fn count_char(s: Seq<char>, c: char) -> nat
    decreases s.len(),
{
    if s.len() == 0 {
        0
    } else {
        count_char(s.drop_last(), c) + if s.last() == c {
            1nat
        } else {
            0nat
        }
    }
}

impl TradingPair {
    pub fn new(base: String, quote: String) -> (r: Self)
        ensures
            r.base == base,
            r.quote == quote,
    {
        TradingPair { base, quote }
    }

    /// Parses `"BASE/QUOTE"`; rejects the text unless it holds exactly one
    /// `/` separator.
    pub fn from_string(s: &str) -> (r: Result<Self, String>)
        ensures
            r is Ok <==> count_char(s@, '/') == 1,
            r matches Ok(p) ==> {
                &&& s@ == p.base@ + seq!['/'] + p.quote@
                &&& count_char(p.base@, '/') == 0
                &&& count_char(p.quote@, '/') == 0
            },
    {
        let n = s.unicode_len();
        let mut i: usize = 0;
        let mut slashes: usize = 0;
        let mut sep: usize = 0;
        while i < n
            invariant
                n == s@.len(),
                i <= n,
                slashes == count_char(s@.subrange(0, i as int), '/'),
                slashes <= i,
                slashes >= 1 ==> {
                    &&& sep < i
                    &&& s@[sep as int] == '/'
                    &&& count_char(s@.subrange(0, sep as int), '/') == 0
                },
            decreases n - i,
        {
            let c = s.get_char(i);
            proof {
                assert(s@.subrange(0, i + 1).drop_last() =~= s@.subrange(0, i as int));
                assert(s@.subrange(0, i + 1).last() == s@[i as int]);
            }
            if c == '/' {
                if slashes == 0 {
                    sep = i;
                }
                slashes = slashes + 1;
            }
            i = i + 1;
        }
        proof {
            assert(s@.subrange(0, n as int) =~= s@);
        }
        if slashes != 1 {
            return Err(String::from_str("Invalid trading pair format. Use BASE/QUOTE"));
        }
        let base = String::from_str(s.substring_char(0, sep));
        let quote = String::from_str(s.substring_char(sep + 1, n));
        proof {
            lemma_count_char_split(s@, sep as int, '/');
            assert(s@ =~= s@.subrange(0, sep as int) + seq!['/'] + s@.subrange(
                sep + 1,
                s@.len() as int,
            ));
        }
        Ok(TradingPair { base, quote })
    }

    /// Structural equality of the two symbol pairs.
    pub fn eq_pair(&self, other: &TradingPair) -> (r: bool)
        ensures
            r == (self@ == other@),
    {
        let r = self.base == other.base && self.quote == other.quote;
        proof {
            if self.base@ == other.base@ && self.quote@ == other.quote@ {
                assert(self@ =~= other@);
            }
        }
        r
    }

    /// A copy with the very same symbols (the derived `Clone` says nothing
    /// to the verifier).
    pub fn clone_pair(&self) -> (r: TradingPair)
        ensures
            r == *self,
    {
        TradingPair { base: self.base.clone(), quote: self.quote.clone() }
    }
}

/// Splitting at an occurrence of `c` splits its count.
proof fn lemma_count_char_split(s: Seq<char>, k: int, c: char)
    requires
        0 <= k < s.len(),
        s[k] == c,
    ensures
        count_char(s, c) == count_char(s.subrange(0, k), c) + 1 + count_char(
            s.subrange(k + 1, s.len() as int),
            c,
        ),
    decreases s.len(),
{
    if k == s.len() - 1 {
        assert(s.drop_last() =~= s.subrange(0, k));
        assert(s.subrange(k + 1, s.len() as int) =~= Seq::<char>::empty());
    } else {
        lemma_count_char_split(s.drop_last(), k, c);
        assert(s.drop_last().subrange(0, k) =~= s.subrange(0, k));
        assert(s.drop_last().subrange(k + 1, s.len() - 1) =~= s.subrange(
            k + 1,
            s.len() as int,
        ).drop_last());
        assert(s.subrange(k + 1, s.len() as int).last() == s.last());
    }
}

impl core::str::FromStr for TradingPair {
    type Err = String;

    fn from_str(s: &str) -> Result<Self, Self::Err> {
        TradingPair::from_string(s)
    }
}

/// A limit order intent, immutable once submitted.
#[derive(Debug, Clone)]
pub struct Order {
    pub id: u64,
    pub trading_pair: TradingPair,
    pub order_type: OrderType,
    pub price: u64,
    pub quantity: u64,
    pub timestamp: i64,
}

/// An executed trade, appended once to the owning book's ledger.
#[derive(Debug, Clone)]
pub struct Trade {
    pub id: u64,
    pub trading_pair: TradingPair,
    pub buy_order_id: u64,
    pub sell_order_id: u64,
    pub price: u64,
    pub quantity: u64,
    pub timestamp: i64,
}

/// An informational price notification; accepted by the engine but not yet
/// wired into book state.
#[derive(Debug, Clone)]
pub struct PriceUpdate {
    pub trading_pair: TradingPair,
    pub price: u64,
    pub timestamp: i64,
}

/// One line of an order-book snapshot: a resting order's price and remaining
/// quantity.
#[derive(Debug, Clone, Copy, PartialEq, Eq, Structural)]
pub struct OrderBookEntry {
    pub price: u64,
    pub quantity: u64,
}

} // verus!
