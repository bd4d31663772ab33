//! Price-level value types and the total orders that rank them.
//!
//! A level carries its price and quantity as order-preserving `u64` encodings
//! of the venue's decimal numbers; quantity `0` encodes "remove this level".
//! Two levels are the *same entry* when they agree on `(price, exchange)`;
//! the quantity is the mutable payload.

use crate::exchanges::{exchange_rank, Exchange};
use vstd::prelude::*;

verus! {

/// Result of ranking one price level against another.
///
/// When price and quantity coincide but the venues differ, both orders below
/// resolve to `Less` whichever operand comes first: an ordered search must
/// keep walking past such a level instead of stopping on an entry whose
/// venue does not match.
#[derive(Debug, Clone, Copy, PartialEq, Eq, Structural)]
pub enum LevelOrdering {
    Less,
    Equal,
    Greater,
}

impl LevelOrdering {
    /// True exactly on `Equal`.
    pub fn is_eq(&self) -> (r: bool)
        ensures
            r == (*self == LevelOrdering::Equal),
    {
        match self {
            LevelOrdering::Equal => true,
            _ => false,
        }
    }

    /// True exactly on `Less`.
    pub fn is_lt(&self) -> (r: bool)
        ensures
            r == (*self == LevelOrdering::Less),
    {
        match self {
            LevelOrdering::Less => true,
            _ => false,
        }
    }

    /// True exactly on `Greater`.
    pub fn is_gt(&self) -> (r: bool)
        ensures
            r == (*self == LevelOrdering::Greater),
    {
        match self {
            LevelOrdering::Greater => true,
            _ => false,
        }
    }

    /// True on `Less` and `Equal`.
    pub fn is_le(&self) -> (r: bool)
        ensures
            r == (*self != LevelOrdering::Greater),
    {
        match self {
            LevelOrdering::Greater => false,
            _ => true,
        }
    }

    /// True on `Greater` and `Equal`.
    pub fn is_ge(&self) -> (r: bool)
        ensures
            r == (*self != LevelOrdering::Less),
    {
        match self {
            LevelOrdering::Less => false,
            _ => true,
        }
    }
}

/// A resting buy order at one price on one venue.
#[derive(Debug, Clone, Copy, PartialEq, Eq, Structural)]
pub struct Bid {
    pub price: u64,
    pub quantity: u64,
    pub exchange: Exchange,
}

/// A resting sell order at one price on one venue.
#[derive(Debug, Clone, Copy, PartialEq, Eq, Structural)]
pub struct Ask {
    pub price: u64,
    pub quantity: u64,
    pub exchange: Exchange,
}

/// Which side of the book a level belongs to.
#[derive(Debug, Clone, Copy, PartialEq, Eq, Structural)]
pub enum OrderType {
    Bid,
    Ask,
}

/// True when the two bids denote the same entry: same price, same venue.
pub open spec fn bid_same_key(a: Bid, b: Bid) -> bool {
    a.price == b.price && a.exchange == b.exchange
}

/// True when the two asks denote the same entry: same price, same venue.
pub open spec fn ask_same_key(a: Ask, b: Ask) -> bool {
    a.price == b.price && a.exchange == b.exchange
}

/// The bid priority order. Higher price ranks higher; at equal price the
/// venue identifies the entry (`Equal` means same entry); at equal price
/// across venues, higher quantity ranks higher; and when quantity ties too,
/// the result is `Less` so that an ordered search keeps going.
pub open spec fn bid_cmp_spec(a: Bid, b: Bid) -> LevelOrdering {
    if a.price < b.price {
        LevelOrdering::Less
    } else if a.price > b.price {
        LevelOrdering::Greater
    } else if a.exchange == b.exchange {
        LevelOrdering::Equal
    } else if a.quantity < b.quantity {
        LevelOrdering::Less
    } else if a.quantity > b.quantity {
        LevelOrdering::Greater
    } else {
        LevelOrdering::Less
    }
}

/// The ask priority order. Lower price ranks lower (better); at equal price
/// the venue identifies the entry; at equal price across venues the *higher*
/// quantity ranks lower, so the best ask is the minimum; and when quantity
/// ties too, the result is `Less`.
pub open spec fn ask_cmp_spec(a: Ask, b: Ask) -> LevelOrdering {
    if a.price < b.price {
        LevelOrdering::Less
    } else if a.price > b.price {
        LevelOrdering::Greater
    } else if a.exchange == b.exchange {
        LevelOrdering::Equal
    } else if a.quantity > b.quantity {
        LevelOrdering::Less
    } else if a.quantity < b.quantity {
        LevelOrdering::Greater
    } else {
        LevelOrdering::Less
    }
}

/// The strict storage order for the buy side, worst first: by price, then by
/// quantity, then by venue rank. It is total on levels with distinct keys and
/// refines `bid_cmp_spec` wherever the latter is asymmetric-free.
pub open spec fn bid_before(a: Bid, b: Bid) -> bool {
    a.price < b.price || (a.price == b.price && (a.quantity < b.quantity || (a.quantity
        == b.quantity && exchange_rank(a.exchange) < exchange_rank(b.exchange))))
}

/// The strict storage order for the sell side, best first: by price, then by
/// *descending* quantity, then by descending venue rank.
pub open spec fn ask_before(a: Ask, b: Ask) -> bool {
    a.price < b.price || (a.price == b.price && (a.quantity > b.quantity || (a.quantity
        == b.quantity && exchange_rank(a.exchange) > exchange_rank(b.exchange))))
}

impl Bid {
    /// Builds a bid from the encoded price, the encoded quantity, and its venue.
    pub fn new(price: u64, quantity: u64, exchange: Exchange) -> (r: Bid)
        ensures
            r == (Bid { price, quantity, exchange }),
    {
        Bid { price, quantity, exchange }
    }

    /// Ranks `self` against `other` in the bid priority order.
    pub fn cmp(&self, other: &Bid) -> (r: LevelOrdering)
        ensures
            r == bid_cmp_spec(*self, *other),
    {
        if self.price < other.price {
            LevelOrdering::Less
        } else if self.price > other.price {
            LevelOrdering::Greater
        } else if self.exchange == other.exchange {
            LevelOrdering::Equal
        } else if self.quantity < other.quantity {
            LevelOrdering::Less
        } else if self.quantity > other.quantity {
            LevelOrdering::Greater
        } else {
            LevelOrdering::Less
        }
    }

    /// The encoded price.
    pub fn get_price(&self) -> (r: u64)
        ensures
            r == self.price,
    {
        self.price
    }

    /// The encoded quantity.
    pub fn get_quantity(&self) -> (r: u64)
        ensures
            r == self.quantity,
    {
        self.quantity
    }

    /// Replaces the quantity.
    pub fn set_quantity(&mut self, quantity: u64)
        ensures
            *final(self) == (Bid { quantity, ..*old(self) }),
    {
        self.quantity = quantity;
    }

    /// The venue the bid rests on.
    pub fn get_exchange(&self) -> (r: Exchange)
        ensures
            r == self.exchange,
    {
        self.exchange
    }
}

impl Default for Bid {
    /// The neutral bid every real bid ranks at least as high as.
    fn default() -> (r: Bid)
        ensures
            r == (Bid { price: 0, quantity: 0, exchange: Exchange::Binance }),
    {
        Bid { price: 0, quantity: 0, exchange: Exchange::Binance }
    }
}

/// The greatest encoded price, used as the neutral ask price.
pub const MAX_PRICE_ENCODING: u64 = 0xffff_ffff_ffff_ffff;

impl Ask {
    /// Builds an ask from the encoded price, the encoded quantity, and its venue.
    pub fn new(price: u64, quantity: u64, exchange: Exchange) -> (r: Ask)
        ensures
            r == (Ask { price, quantity, exchange }),
    {
        Ask { price, quantity, exchange }
    }

    /// Ranks `self` against `other` in the ask priority order.
    pub fn cmp(&self, other: &Ask) -> (r: LevelOrdering)
        ensures
            r == ask_cmp_spec(*self, *other),
    {
        if self.price < other.price {
            LevelOrdering::Less
        } else if self.price > other.price {
            LevelOrdering::Greater
        } else if self.exchange == other.exchange {
            LevelOrdering::Equal
        } else if self.quantity > other.quantity {
            LevelOrdering::Less
        } else if self.quantity < other.quantity {
            LevelOrdering::Greater
        } else {
            LevelOrdering::Less
        }
    }

    /// The encoded price.
    pub fn get_price(&self) -> (r: u64)
        ensures
            r == self.price,
    {
        self.price
    }

    /// The encoded quantity.
    pub fn get_quantity(&self) -> (r: u64)
        ensures
            r == self.quantity,
    {
        self.quantity
    }

    /// Replaces the quantity.
    pub fn set_quantity(&mut self, quantity: u64)
        ensures
            *final(self) == (Ask { quantity, ..*old(self) }),
    {
        self.quantity = quantity;
    }

    /// The venue the ask rests on.
    pub fn get_exchange(&self) -> (r: Exchange)
        ensures
            r == self.exchange,
    {
        self.exchange
    }
}

impl Default for Ask {
    /// The neutral ask every real ask ranks at least as low as.
    fn default() -> (r: Ask)
        ensures
            r == (Ask { price: MAX_PRICE_ENCODING, quantity: 0, exchange: Exchange::Binance }),
    {
        Ask { price: MAX_PRICE_ENCODING, quantity: 0, exchange: Exchange::Binance }
    }
}

/// One atomic batch of normalized level updates, derived from one exchange
/// message or one snapshot.
#[derive(Debug, Clone)]
pub struct PriceLevelUpdate {
    pub bids: Vec<Bid>,
    pub asks: Vec<Ask>,
}

impl PriceLevelUpdate {
    /// Packs the bid and ask updates of one exchange message.
    pub fn new(bids: Vec<Bid>, asks: Vec<Ask>) -> (r: PriceLevelUpdate)
        ensures
            r.bids == bids,
            r.asks == asks,
    {
        PriceLevelUpdate { bids, asks }
    }
}

} // verus!
