//! A further venue in the making: the subscribe handshake types exist, but
//! no reconciliation is wired up yet and the venue is not part of the
//! supported set.

use vstd::prelude::*;

verus! {

/// The venue handle.
#[derive(Debug)]
pub struct Kraken;

impl Default for Kraken {
    /// The only value of the handle.
    fn default() -> (r: Kraken) {
        Kraken {  }
    }
}

/// The subscription field of a subscribe message: the feed name and the
/// requested book depth.
#[derive(Debug, Clone)]
pub struct Subscription {
    pub name: String,
    pub depth: usize,
}

impl Subscription {
    /// A subscription to the named feed at the given depth.
    pub fn new(name: &str, depth: usize) -> (r: Subscription)
        ensures
            r.name@ == name@,
            r.depth == depth,
    {
        Subscription { name: name.to_owned(), depth }
    }
}

/// The subscribe handshake the client sends right after connecting.
#[derive(Debug, Clone)]
pub struct SubscribeMessage {
    pub event: String,
    pub pair: Vec<String>,
    pub subscription: Subscription,
}

impl SubscribeMessage {
    /// A subscribe request for the book feed of one pair.
    pub fn new(pair: &str, depth: usize) -> (r: SubscribeMessage)
        ensures
            r.event@ == "subscribe"@,
            r.pair@.len() == 1,
            r.pair@[0]@ == pair@,
            r.subscription.name@ == "book"@,
            r.subscription.depth == depth,
    {
        let mut pairs: Vec<String> = Vec::new();
        pairs.push(pair.to_owned());
        SubscribeMessage {
            event: String::from_str("subscribe"),
            pair: pairs,
            subscription: Subscription::new("book", depth),
        }
    }
}

} // verus!
