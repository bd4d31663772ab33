//! Supported venues, venue-name parsing, and the frame dispatch decisions
//! shared by every exchange stream task.

pub mod binance;
pub mod bitstamp;
pub mod exchange_utils;
pub mod kraken;

use vstd::prelude::*;

verus! {

/// One frame from a venue socket, as the stream task classifies it.
#[derive(Debug, Clone, Copy, PartialEq, Eq, Structural)]
pub enum StreamEvent {
    Text,
    Ping,
    Close,
    Other,
}

/// What the stream task does with one frame: hand the text on to the handler
/// task, answer a keepalive, tear the connection down and reconnect, or drop
/// the frame.
#[derive(Debug, Clone, Copy, PartialEq, Eq, Structural)]
pub enum StreamAction {
    Forward,
    Pong,
    Reconnect,
    Ignore,
}

/// The frame dispatch every venue's stream task follows.
pub open spec fn stream_action_spec(e: StreamEvent) -> StreamAction {
    match e {
        StreamEvent::Text => StreamAction::Forward,
        StreamEvent::Ping => StreamAction::Pong,
        StreamEvent::Close => StreamAction::Reconnect,
        StreamEvent::Other => StreamAction::Ignore,
    }
}

/// Decides what to do with one socket frame: text frames are forwarded to
/// the handler task, pings are answered with pongs, a close triggers a
/// reconnect, and anything else is ignored.
pub fn stream_action(e: &StreamEvent) -> (r: StreamAction)
    ensures
        r == stream_action_spec(*e),
{
    match e {
        StreamEvent::Text => StreamAction::Forward,
        StreamEvent::Ping => StreamAction::Pong,
        StreamEvent::Close => StreamAction::Reconnect,
        StreamEvent::Other => StreamAction::Ignore,
    }
}

/// The venues the service can aggregate. The declaration order is the
/// canonical venue order used to break ties between price levels.
#[derive(Debug, Clone, Copy, PartialEq, Eq, Structural)]
pub enum Exchange {
    Bitstamp,
    Binance,
}

/// Rank of a venue in the canonical venue order.
pub open spec fn exchange_rank(e: Exchange) -> int {
    match e {
        Exchange::Bitstamp => 0,
        Exchange::Binance => 1,
    }
}

/// The characters of a venue's canonical (lower-case) name.
pub open spec fn exchange_name(e: Exchange) -> Seq<char> {
    match e {
        Exchange::Bitstamp => "bitstamp"@,
        Exchange::Binance => "binance"@,
    }
}

/// What `str::to_lowercase` returns for a given character sequence; the
/// result depends on the characters alone.
pub uninterp spec fn lowercase_of(s: Seq<char>) -> Seq<char>;

/// Relies on `str::to_lowercase`: the Unicode lower-casing of the input,
/// a function of the input characters alone.
#[verifier::external_body]
fn to_lowercase(s: &str) -> (r: String)
    ensures
        r@ == lowercase_of(s@),
{
    s.to_lowercase()
}

/// The comma-separated pieces of a character sequence. A text without a
/// comma is one piece (the empty text is one empty piece), and every comma
/// ends a piece.
pub open spec fn split_commas(s: Seq<char>) -> Seq<Seq<char>>
    decreases s.len(),
{
    if s.len() == 0 {
        seq![Seq::<char>::empty()]
    } else if s[0] == ',' {
        seq![Seq::<char>::empty()] + split_commas(s.subrange(1, s.len() as int))
    } else {
        let rest = split_commas(s.subrange(1, s.len() as int));
        seq![seq![s[0]] + rest[0]] + rest.subrange(1, rest.len() as int)
    }
}

/// A text without commas is one piece: itself.
proof fn lemma_split_no_comma(s: Seq<char>)
    requires
        forall|t: int| 0 <= t < s.len() ==> s[t] != ',',
    ensures
        split_commas(s) == seq![s],
    decreases s.len(),
{
    if s.len() > 0 {
        let s1 = s.subrange(1, s.len() as int);
        assert(forall|t: int| 0 <= t < s1.len() ==> #[trigger] s1[t] == s[t + 1]);
        lemma_split_no_comma(s1);
        assert(seq![s[0]] + s1 =~= s);
        assert(split_commas(s) =~~= seq![s]);
    } else {
        assert(s =~= Seq::<char>::empty());
        assert(split_commas(s) =~~= seq![s]);
    }
}

/// Splitting at the first comma: everything before it is the first piece,
/// and the rest splits on its own.
proof fn lemma_split_at_first_comma(s: Seq<char>, j: int)
    requires
        0 <= j < s.len(),
        s[j] == ',',
        forall|t: int| 0 <= t < j ==> s[t] != ',',
    ensures
        split_commas(s) == seq![s.take(j)] + split_commas(s.skip(j + 1)),
    decreases j,
{
    let s1 = s.subrange(1, s.len() as int);
    if j == 0 {
        assert(s.take(0) =~= Seq::<char>::empty());
        assert(s.skip(1) =~= s1);
        assert(split_commas(s) =~~= seq![s.take(0)] + split_commas(s.skip(1)));
    } else {
        assert(forall|t: int| 0 <= t < s1.len() ==> #[trigger] s1[t] == s[t + 1]);
        lemma_split_at_first_comma(s1, j - 1);
        assert(seq![s[0]] + s1.take(j - 1) =~= s.take(j));
        assert(s1.skip(j) =~= s.skip(j + 1));
        let rest = split_commas(s1);
        assert(rest == seq![s1.take(j - 1)] + split_commas(s1.skip(j)));
        assert(rest.subrange(1, rest.len() as int) =~= split_commas(s1.skip(j)));
        assert(split_commas(s) =~~= seq![s.take(j)] + split_commas(s.skip(j + 1)));
    }
}

/// Whether one piece of the list names a supported venue.
pub open spec fn piece_names_venue(p: Seq<char>) -> bool {
    lowercase_of(p) == "bitstamp"@ || lowercase_of(p) == "binance"@
}

/// The venue a piece names.
pub open spec fn venue_of_piece(p: Seq<char>) -> Exchange {
    if lowercase_of(p) == "bitstamp"@ {
        Exchange::Bitstamp
    } else {
        Exchange::Binance
    }
}

/// Error returned when a venue name cannot be recognized.
#[derive(Debug, Clone, Copy, PartialEq, Eq, Structural)]
pub enum ParseExchangeError {
    UnrecognizedExchange,
}

impl Exchange {
    /// Parses one venue name, case-insensitively.
    pub fn from_str(s: &str) -> (r: Result<Exchange, ParseExchangeError>)
        ensures
            r == Ok::<Exchange, ParseExchangeError>(Exchange::Bitstamp) <==> lowercase_of(s@)
                == "bitstamp"@,
            r == Ok::<Exchange, ParseExchangeError>(Exchange::Binance) <==> lowercase_of(s@)
                == "binance"@,
            r is Err <==> lowercase_of(s@) != "bitstamp"@ && lowercase_of(s@) != "binance"@,
    {
        proof {
            reveal_strlit("bitstamp");
            reveal_strlit("binance");
            assert("bitstamp"@.len() == 8);
            assert("binance"@.len() == 7);
        }
        let lowered = to_lowercase(s);
        if lowered == String::from_str("bitstamp") {
            Ok(Exchange::Bitstamp)
        } else if lowered == String::from_str("binance") {
            Ok(Exchange::Binance)
        } else {
            Err(ParseExchangeError::UnrecognizedExchange)
        }
    }

    /// Parses a comma-separated list of venue names, case-insensitively.
    /// The whole list parses exactly when every piece names a venue; one
    /// unrecognized piece rejects the list.
    pub fn parse_exchanges(exchanges: String) -> (r: Result<Vec<Exchange>, ParseExchangeError>)
        ensures
            r is Ok <==> (forall|k: int|
                0 <= k < split_commas(exchanges@).len() ==> piece_names_venue(
                    #[trigger] split_commas(exchanges@)[k],
                )),
            r is Ok ==> {
                &&& r->Ok_0@.len() == split_commas(exchanges@).len()
                &&& forall|k: int|
                    0 <= k < r->Ok_0@.len() ==> r->Ok_0@[k] == venue_of_piece(
                        #[trigger] split_commas(exchanges@)[k],
                    )
            },
    {
        let s = exchanges.as_str();
        let n = s.unicode_len();
        let ghost pieces = split_commas(s@);
        let mut result: Vec<Exchange> = Vec::new();
        let ghost mut done = Seq::<Seq<char>>::empty();
        let mut start: usize = 0;
        let mut i: usize = 0;
        proof {
            assert(s@.skip(0) =~= s@);
        }
        while i < n
            invariant
                n == s@.len(),
                s@ == exchanges@,
                pieces == split_commas(exchanges@),
                0 <= start <= i <= n,
                pieces == done + split_commas(s@.skip(start as int)),
                result@.len() == done.len(),
                forall|k: int|
                    0 <= k < done.len() ==> piece_names_venue(#[trigger] done[k]) && result@[k]
                        == venue_of_piece(done[k]),
                forall|t: int| start <= t < i ==> s@[t] != ',',
            decreases n - i,
        {
            if s.get_char(i) == ',' {
                let piece = s.substring_char(start, i);
                proof {
                    lemma_split_at_first_comma(s@.skip(start as int), i - start);
                    assert(s@.skip(start as int).take(i - start) =~= s@.subrange(
                        start as int,
                        i as int,
                    ));
                    assert(s@.skip(start as int).skip(i - start + 1) =~= s@.skip(i + 1));
                    assert(split_commas(s@.skip(start as int)) =~~= seq![piece@] + split_commas(
                        s@.skip(i + 1),
                    ));
                    assert(pieces =~~= done.push(piece@) + split_commas(s@.skip(i + 1)));
                }
                match Exchange::from_str(piece) {
                    Ok(e) => {
                        result.push(e);
                        proof {
                            assert(piece_names_venue(piece@));
                            assert(venue_of_piece(piece@) == e);
                        }
                    },
                    Err(e) => {
                        proof {
                            assert(pieces[done.len() as int] == piece@);
                            assert(!piece_names_venue(pieces[done.len() as int]));
                        }
                        return Err(e);
                    },
                }
                proof {
                    done = done.push(piece@);
                }
                start = i + 1;
            }
            i = i + 1;
        }
        let piece = s.substring_char(start, n);
        proof {
            lemma_split_no_comma(s@.skip(start as int));
            assert(s@.skip(start as int) =~= s@.subrange(start as int, n as int));
            assert(pieces =~~= done.push(piece@));
        }
        match Exchange::from_str(piece) {
            Ok(e) => {
                result.push(e);
                proof {
                    assert(piece_names_venue(piece@));
                    assert forall|k: int| 0 <= k < pieces.len() implies piece_names_venue(
                        #[trigger] pieces[k],
                    ) by {
                        if k < done.len() {
                            assert(pieces[k] == done[k]);
                        }
                    }
                }
                Ok(result)
            },
            Err(e) => {
                proof {
                    assert(pieces[done.len() as int] == piece@);
                    assert(!piece_names_venue(pieces[done.len() as int]));
                }
                Err(e)
            },
        }
    }

    /// Every venue the service supports, in canonical order.
    pub fn all_exchanges() -> (r: Vec<Exchange>)
        ensures
            r@ == seq![Exchange::Bitstamp, Exchange::Binance],
    {
        let mut v: Vec<Exchange> = Vec::new();
        v.push(Exchange::Bitstamp);
        v.push(Exchange::Binance);
        proof {
            assert(v@ =~= seq![Exchange::Bitstamp, Exchange::Binance]);
        }
        v
    }

    /// The venue's rank in the canonical venue order.
    pub fn rank(&self) -> (r: u8)
        ensures
            r as int == exchange_rank(*self),
    {
        match self {
            Exchange::Bitstamp => 0,
            Exchange::Binance => 1,
        }
    }

    /// The canonical name of the venue.
    pub fn to_string(&self) -> (r: String)
        ensures
            r@ == exchange_name(*self),
    {
        match self {
            Exchange::Bitstamp => String::from_str("bitstamp"),
            Exchange::Binance => String::from_str("binance"),
        }
    }
}

} // verus!
