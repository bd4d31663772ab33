//! Conversions from decoded wire rows to tagged price levels.
//!
//! A wire row is one `(price, quantity)` pair, both already carried as
//! order-preserving `u64` encodings of the venue's decimal strings.

use crate::exchanges::Exchange;
use crate::order_book::price_level::{Ask, Bid};
use vstd::prelude::*;

verus! {

/// True when the character is an ASCII decimal digit.
pub open spec fn is_ascii_digit(c: char) -> bool {
    '0' as u32 <= c as u32 && c as u32 <= '9' as u32
}

/// The numeric value of one ASCII decimal digit.
pub open spec fn digit_value(c: char) -> int {
    c as u32 - '0' as u32
}

/// True when every character is an ASCII decimal digit.
pub open spec fn all_ascii_digits(s: Seq<char>) -> bool {
    forall|i: int| 0 <= i < s.len() ==> is_ascii_digit(#[trigger] s[i])
}

/// The number an ASCII digit string names, most significant digit first.
pub open spec fn digits_value(s: Seq<char>) -> int
    decreases s.len(),
{
    if s.len() == 0 {
        0
    } else {
        digits_value(s.drop_last()) * 10 + digit_value(s.last())
    }
}

/// What a decimal `u64` field accepts: an optional leading plus sign, then
/// at least one ASCII digit, naming a value that fits in 64 bits.
pub open spec fn u64_of_decimal(s: Seq<char>) -> Option<u64> {
    let body = if s.len() > 0 && s[0] == '+' {
        s.drop_first()
    } else {
        s
    };
    if body.len() > 0 && all_ascii_digits(body) && digits_value(body) <= u64::MAX {
        Some(digits_value(body) as u64)
    } else {
        None
    }
}

proof fn lemma_digits_value_nonneg(s: Seq<char>)
    requires
        all_ascii_digits(s),
    ensures
        digits_value(s) >= 0,
    decreases s.len(),
{
    if s.len() > 0 {
        assert(forall|i: int| 0 <= i < s.drop_last().len() ==> #[trigger] s.drop_last()[i] == s[i]);
        lemma_digits_value_nonneg(s.drop_last());
        assert(is_ascii_digit(s.last()));
    }
}

/// Reading further digits never shrinks the number.
proof fn lemma_digits_value_prefix_grows(s: Seq<char>, k: int)
    requires
        all_ascii_digits(s),
        0 <= k <= s.len(),
    ensures
        digits_value(s.take(k)) <= digits_value(s),
    decreases s.len() - k,
{
    if k == s.len() {
        assert(s.take(k) =~= s);
    } else {
        assert(forall|i: int| 0 <= i < k ==> #[trigger] s.take(k)[i] == s[i]);
        assert(all_ascii_digits(s.take(k)));
        lemma_digits_value_nonneg(s.take(k));
        assert(s.take(k + 1).drop_last() =~= s.take(k));
        assert(s.take(k + 1).last() == s[k]);
        assert(is_ascii_digit(s[k]));
        assert(digits_value(s.take(k + 1)) == digits_value(s.take(k)) * 10 + digit_value(s[k]));
        lemma_digits_value_prefix_grows(s, k + 1);
    }
}

/// Parses a decimal `u64` from its text form: an optional leading plus
/// sign, then at least one ASCII digit. Anything else, or a value past the
/// 64-bit range, yields `None`.
#[verifier::rlimit(50)]
pub fn convert_from_string_to_u64(s: &str) -> (r: Option<u64>)
    ensures
        r == u64_of_decimal(s@),
{
    let n = s.unicode_len();
    let mut start: usize = 0;
    if n > 0 && s.get_char(0) == '+' {
        start = 1;
    }
    let ghost body = if s@.len() > 0 && s@[0] == '+' {
        s@.drop_first()
    } else {
        s@
    };
    proof {
        assert(s@.skip(start as int) =~= body);
    }
    if start == n {
        return None;
    }
    let mut acc: u64 = 0;
    let mut i: usize = start;
    while i < n
        invariant
            n == s@.len(),
            0 <= start <= i <= n,
            start < n,
            (s@.len() > 0 && s@[0] == '+') ==> start == 1,
            !(s@.len() > 0 && s@[0] == '+') ==> start == 0,
            body == s@.skip(start as int),
            body.len() == n - start,
            forall|j: int| 0 <= j < i - start ==> is_ascii_digit(#[trigger] body[j]),
            acc as int == digits_value(body.take(i - start)),
        decreases n - i,
    {
        let c = s.get_char(i);
        let cu = c as u32;
        proof {
            assert(body[i - start] == s@[i as int]);
        }
        if cu < '0' as u32 || cu > '9' as u32 {
            proof {
                assert(!is_ascii_digit(body[i - start]));
            }
            return None;
        }
        let d = (cu - '0' as u32) as u64;
        let ghost k = i - start;
        proof {
            assert(is_ascii_digit(body[k]));
            assert(d as int == digit_value(body[k]));
        }
        let widened = match acc.checked_mul(10) {
            Some(x) => x.checked_add(d),
            None => None,
        };
        match widened {
            Some(v) => {
                proof {
                    assert(body.take(k + 1).drop_last() =~= body.take(k));
                    assert(body.take(k + 1).last() == body[k]);
                    assert(digits_value(body.take(k + 1)) == digits_value(body.take(k)) * 10
                        + digit_value(body[k]));
                }
                acc = v;
            },
            None => {
                // The prefix read so far already exceeds the 64-bit range,
                // and further digits can only grow the number.
                proof {
                    assert(body.take(k + 1).drop_last() =~= body.take(k));
                    assert(body.take(k + 1).last() == body[k]);
                    assert(digits_value(body.take(k + 1)) == digits_value(body.take(k)) * 10
                        + digit_value(body[k]));
                    assert(digits_value(body.take(k + 1)) > u64::MAX);
                    if all_ascii_digits(body) {
                        lemma_digits_value_prefix_grows(body, k + 1);
                        assert(digits_value(body) > u64::MAX);
                    }
                    if s@.len() > 0 && s@[0] == '+' {
                        assert(body =~= s@.drop_first());
                    } else {
                        assert(body =~= s@);
                    }
                    assert(u64_of_decimal(s@) is None);
                }
                return None;
            },
        }
        i = i + 1;
    }
    proof {
        assert(body.take(n - start) =~= body);
    }
    Some(acc)
}

/// The decoded rows read as bids resting on `exchange`, in order.
pub open spec fn bids_of_rows(rows: Seq<(u64, u64)>, exchange: Exchange) -> Seq<Bid> {
    rows.map_values(|row: (u64, u64)| Bid { price: row.0, quantity: row.1, exchange })
}

/// The decoded rows read as asks resting on `exchange`, in order.
pub open spec fn asks_of_rows(rows: Seq<(u64, u64)>, exchange: Exchange) -> Seq<Ask> {
    rows.map_values(|row: (u64, u64)| Ask { price: row.0, quantity: row.1, exchange })
}

/// Tags every decoded row as a bid resting on `exchange`, keeping the order.
pub fn convert_rows_to_bids(rows: &Vec<(u64, u64)>, exchange: Exchange) -> (r: Vec<Bid>)
    ensures
        r@ == bids_of_rows(rows@, exchange),
{
    let mut r: Vec<Bid> = Vec::new();
    let n = rows.len();
    let mut i: usize = 0;
    while i < n
        invariant
            n == rows@.len(),
            0 <= i <= n,
            r@.len() == i,
            forall|j: int|
                0 <= j < i ==> r@[j] == (Bid {
                    price: rows@[j].0,
                    quantity: rows@[j].1,
                    exchange,
                }),
        decreases n - i,
    {
        let row = rows[i];
        r.push(Bid { price: row.0, quantity: row.1, exchange });
        i = i + 1;
    }
    proof {
        assert(r@ =~= bids_of_rows(rows@, exchange));
    }
    r
}

/// Tags every decoded row as an ask resting on `exchange`, keeping the order.
pub fn convert_rows_to_asks(rows: &Vec<(u64, u64)>, exchange: Exchange) -> (r: Vec<Ask>)
    ensures
        r@ == asks_of_rows(rows@, exchange),
{
    let mut r: Vec<Ask> = Vec::new();
    let n = rows.len();
    let mut i: usize = 0;
    while i < n
        invariant
            n == rows@.len(),
            0 <= i <= n,
            r@.len() == i,
            forall|j: int|
                0 <= j < i ==> r@[j] == (Ask {
                    price: rows@[j].0,
                    quantity: rows@[j].1,
                    exchange,
                }),
        decreases n - i,
    {
        let row = rows[i];
        r.push(Ask { price: row.0, quantity: row.1, exchange });
        i = i + 1;
    }
    proof {
        assert(r@ =~= asks_of_rows(rows@, exchange));
    }
    r
}

} // verus!
