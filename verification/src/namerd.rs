//! Decoding of discovery responses.
//!
//! The discovery service answers a poll with a JSON object
//! `{ "type": ..., "addrs": [ { "ip", "port", "meta": { "endpoint_addr_weight" } } ] }`.
//! The resolver depends on exactly that shape: `type == "bound"` yields the
//! decoded weighted addresses, `type == "neg"` yields the empty set (a
//! negative resolution is distinct from a failed poll), any other type yields
//! the empty set, and a malformed body yields no update at all. Weights are
//! decimal numbers carried here in thousandths; absent weights default to one.

use vstd::prelude::*;
use crate::Addr;
use crate::WeightedAddr;

verus! {

/// A decode failure: the poll emits no update and counts as a failure.
#[derive(Debug)]
pub struct NamerdError(pub String);

/// One decoded discovery answer.
#[derive(Clone, PartialEq, Eq, Debug)]
pub enum Update {
    /// `type == "bound"`: the current weighted address set.
    Bound(Vec<WeightedAddr>),
    /// `type == "neg"`: positively known to be empty; drain the pool.
    Negative,
    /// Any other answer: taken as an empty update so that new discovery
    /// answers do not break old balancers.
    Unknown,
}

/// Weight 1.0 in thousandths, used when a weight is absent.
pub const DEFAULT_WEIGHT: u32 = 1000;

/// The largest accepted integral weight; larger values fail the response.
pub const MAX_WEIGHT_INT: u64 = 4000000;

/// The numeric value of a run of decimal digit bytes.
pub open spec fn digits_val(s: Seq<u8>) -> int
    decreases s.len(),
{
    if s.len() == 0 {
        0
    } else {
        digits_val(s.drop_last()) * 10 + (s.last() - 0x30)
    }
}

/// Whether every byte of `s` is a decimal digit.
pub open spec fn all_digits(s: Seq<u8>) -> bool {
    forall|i: int| 0 <= i < s.len() ==> 0x30 <= #[trigger] s[i] <= 0x39
}

/// Whether `b` is JSON whitespace.
pub open spec fn is_ws(b: u8) -> bool {
    b == 0x20 || b == 0x09 || b == 0x0a || b == 0x0d
}

/// The first position at or after `p` holding a non-whitespace byte.
pub open spec fn spec_skip_ws(b: Seq<u8>, p: int) -> int
    decreases b.len() - p,
{
    if 0 <= p < b.len() && is_ws(b[p]) {
        spec_skip_ws(b, p + 1)
    } else {
        p
    }
}

/// Whether `c` is a decimal digit byte.
pub open spec fn is_digit(c: u8) -> bool {
    0x30 <= c <= 0x39
}

/// The end of the run of digit bytes starting at `p`.
pub open spec fn spec_digits_end(b: Seq<u8>, p: int) -> int
    decreases b.len() - p,
{
    if 0 <= p < b.len() && is_digit(b[p]) {
        spec_digits_end(b, p + 1)
    } else {
        p
    }
}

/// The largest value a digit run may carry before the decoder calls the
/// response malformed; far beyond any port or weight in use.
pub open spec fn digits_cap() -> int {
    0x7fff_ffff_ffff_ffff
}

/// The digit run at `p`: its value and end; nothing when no digit stands at
/// `p` or the value is past the cap.
pub open spec fn spec_digits(b: Seq<u8>, p: int) -> Option<(int, int)> {
    let e = spec_digits_end(b, p);
    if e == p || digits_val(b.subrange(p, e)) > digits_cap() {
        None
    } else {
        Some((digits_val(b.subrange(p, e)), e))
    }
}

/// The byte a string escape stands for, if the escape is accepted.
pub open spec fn escape_byte(c: u8) -> Option<u8> {
    if c == 0x22 {
        Some(0x22u8)
    } else if c == 0x5c {
        Some(0x5cu8)
    } else if c == 0x2f {
        Some(0x2fu8)
    } else if c == 0x6e {
        Some(0x0au8)
    } else if c == 0x74 {
        Some(0x09u8)
    } else if c == 0x72 {
        Some(0x0du8)
    } else if c == 0x62 {
        Some(0x08u8)
    } else if c == 0x66 {
        Some(0x0cu8)
    } else {
        None
    }
}

/// The rest of a string body from `p`: the unescaped bytes (behind those
/// already read, `acc`) and the position after the closing quote.
pub open spec fn spec_string_body(b: Seq<u8>, p: int, acc: Seq<u8>) -> Option<(Seq<u8>, int)>
    decreases b.len() - p,
{
    if !(0 <= p < b.len()) {
        None
    } else if b[p] == 0x22 {
        Some((acc, p + 1))
    } else if b[p] == 0x5c {
        if p + 1 >= b.len() {
            None
        } else {
            match escape_byte(b[p + 1]) {
                Some(u) => spec_string_body(b, p + 2, acc.push(u)),
                None => None,
            }
        }
    } else {
        spec_string_body(b, p + 1, acc.push(b[p]))
    }
}

/// The JSON string at `p` (which must hold the opening quote): its unescaped
/// bytes and end.
pub open spec fn spec_string(b: Seq<u8>, p: int) -> Option<(Seq<u8>, int)> {
    if 0 <= p < b.len() && b[p] == 0x22 {
        spec_string_body(b, p + 1, Seq::empty())
    } else {
        None
    }
}

/// Whether `c` may continue a number token.
pub open spec fn is_number_byte(c: u8) -> bool {
    is_digit(c) || c == 0x2e || c == 0x65 || c == 0x45 || c == 0x2b || c == 0x2d
}

/// The end of the number token whose body starts at `p`.
pub open spec fn spec_number_end(b: Seq<u8>, p: int) -> int
    decreases b.len() - p,
{
    if 0 <= p < b.len() && is_number_byte(b[p]) {
        spec_number_end(b, p + 1)
    } else {
        p
    }
}

/// The end of the JSON value at `p`, whatever its shape.
pub open spec fn spec_value_end(b: Seq<u8>, p: int) -> Option<int>
    decreases b.len() - p, 0int,
{
    if !(0 <= p < b.len()) {
        None
    } else {
        let c = b[p];
        if c == 0x22 {
            match spec_string(b, p) {
                Some(sq) => Some(sq.1),
                None => None,
            }
        } else if c == 0x7b || c == 0x5b {
            let i = spec_skip_ws(b, p + 1);
            if i <= p || b.len() < i {
                None
            } else {
                spec_elems_end(b, i, c == 0x7b)
            }
        } else if c == 0x74 {
            if b.len() - p >= 4 && b[p + 1] == 0x72 && b[p + 2] == 0x75 && b[p + 3] == 0x65 {
                Some(p + 4)
            } else {
                None
            }
        } else if c == 0x66 {
            if b.len() - p >= 5 && b[p + 1] == 0x61 && b[p + 2] == 0x6c && b[p + 3] == 0x73 && b[p
                + 4] == 0x65 {
                Some(p + 5)
            } else {
                None
            }
        } else if c == 0x6e {
            if b.len() - p >= 4 && b[p + 1] == 0x75 && b[p + 2] == 0x6c && b[p + 3] == 0x6c {
                Some(p + 4)
            } else {
                None
            }
        } else if c == 0x2d || is_digit(c) {
            Some(spec_number_end(b, p + 1))
        } else {
            None
        }
    }
}

/// The position after an object's members or an array's elements, standing at
/// `p` on either the closing bracket or the first member.
pub open spec fn spec_elems_end(b: Seq<u8>, p: int, obj: bool) -> Option<int>
    decreases b.len() - p, 2int,
{
    if !(0 <= p < b.len()) {
        None
    } else if b[p] == (if obj {
        0x7du8
    } else {
        0x5du8
    }) {
        Some(p + 1)
    } else {
        spec_member_then(b, p, obj)
    }
}

/// One member (or element) at `p`, then either the closing bracket or a comma
/// and the next member.
pub open spec fn spec_member_then(b: Seq<u8>, p: int, obj: bool) -> Option<int>
    decreases b.len() - p, 1int,
{
    if !(0 <= p < b.len()) {
        None
    } else {
        let qo = if obj {
            match spec_string(b, p) {
                Some(key) => {
                    let i3 = spec_skip_ws(b, key.1);
                    if b.len() <= i3 || i3 < 0 || b[i3] != 0x3a {
                        None
                    } else {
                        let i4 = spec_skip_ws(b, i3 + 1);
                        if i4 <= p || b.len() < i4 {
                            None
                        } else {
                            spec_value_end(b, i4)
                        }
                    }
                },
                None => None,
            }
        } else {
            spec_value_end(b, p)
        };
        match qo {
            Some(q) => {
                if q <= p || b.len() < q {
                    None
                } else {
                    let n = spec_skip_ws(b, q);
                    if b.len() <= n || n < 0 {
                        None
                    } else if b[n] == (if obj {
                        0x7du8
                    } else {
                        0x5du8
                    }) {
                        Some(n + 1)
                    } else if b[n] != 0x2c {
                        None
                    } else {
                        let m = spec_skip_ws(b, n + 1);
                        if m <= p || b.len() < m {
                            None
                        } else {
                            spec_member_then(b, m, obj)
                        }
                    }
                }
            },
            None => None,
        }
    }
}

/// The first three fractional digits of the run `[s, e)`, scaled to
/// thousandths.
pub open spec fn frac_milli(b: Seq<u8>, s: int, e: int) -> int {
    (if e > s {
        (b[s] - 0x30) * 100
    } else {
        0
    }) + (if e > s + 1 {
        (b[s + 1] - 0x30) * 10
    } else {
        0
    }) + (if e > s + 2 {
        (b[s + 2] - 0x30) as int
    } else {
        0
    })
}

/// The non-negative decimal weight at `p`, in thousandths: the integral part
/// times one thousand plus its first three fractional digits. Exponents,
/// negative values and integral parts above `MAX_WEIGHT_INT` are malformed.
pub open spec fn spec_weight(b: Seq<u8>, p: int) -> Option<(u32, int)> {
    match spec_digits(b, p) {
        None => None,
        Some(vi) => if vi.0 > MAX_WEIGHT_INT {
            None
        } else {
            if vi.1 < b.len() && b[vi.1] == 0x2e {
                match spec_digits(b, vi.1 + 1) {
                    None => None,
                    Some(f) => {
                        let m = vi.0 * 1000 + frac_milli(b, vi.1 + 1, f.1);
                        if f.1 < b.len() && (b[f.1] == 0x65 || b[f.1] == 0x45) {
                            None
                        } else {
                            Some(((m as u32), f.1))
                        }
                    },
                }
            } else {
                if vi.1 < b.len() && (b[vi.1] == 0x65 || b[vi.1] == 0x45) {
                    None
                } else {
                    Some((((vi.0 * 1000) as u32), vi.1))
                }
            }
        },
    }
}

/// `spec_skip_ws` is exactly the position whose prefix is whitespace and
/// which holds none (or the end).
proof fn lemma_skip_ws_char(b: Seq<u8>, p: int, r: int)
    requires
        0 <= p <= r <= b.len(),
        forall|i: int| p <= i < r ==> is_ws(#[trigger] b[i]),
        r < b.len() ==> !is_ws(b[r]),
    ensures
        spec_skip_ws(b, p) == r,
    decreases r - p,
{
    if p < r {
        assert(is_ws(b[p]));
        lemma_skip_ws_char(b, p + 1, r);
    }
}

/// `spec_digits_end` is exactly the end of a digit run.
proof fn lemma_digits_end_char(b: Seq<u8>, p: int, e: int)
    requires
        0 <= p <= e <= b.len(),
        forall|i: int| p <= i < e ==> is_digit(#[trigger] b[i]),
        e < b.len() ==> !is_digit(b[e]),
    ensures
        spec_digits_end(b, p) == e,
    decreases e - p,
{
    if p < e {
        assert(is_digit(b[p]));
        lemma_digits_end_char(b, p + 1, e);
    }
}

/// The digit run reaches at least past any all-digit prefix.
proof fn lemma_digits_end_lb(b: Seq<u8>, p: int, m: int)
    requires
        0 <= p <= m <= b.len(),
        forall|i: int| p <= i < m ==> is_digit(#[trigger] b[i]),
    ensures
        spec_digits_end(b, p) >= m,
        p <= spec_digits_end(b, p) <= b.len(),
        forall|i: int| p <= i < spec_digits_end(b, p) ==> is_digit(#[trigger] b[i]),
    decreases b.len() - p,
{
    if p < b.len() && is_digit(b[p]) {
        if m <= p + 1 {
            lemma_digits_end_lb(b, p + 1, p + 1);
        } else {
            lemma_digits_end_lb(b, p + 1, m);
        }
    }
}

/// The value of an all-digit run is non-negative.
proof fn lemma_digits_val_nonneg(s: Seq<u8>)
    requires
        all_digits(s),
    ensures
        digits_val(s) >= 0,
    decreases s.len(),
{
    if s.len() > 0 {
        assert(all_digits(s.drop_last())) by {
            assert(forall|i: int|
                0 <= i < s.len() - 1 ==> s.drop_last()[i] == #[trigger] s[i]);
        }
        lemma_digits_val_nonneg(s.drop_last());
    }
}

/// Extending a digit run never shrinks its value.
proof fn lemma_digits_val_mono(b: Seq<u8>, p: int, m: int, e: int)
    requires
        0 <= p <= m <= e <= b.len(),
        forall|i: int| p <= i < e ==> is_digit(#[trigger] b[i]),
    ensures
        digits_val(b.subrange(p, m)) <= digits_val(b.subrange(p, e)),
    decreases e - m,
{
    if m < e {
        lemma_digits_val_mono(b, p, m, e - 1);
        assert(b.subrange(p, e).drop_last() =~= b.subrange(p, e - 1));
        assert(b.subrange(p, e).last() == b[e - 1]);
        assert(all_digits(b.subrange(p, e - 1))) by {
            assert(forall|i: int|
                0 <= i < e - 1 - p ==> b.subrange(p, e - 1)[i] == #[trigger] b[p + i]);
        }
        lemma_digits_val_nonneg(b.subrange(p, e - 1));
    }
}

/// The first position at or after `pos` holding a non-whitespace byte.
fn skip_ws(b: &Vec<u8>, pos: usize) -> (r: usize)
    requires
        pos <= b@.len(),
    ensures
        pos <= r <= b@.len(),
        r as int == spec_skip_ws(b@, pos as int),
    decreases b@.len() - pos,
{
    let mut i: usize = pos;
    while i < b.len()
        invariant
            pos <= i <= b@.len(),
            forall|j: int| pos <= j < i ==> is_ws(#[trigger] b@[j]),
        decreases b@.len() - i,
    {
        let c = b[i];
        if !(c == 0x20 || c == 0x09 || c == 0x0a || c == 0x0d) {
            proof {
                lemma_skip_ws_char(b@, pos as int, i as int);
            }
            return i;
        }
        i += 1;
    }
    proof {
        lemma_skip_ws_char(b@, pos as int, i as int);
    }
    i
}

/// Reads the run of decimal digits at `pos`: exactly `spec_digits`, with the
/// run's exact value.
fn parse_digits(b: &Vec<u8>, pos: usize) -> (r: Option<(u64, usize)>)
    requires
        pos <= b@.len(),
    ensures
        match r {
            Some((v, q)) => {
                &&& pos < q <= b@.len()
                &&& all_digits(b@.subrange(pos as int, q as int))
                &&& v == digits_val(b@.subrange(pos as int, q as int))
                &&& (q < b@.len() ==> !(0x30 <= b@[q as int] <= 0x39))
                &&& spec_digits(b@, pos as int) == Some((v as int, q as int))
            },
            None => spec_digits(b@, pos as int) is None,
        },
{
    let mut i: usize = pos;
    let mut acc: u64 = 0;
    while i < b.len() && b[i] >= 0x30 && b[i] <= 0x39
        invariant
            pos <= i <= b@.len(),
            all_digits(b@.subrange(pos as int, i as int)),
            acc == digits_val(b@.subrange(pos as int, i as int)),
            acc <= 0x7fff_ffff_ffff_ffffu64,
        decreases b@.len() - i,
    {
        let d = b[i] - 0x30;
        proof {
            assert(b@.subrange(pos as int, i as int + 1).drop_last() =~= b@.subrange(
                pos as int,
                i as int,
            ));
            assert(b@.subrange(pos as int, i as int + 1).last() == b@[i as int]);
        }
        if acc > (0x7fff_ffff_ffff_ffffu64 - d as u64) / 10 {
            proof {
                let t = digits_cap();
                let dd = d as int;
                assert(acc * 10 + dd > t) by {
                    assert(acc >= (t - dd) / 10 + 1);
                    assert(10 * ((t - dd) / 10) >= t - dd - 9);
                };
                assert(digits_val(b@.subrange(pos as int, i as int + 1)) == acc * 10 + dd);
                assert forall|j: int| pos <= j < i + 1 implies is_digit(#[trigger] b@[j]) by {
                    if j < i {
                        assert(b@[j] == b@.subrange(pos as int, i as int)[j - pos]);
                    }
                }
                lemma_digits_end_lb(b@, pos as int, i as int + 1);
                let e = spec_digits_end(b@, pos as int);
                lemma_digits_val_mono(b@, pos as int, i as int + 1, e);
            }
            return None;
        }
        acc = acc * 10 + d as u64;
        i += 1;
    }
    proof {
        assert forall|j: int| pos <= j < i implies is_digit(#[trigger] b@[j]) by {
            assert(b@[j] == b@.subrange(pos as int, i as int)[j - pos]);
        }
        lemma_digits_end_char(b@, pos as int, i as int);
    }
    if i == pos {
        None
    } else {
        Some((acc, i))
    }
}

/// Reads the JSON string at `pos` (which must hold the opening quote) and
/// returns its unescaped bytes: exactly `spec_string`.
fn parse_string(b: &Vec<u8>, pos: usize) -> (r: Option<(Vec<u8>, usize)>)
    requires
        pos <= b@.len(),
    ensures
        match r {
            Some((s, q)) => pos < q <= b@.len() && spec_string(b@, pos as int) == Some(
                (s@, q as int),
            ),
            None => spec_string(b@, pos as int) is None,
        },
{
    if pos >= b.len() || b[pos] != 0x22 {
        return None;
    }
    string_body(b, pos + 1, Vec::new())
}

/// The rest of a string body: exactly `spec_string_body`.
fn string_body(b: &Vec<u8>, p: usize, acc: Vec<u8>) -> (r: Option<(Vec<u8>, usize)>)
    requires
        p <= b@.len(),
    ensures
        match r {
            Some((s, q)) => p < q <= b@.len() && spec_string_body(b@, p as int, acc@) == Some(
                (s@, q as int),
            ),
            None => spec_string_body(b@, p as int, acc@) is None,
        },
    decreases b@.len() - p,
{
    if p >= b.len() {
        return None;
    }
    let c = b[p];
    if c == 0x22 {
        return Some((acc, p + 1));
    }
    if c == 0x5c {
        if p + 1 >= b.len() {
            return None;
        }
        let e = b[p + 1];
        let unescaped: u8 = if e == 0x22 {
            0x22
        } else if e == 0x5c {
            0x5c
        } else if e == 0x2f {
            0x2f
        } else if e == 0x6e {
            0x0a
        } else if e == 0x74 {
            0x09
        } else if e == 0x72 {
            0x0d
        } else if e == 0x62 {
            0x08
        } else if e == 0x66 {
            0x0c
        } else {
            proof {
                assert(escape_byte(e) is None);
            }
            return None;
        };
        proof {
            assert(escape_byte(e) == Some(unescaped));
        }
        let mut acc2 = acc;
        acc2.push(unescaped);
        string_body(b, p + 2, acc2)
    } else {
        let mut acc2 = acc;
        acc2.push(c);
        string_body(b, p + 1, acc2)
    }
}

/// The end of the number token whose body starts at `p`: exactly
/// `spec_number_end`.
fn skip_number(b: &Vec<u8>, p: usize) -> (r: usize)
    requires
        p <= b@.len(),
    ensures
        p <= r <= b@.len(),
        r as int == spec_number_end(b@, p as int),
    decreases b@.len() - p,
{
    if p < b.len() {
        let c = b[p];
        if (0x30 <= c && c <= 0x39) || c == 0x2e || c == 0x65 || c == 0x45 || c == 0x2b || c
            == 0x2d {
            return skip_number(b, p + 1);
        }
    }
    p
}

/// Skips the JSON value at `pos`, whatever its shape: exactly
/// `spec_value_end`.
fn skip_value(b: &Vec<u8>, pos: usize) -> (r: Option<usize>)
    requires
        pos <= b@.len(),
    ensures
        match r {
            Some(q) => pos < q <= b@.len() && spec_value_end(b@, pos as int) == Some(q as int),
            None => spec_value_end(b@, pos as int) is None,
        },
    decreases b@.len() - pos, 0int,
{
    if pos >= b.len() {
        return None;
    }
    let c = b[pos];
    if c == 0x22 {
        match parse_string(b, pos) {
            Some((_, q)) => Some(q),
            None => None,
        }
    } else if c == 0x7b || c == 0x5b {
        let i = skip_ws(b, pos + 1);
        skip_elems(b, i, c == 0x7b)
    } else if c == 0x74 {
        if b.len() - pos >= 4 && b[pos + 1] == 0x72 && b[pos + 2] == 0x75 && b[pos + 3] == 0x65 {
            Some(pos + 4)
        } else {
            None
        }
    } else if c == 0x66 {
        if b.len() - pos >= 5 && b[pos + 1] == 0x61 && b[pos + 2] == 0x6c && b[pos + 3] == 0x73
            && b[pos + 4] == 0x65 {
            Some(pos + 5)
        } else {
            None
        }
    } else if c == 0x6e {
        if b.len() - pos >= 4 && b[pos + 1] == 0x75 && b[pos + 2] == 0x6c && b[pos + 3] == 0x6c {
            Some(pos + 4)
        } else {
            None
        }
    } else if c == 0x2d || (0x30 <= c && c <= 0x39) {
        Some(skip_number(b, pos + 1))
    } else {
        None
    }
}

/// Walks an object's members or an array's elements to the closing bracket:
/// exactly `spec_elems_end`.
fn skip_elems(b: &Vec<u8>, p: usize, obj: bool) -> (r: Option<usize>)
    requires
        p <= b@.len(),
    ensures
        match r {
            Some(q) => p < q <= b@.len() && spec_elems_end(b@, p as int, obj) == Some(q as int),
            None => spec_elems_end(b@, p as int, obj) is None,
        },
    decreases b@.len() - p, 2int,
{
    if p >= b.len() {
        return None;
    }
    let close: u8 = if obj {
        0x7d
    } else {
        0x5d
    };
    if b[p] == close {
        return Some(p + 1);
    }
    skip_member_then(b, p, obj)
}

/// One member or element, then the separator and the rest: exactly
/// `spec_member_then`.
fn skip_member_then(b: &Vec<u8>, p: usize, obj: bool) -> (r: Option<usize>)
    requires
        p <= b@.len(),
    ensures
        match r {
            Some(q) => p < q <= b@.len() && spec_member_then(b@, p as int, obj) == Some(q as int),
            None => spec_member_then(b@, p as int, obj) is None,
        },
    decreases b@.len() - p, 1int,
{
    if p >= b.len() {
        return None;
    }
    let q = if obj {
        let i2 = match parse_string(b, p) {
            Some((_, i2)) => i2,
            None => {
                return None;
            },
        };
        let i3 = skip_ws(b, i2);
        if i3 >= b.len() || b[i3] != 0x3a {
            return None;
        }
        let i4 = skip_ws(b, i3 + 1);
        match skip_value(b, i4) {
            Some(q) => q,
            None => {
                return None;
            },
        }
    } else {
        match skip_value(b, p) {
            Some(q) => q,
            None => {
                return None;
            },
        }
    };
    let n = skip_ws(b, q);
    if n >= b.len() {
        return None;
    }
    let close: u8 = if obj {
        0x7d
    } else {
        0x5d
    };
    if b[n] == close {
        return Some(n + 1);
    }
    if b[n] != 0x2c {
        return None;
    }
    let m = skip_ws(b, n + 1);
    skip_member_then(b, m, obj)
}

/// Reads the decimal weight at `pos` into thousandths: exactly
/// `spec_weight`.
fn parse_weight(b: &Vec<u8>, pos: usize) -> (r: Option<(u32, usize)>)
    requires
        pos <= b@.len(),
    ensures
        match r {
            Some((w, q)) => pos < q <= b@.len() && spec_weight(b@, pos as int) == Some(
                (w, q as int),
            ),
            None => spec_weight(b@, pos as int) is None,
        },
{
    let (int_part, i): (u64, usize) = match parse_digits(b, pos) {
        Some(v) => v,
        None => {
            return None;
        },
    };
    if int_part > MAX_WEIGHT_INT {
        return None;
    }
    if i < b.len() && b[i] == 0x2e {
        let (_, fq): (u64, usize) = match parse_digits(b, i + 1) {
            Some(v) => v,
            None => {
                return None;
            },
        };
        let ghost fsub = b@.subrange(i as int + 1, fq as int);
        let f1: u64 = if fq - i > 1 {
            proof {
                assert(b@[i as int + 1] == fsub[0]);
            }
            (b[i + 1] - 0x30) as u64
        } else {
            0
        };
        let f2: u64 = if fq - i > 2 {
            proof {
                assert(b@[i as int + 2] == fsub[1]);
            }
            (b[i + 2] - 0x30) as u64
        } else {
            0
        };
        let f3: u64 = if fq - i > 3 {
            proof {
                assert(b@[i as int + 3] == fsub[2]);
            }
            (b[i + 3] - 0x30) as u64
        } else {
            0
        };
        let milli: u64 = int_part * 1000 + f1 * 100 + f2 * 10 + f3;
        if fq < b.len() && (b[fq] == 0x65 || b[fq] == 0x45) {
            return None;
        }
        proof {
            assert(milli as int == int_part * 1000 + frac_milli(b@, i as int + 1, fq as int));
        }
        Some((milli as u32, fq))
    } else {
        if i < b.len() && (b[i] == 0x65 || b[i] == 0x45) {
            return None;
        }
        Some(((int_part * 1000) as u32, i))
    }
}

/// A well-formed address octet: one to three digits, no leading zero, at
/// most 255.
pub open spec fn octet_ok(o: Seq<u8>) -> bool {
    &&& 1 <= o.len() <= 3
    &&& all_digits(o)
    &&& digits_val(o) <= 255
    &&& (o.len() > 1 ==> o[0] != 0x30)
}

/// Whether `i < j < k` are the three dots of a dotted-quad rendering of `s`,
/// with a well-formed octet between each pair.
pub open spec fn ipv4_form(s: Seq<u8>, i: int, j: int, k: int) -> bool {
    &&& 0 < i && i + 1 < j && j + 1 < k && k + 1 < s.len()
    &&& s[i] == 0x2e && s[j] == 0x2e && s[k] == 0x2e
    &&& octet_ok(s.subrange(0, i))
    &&& octet_ok(s.subrange(i + 1, j))
    &&& octet_ok(s.subrange(j + 1, k))
    &&& octet_ok(s.subrange(k + 1, s.len() as int))
}

/// The address value of the dotted quad split at dots `i < j < k`.
pub open spec fn ipv4_val(s: Seq<u8>, i: int, j: int, k: int) -> int {
    digits_val(s.subrange(0, i)) * 0x1000000 + digits_val(s.subrange(i + 1, j)) * 0x10000
        + digits_val(s.subrange(j + 1, k)) * 0x100 + digits_val(s.subrange(k + 1, s.len() as int))
}

/// The dotted-quad value of the whole of `s`: four octets joined by dots,
/// nothing else.
pub open spec fn spec_ipv4(s: Seq<u8>) -> Option<u32> {
    match spec_octet_at(s, 0) {
        None => None,
        Some(a) => if !(a.1 < s.len() && s[a.1] == 0x2e) {
            None
        } else {
            match spec_octet_at(s, a.1 + 1) {
                None => None,
                Some(b) => if !(b.1 < s.len() && s[b.1] == 0x2e) {
                    None
                } else {
                    match spec_octet_at(s, b.1 + 1) {
                        None => None,
                        Some(c) => if !(c.1 < s.len() && s[c.1] == 0x2e) {
                            None
                        } else {
                            match spec_octet_at(s, c.1 + 1) {
                                None => None,
                                Some(d) => if d.1 != s.len() {
                                    None
                                } else {
                                    Some(
                                        ((a.0 * 0x1000000 + b.0 * 0x10000 + c.0 * 0x100
                                            + d.0) as u32),
                                    )
                                },
                            }
                        },
                    }
                },
            }
        },
    }
}

/// The octet at `p`: its value and end; nothing unless one to three digits
/// stand there, without a leading zero, valuing at most 255.
pub open spec fn spec_octet_at(s: Seq<u8>, p: int) -> Option<(int, int)> {
    match spec_digits(s, p) {
        None => None,
        Some(vq) => if vq.0 > 255 || vq.1 - p > 3 || (vq.1 - p > 1 && s[p] == 0x30) {
            None
        } else {
            Some(vq)
        },
    }
}

/// Parses a dotted-quad IPv4 address, the whole of `s`: exactly `spec_ipv4`.
/// A returned value is also exactly the value of a dotted-quad rendering of
/// `s`, and by `lemma_ipv4_complete` every such rendering is read to its
/// value (the library's addresses are IPv4; any other address form fails the
/// response that carries it).
pub fn parse_ipv4(s: &Vec<u8>) -> (r: Option<u32>)
    ensures
        r == spec_ipv4(s@),
        r matches Some(v) ==> exists|i: int, j: int, k: int|
            ipv4_form(s@, i, j, k) && v == ipv4_val(s@, i, j, k),
{
    let (a, p1) = match parse_octet(s, 0) {
        Some(v) => v,
        None => {
            return None;
        },
    };
    if p1 >= s.len() || s[p1] != 0x2e {
        return None;
    }
    let (b, p2) = match parse_octet(s, p1 + 1) {
        Some(v) => v,
        None => {
            return None;
        },
    };
    if p2 >= s.len() || s[p2] != 0x2e {
        return None;
    }
    let (c, p3) = match parse_octet(s, p2 + 1) {
        Some(v) => v,
        None => {
            return None;
        },
    };
    if p3 >= s.len() || s[p3] != 0x2e {
        return None;
    }
    let (d, p4) = match parse_octet(s, p3 + 1) {
        Some(v) => v,
        None => {
            return None;
        },
    };
    if p4 != s.len() {
        return None;
    }
    let v: u32 = (a as u32) * 0x1000000 + (b as u32) * 0x10000 + (c as u32) * 0x100 + (d as u32);
    proof {
        assert(ipv4_form(s@, p1 as int, p2 as int, p3 as int));
        assert(v == ipv4_val(s@, p1 as int, p2 as int, p3 as int));
    }
    Some(v)
}

/// Reads one address octet at `pos`: exactly `spec_octet_at`, a well-formed
/// octet with the digits' exact value.
fn parse_octet(s: &Vec<u8>, pos: usize) -> (r: Option<(u8, usize)>)
    requires
        pos <= s@.len(),
    ensures
        match r {
            Some((v, q)) => {
                &&& pos < q <= s@.len()
                &&& octet_ok(s@.subrange(pos as int, q as int))
                &&& v == digits_val(s@.subrange(pos as int, q as int))
                &&& spec_octet_at(s@, pos as int) == Some((v as int, q as int))
            },
            None => spec_octet_at(s@, pos as int) is None,
        },
{
    match parse_digits(s, pos) {
        Some((v, q)) => {
            if v > 255 {
                return None;
            }
            if q - pos > 3 {
                return None;
            }
            if q - pos > 1 && s[pos] == 0x30 {
                return None;
            }
            Some((v as u8, q))
        },
        None => None,
    }
}

/// Whether two byte strings hold the same bytes.
pub fn bytes_eq(a: &Vec<u8>, b: &Vec<u8>) -> (r: bool)
    ensures
        r == (a@ == b@),
{
    if a.len() != b.len() {
        proof {
            assert(a@ != b@);
        }
        return false;
    }
    let mut i: usize = 0;
    while i < a.len()
        invariant
            i <= a@.len(),
            a@.len() == b@.len(),
            forall|j: int| 0 <= j < i ==> a@[j] == b@[j],
        decreases a@.len() - i,
    {
        if a[i] != b[i] {
            proof {
                assert(a@ != b@);
            }
            return false;
        }
        i += 1;
    }
    proof {
        assert(a@ =~= b@);
    }
    true
}

/// The bytes of the answer `"bound"`.
pub open spec fn bound_kind() -> Seq<u8> {
    seq![0x62u8, 0x6fu8, 0x75u8, 0x6eu8, 0x64u8]
}

/// The bytes of the answer `"neg"`.
pub open spec fn neg_kind() -> Seq<u8> {
    seq![0x6eu8, 0x65u8, 0x67u8]
}

/// The answer a decoded response carries: `"bound"` brings the addresses,
/// `"neg"` is the empty set known positively, anything else an empty update.
pub fn classify(kind: &Vec<u8>, addrs: Vec<WeightedAddr>) -> (r: Update)
    ensures
        kind@ == bound_kind() ==> r == Update::Bound(addrs),
        kind@ == neg_kind() ==> r == Update::Negative,
        kind@ != bound_kind() && kind@ != neg_kind() ==> r == Update::Unknown,
{
    let bound: Vec<u8> = vec![0x62u8, 0x6fu8, 0x75u8, 0x6eu8, 0x64u8];
    let neg: Vec<u8> = vec![0x6eu8, 0x65u8, 0x67u8];
    proof {
        assert(bound@ =~= bound_kind());
        assert(neg@ =~= neg_kind());
    }
    if bytes_eq(kind, &bound) {
        Update::Bound(addrs)
    } else if bytes_eq(kind, &neg) {
        Update::Negative
    } else {
        Update::Unknown
    }
}

/// A well-formed octet between `p` and the next dot (or the end) is exactly
/// what the octet parse reads there.
proof fn lemma_octet_parse(s: Seq<u8>, p: int, e: int)
    requires
        0 <= p < e <= s.len(),
        octet_ok(s.subrange(p, e)),
        e < s.len() ==> s[e] == 0x2e,
    ensures
        spec_octet_at(s, p) == Some((digits_val(s.subrange(p, e)), e)),
        digits_val(s.subrange(p, e)) >= 0,
{
    let o = s.subrange(p, e);
    assert forall|x: int| p <= x < e implies is_digit(#[trigger] s[x]) by {
        assert(s[x] == o[x - p]);
    }
    lemma_digits_end_char(s, p, e);
    lemma_digits_val_nonneg(o);
    assert(o[0] == s[p]);
}

/// Completeness of the address parse: any dotted-quad rendering of `s` (well
/// formed octets around dots at `i < j < k`) is read to exactly its value.
pub proof fn lemma_ipv4_complete(s: Seq<u8>, i: int, j: int, k: int)
    requires
        ipv4_form(s, i, j, k),
    ensures
        spec_ipv4(s) == Some((ipv4_val(s, i, j, k) as u32)),
{
    lemma_octet_parse(s, 0, i);
    lemma_octet_parse(s, i + 1, j);
    lemma_octet_parse(s, j + 1, k);
    lemma_octet_parse(s, k + 1, s.len() as int);
    let a = digits_val(s.subrange(0, i));
    let b = digits_val(s.subrange(i + 1, j));
    let c = digits_val(s.subrange(j + 1, k));
    let d = digits_val(s.subrange(k + 1, s.len() as int));
    assert(0 <= a * 0x1000000 + b * 0x10000 + c * 0x100 + d <= 0xffffffff);
}

/// The key `"ip"`.
pub open spec fn ip_key() -> Seq<u8> {
    seq![0x69u8, 0x70u8]
}

/// The key `"port"`.
pub open spec fn port_key() -> Seq<u8> {
    seq![0x70u8, 0x6fu8, 0x72u8, 0x74u8]
}

/// The key `"meta"`.
pub open spec fn meta_key() -> Seq<u8> {
    seq![0x6du8, 0x65u8, 0x74u8, 0x61u8]
}

/// The key `"endpoint_addr_weight"`.
pub open spec fn weight_key() -> Seq<u8> {
    seq![
        0x65u8, 0x6eu8, 0x64u8, 0x70u8, 0x6fu8, 0x69u8, 0x6eu8, 0x74u8, 0x5fu8, 0x61u8, 0x64u8,
        0x64u8, 0x72u8, 0x5fu8, 0x77u8, 0x65u8, 0x69u8, 0x67u8, 0x68u8, 0x74u8,
    ]
}

/// The key `"type"`.
pub open spec fn type_key() -> Seq<u8> {
    seq![0x74u8, 0x79u8, 0x70u8, 0x65u8]
}

/// The key `"addrs"`.
pub open spec fn addrs_key() -> Seq<u8> {
    seq![0x61u8, 0x64u8, 0x64u8, 0x72u8, 0x73u8]
}

/// The members of a `meta` object from `p`: the weight in thousandths once
/// `endpoint_addr_weight` has been read (`w` so far), other members skipped,
/// and the end.
pub open spec fn spec_meta_members(b: Seq<u8>, p: int, w: Option<u32>, first: bool) -> Option<
    (Option<u32>, int),
>
    decreases b.len() - p,
{
    if !(0 <= p < b.len()) {
        None
    } else if b[p] == 0x7d {
        Some((w, p + 1))
    } else {
        let m = if first {
            p
        } else {
            if b[p] != 0x2c {
                -1
            } else {
                spec_skip_ws(b, p + 1)
            }
        };
        if m < p || b.len() <= m {
            None
        } else {
            match spec_string(b, m) {
                None => None,
                Some(key) => {
                    let i3 = spec_skip_ws(b, key.1);
                    if b.len() <= i3 || i3 < 0 || b[i3] != 0x3a {
                        None
                    } else {
                        let i4 = spec_skip_ws(b, i3 + 1);
                        if i4 <= p || b.len() < i4 {
                            None
                        } else if key.0 == weight_key() {
                            match spec_weight(b, i4) {
                                None => None,
                                Some(wq) => {
                                    let next = spec_skip_ws(b, wq.1);
                                    if next <= p || b.len() < next {
                                        None
                                    } else {
                                        spec_meta_members(b, next, Some(wq.0), false)
                                    }
                                },
                            }
                        } else {
                            match spec_value_end(b, i4) {
                                None => None,
                                Some(q) => {
                                    let next = spec_skip_ws(b, q);
                                    if next <= p || b.len() < next {
                                        None
                                    } else {
                                        spec_meta_members(b, next, w, false)
                                    }
                                },
                            }
                        }
                    }
                },
            }
        }
    }
}

/// The `meta` object at `p`: the weight it names, if any, and the end.
pub open spec fn spec_meta(b: Seq<u8>, p: int) -> Option<(Option<u32>, int)> {
    if !(0 <= p < b.len()) || b[p] != 0x7b {
        None
    } else {
        let i = spec_skip_ws(b, p + 1);
        if i <= p || b.len() < i {
            None
        } else {
            spec_meta_members(b, i, None, true)
        }
    }
}

/// The members of one address object from `p`: `ip` and `port` and `meta`
/// are required, the weight defaults to one, unknown members are skipped.
pub open spec fn spec_addr_members(
    b: Seq<u8>,
    p: int,
    ip: Option<u32>,
    port: Option<u16>,
    w: u32,
    seen_meta: bool,
    first: bool,
) -> Option<(WeightedAddr, int)>
    decreases b.len() - p,
{
    if !(0 <= p < b.len()) {
        None
    } else if b[p] == 0x7d {
        match (ip, port) {
            (Some(ipv), Some(pv)) => if seen_meta {
                Some((WeightedAddr { addr: Addr { ip: ipv, port: pv }, weight: w }, p + 1))
            } else {
                None
            },
            _ => None,
        }
    } else {
        let m = if first {
            p
        } else {
            if b[p] != 0x2c {
                -1
            } else {
                spec_skip_ws(b, p + 1)
            }
        };
        if m < p || b.len() <= m {
            None
        } else {
            match spec_string(b, m) {
                None => None,
                Some(key) => {
                    let i3 = spec_skip_ws(b, key.1);
                    if b.len() <= i3 || i3 < 0 || b[i3] != 0x3a {
                        None
                    } else {
                        let i4 = spec_skip_ws(b, i3 + 1);
                        if i4 <= p || b.len() < i4 {
                            None
                        } else if key.0 == ip_key() {
                            match spec_string(b, i4) {
                                None => None,
                                Some(istr) => match spec_ipv4(istr.0) {
                                    None => None,
                                    Some(ipv) => {
                                        let next = spec_skip_ws(b, istr.1);
                                        if next <= p || b.len() < next {
                                            None
                                        } else {
                                            spec_addr_members(
                                                b,
                                                next,
                                                Some(ipv),
                                                port,
                                                w,
                                                seen_meta,
                                                false,
                                            )
                                        }
                                    },
                                },
                            }
                        } else if key.0 == port_key() {
                            match spec_digits(b, i4) {
                                None => None,
                                Some(vq) => if vq.0 > 65535 {
                                    None
                                } else {
                                    let next = spec_skip_ws(b, vq.1);
                                    if next <= p || b.len() < next {
                                        None
                                    } else {
                                        spec_addr_members(
                                            b,
                                            next,
                                            ip,
                                            Some((vq.0 as u16)),
                                            w,
                                            seen_meta,
                                            false,
                                        )
                                    }
                                },
                            }
                        } else if key.0 == meta_key() {
                            match spec_meta(b, i4) {
                                None => None,
                                Some(mw) => {
                                    let next = spec_skip_ws(b, mw.1);
                                    if next <= p || b.len() < next {
                                        None
                                    } else {
                                        spec_addr_members(
                                            b,
                                            next,
                                            ip,
                                            port,
                                            match mw.0 {
                                                Some(x) => x,
                                                None => w,
                                            },
                                            true,
                                            false,
                                        )
                                    }
                                },
                            }
                        } else {
                            match spec_value_end(b, i4) {
                                None => None,
                                Some(q) => {
                                    let next = spec_skip_ws(b, q);
                                    if next <= p || b.len() < next {
                                        None
                                    } else {
                                        spec_addr_members(b, next, ip, port, w, seen_meta, false)
                                    }
                                },
                            }
                        }
                    }
                },
            }
        }
    }
}

/// One address object at `p`: the weighted address it decodes to and the end.
pub open spec fn spec_addr(b: Seq<u8>, p: int) -> Option<(WeightedAddr, int)> {
    if !(0 <= p < b.len()) || b[p] != 0x7b {
        None
    } else {
        let i = spec_skip_ws(b, p + 1);
        if i <= p || b.len() < i {
            None
        } else {
            spec_addr_members(b, i, None, None, DEFAULT_WEIGHT, false, true)
        }
    }
}

/// The elements of the `addrs` array from `p`, those already read in `acc`.
pub open spec fn spec_addrs_elems(b: Seq<u8>, p: int, acc: Seq<WeightedAddr>, first: bool) -> Option<
    (Seq<WeightedAddr>, int),
>
    decreases b.len() - p,
{
    if !(0 <= p < b.len()) {
        None
    } else if b[p] == 0x5d {
        Some((acc, p + 1))
    } else {
        let m = if first {
            p
        } else {
            if b[p] != 0x2c {
                -1
            } else {
                spec_skip_ws(b, p + 1)
            }
        };
        if m < p || b.len() <= m {
            None
        } else {
            match spec_addr(b, m) {
                None => None,
                Some(wq) => {
                    let next = spec_skip_ws(b, wq.1);
                    if next <= p || b.len() < next {
                        None
                    } else {
                        spec_addrs_elems(b, next, acc.push(wq.0), false)
                    }
                },
            }
        }
    }
}

/// The `addrs` array at `p`: its weighted addresses in order and the end.
pub open spec fn spec_addrs(b: Seq<u8>, p: int) -> Option<(Seq<WeightedAddr>, int)> {
    if !(0 <= p < b.len()) || b[p] != 0x5b {
        None
    } else {
        let i = spec_skip_ws(b, p + 1);
        if i <= p || b.len() < i {
            None
        } else {
            spec_addrs_elems(b, i, Seq::empty(), true)
        }
    }
}

/// The members of the response object from `p`: the `type` string (required),
/// the `addrs` (defaulting to none), other members skipped, and the end.
pub open spec fn spec_top_members(
    b: Seq<u8>,
    p: int,
    kind: Option<Seq<u8>>,
    addrs: Seq<WeightedAddr>,
    first: bool,
) -> Option<(Seq<u8>, Seq<WeightedAddr>, int)>
    decreases b.len() - p,
{
    if !(0 <= p < b.len()) {
        None
    } else if b[p] == 0x7d {
        match kind {
            Some(k) => Some((k, addrs, p + 1)),
            None => None,
        }
    } else {
        let m = if first {
            p
        } else {
            if b[p] != 0x2c {
                -1
            } else {
                spec_skip_ws(b, p + 1)
            }
        };
        if m < p || b.len() <= m {
            None
        } else {
            match spec_string(b, m) {
                None => None,
                Some(key) => {
                    let i3 = spec_skip_ws(b, key.1);
                    if b.len() <= i3 || i3 < 0 || b[i3] != 0x3a {
                        None
                    } else {
                        let i4 = spec_skip_ws(b, i3 + 1);
                        if i4 <= p || b.len() < i4 {
                            None
                        } else if key.0 == type_key() {
                            match spec_string(b, i4) {
                                None => None,
                                Some(k) => {
                                    let next = spec_skip_ws(b, k.1);
                                    if next <= p || b.len() < next {
                                        None
                                    } else {
                                        spec_top_members(b, next, Some(k.0), addrs, false)
                                    }
                                },
                            }
                        } else if key.0 == addrs_key() {
                            match spec_addrs(b, i4) {
                                None => None,
                                Some(aq) => {
                                    let next = spec_skip_ws(b, aq.1);
                                    if next <= p || b.len() < next {
                                        None
                                    } else {
                                        spec_top_members(b, next, kind, aq.0, false)
                                    }
                                },
                            }
                        } else {
                            match spec_value_end(b, i4) {
                                None => None,
                                Some(q) => {
                                    let next = spec_skip_ws(b, q);
                                    if next <= p || b.len() < next {
                                        None
                                    } else {
                                        spec_top_members(b, next, kind, addrs, false)
                                    }
                                },
                            }
                        }
                    }
                },
            }
        }
    }
}

/// What a whole response body decodes to: the `type` string and the decoded
/// weighted addresses, or nothing when the body is malformed.
pub open spec fn spec_response(b: Seq<u8>) -> Option<(Seq<u8>, Seq<WeightedAddr>)> {
    let s = spec_skip_ws(b, 0);
    if !(0 <= s < b.len()) || b[s] != 0x7b {
        None
    } else {
        let i = spec_skip_ws(b, s + 1);
        if i <= s || b.len() < i {
            None
        } else {
            match spec_top_members(b, i, None, Seq::empty(), true) {
                None => None,
                Some(ka) => if spec_skip_ws(b, ka.2) == b.len() {
                    Some((ka.0, ka.1))
                } else {
                    None
                },
            }
        }
    }
}

/// The `meta` object's members: exactly `spec_meta_members`.
fn meta_members(b: &Vec<u8>, p: usize, w: Option<u32>, first: bool) -> (r: Option<
    (Option<u32>, usize),
>)
    requires
        p <= b@.len(),
    ensures
        match r {
            Some((wr, q)) => p < q <= b@.len() && spec_meta_members(b@, p as int, w, first)
                == Some((wr, q as int)),
            None => spec_meta_members(b@, p as int, w, first) is None,
        },
    decreases b@.len() - p,
{
    if p >= b.len() {
        return None;
    }
    if b[p] == 0x7d {
        return Some((w, p + 1));
    }
    let m = if first {
        p
    } else {
        if b[p] != 0x2c {
            return None;
        }
        skip_ws(b, p + 1)
    };
    if m >= b.len() {
        return None;
    }
    let (key, i2) = match parse_string(b, m) {
        Some(v) => v,
        None => {
            return None;
        },
    };
    let i3 = skip_ws(b, i2);
    if i3 >= b.len() || b[i3] != 0x3a {
        return None;
    }
    let i4 = skip_ws(b, i3 + 1);
    let key_weight: Vec<u8> = vec![
        0x65u8, 0x6eu8, 0x64u8, 0x70u8, 0x6fu8, 0x69u8, 0x6eu8, 0x74u8, 0x5fu8, 0x61u8, 0x64u8,
        0x64u8, 0x72u8, 0x5fu8, 0x77u8, 0x65u8, 0x69u8, 0x67u8, 0x68u8, 0x74u8,
    ];
    proof {
        assert(key_weight@ =~= weight_key());
    }
    if bytes_eq(&key, &key_weight) {
        let (wv, q) = match parse_weight(b, i4) {
            Some(v) => v,
            None => {
                return None;
            },
        };
        let next = skip_ws(b, q);
        meta_members(b, next, Some(wv), false)
    } else {
        let q = match skip_value(b, i4) {
            Some(v) => v,
            None => {
                return None;
            },
        };
        let next = skip_ws(b, q);
        meta_members(b, next, w, false)
    }
}

/// The `meta` object at `pos`: exactly `spec_meta`.
fn parse_meta(b: &Vec<u8>, pos: usize) -> (r: Option<(Option<u32>, usize)>)
    requires
        pos <= b@.len(),
    ensures
        match r {
            Some((w, q)) => pos < q <= b@.len() && spec_meta(b@, pos as int) == Some(
                (w, q as int),
            ),
            None => spec_meta(b@, pos as int) is None,
        },
{
    if pos >= b.len() || b[pos] != 0x7b {
        return None;
    }
    let i = skip_ws(b, pos + 1);
    meta_members(b, i, None, true)
}

/// One address object's members: exactly `spec_addr_members`.
fn addr_members(
    b: &Vec<u8>,
    p: usize,
    ip: Option<u32>,
    port: Option<u16>,
    w: u32,
    seen_meta: bool,
    first: bool,
) -> (r: Option<(WeightedAddr, usize)>)
    requires
        p <= b@.len(),
    ensures
        match r {
            Some((wa, q)) => p < q <= b@.len() && spec_addr_members(
                b@,
                p as int,
                ip,
                port,
                w,
                seen_meta,
                first,
            ) == Some((wa, q as int)),
            None => spec_addr_members(b@, p as int, ip, port, w, seen_meta, first) is None,
        },
    decreases b@.len() - p,
{
    if p >= b.len() {
        return None;
    }
    if b[p] == 0x7d {
        return match (ip, port) {
            (Some(ipv), Some(pv)) => if seen_meta {
                Some((WeightedAddr { addr: Addr { ip: ipv, port: pv }, weight: w }, p + 1))
            } else {
                None
            },
            _ => None,
        };
    }
    let m = if first {
        p
    } else {
        if b[p] != 0x2c {
            return None;
        }
        skip_ws(b, p + 1)
    };
    if m >= b.len() {
        return None;
    }
    let (key, i2) = match parse_string(b, m) {
        Some(v) => v,
        None => {
            return None;
        },
    };
    let i3 = skip_ws(b, i2);
    if i3 >= b.len() || b[i3] != 0x3a {
        return None;
    }
    let i4 = skip_ws(b, i3 + 1);
    let key_ip: Vec<u8> = vec![0x69u8, 0x70u8];
    let key_port: Vec<u8> = vec![0x70u8, 0x6fu8, 0x72u8, 0x74u8];
    let key_meta: Vec<u8> = vec![0x6du8, 0x65u8, 0x74u8, 0x61u8];
    proof {
        assert(key_ip@ =~= ip_key());
        assert(key_port@ =~= port_key());
        assert(key_meta@ =~= meta_key());
    }
    if bytes_eq(&key, &key_ip) {
        let (istr, q) = match parse_string(b, i4) {
            Some(v) => v,
            None => {
                return None;
            },
        };
        let ipv = match parse_ipv4(&istr) {
            Some(v) => v,
            None => {
                return None;
            },
        };
        let next = skip_ws(b, q);
        addr_members(b, next, Some(ipv), port, w, seen_meta, false)
    } else if bytes_eq(&key, &key_port) {
        let (pv, q) = match parse_digits(b, i4) {
            Some(v) => v,
            None => {
                return None;
            },
        };
        if pv > 65535 {
            return None;
        }
        let next = skip_ws(b, q);
        addr_members(b, next, ip, Some(pv as u16), w, seen_meta, false)
    } else if bytes_eq(&key, &key_meta) {
        let (mw, q) = match parse_meta(b, i4) {
            Some(v) => v,
            None => {
                return None;
            },
        };
        let w2 = match mw {
            Some(x) => x,
            None => w,
        };
        let next = skip_ws(b, q);
        addr_members(b, next, ip, port, w2, true, false)
    } else {
        let q = match skip_value(b, i4) {
            Some(v) => v,
            None => {
                return None;
            },
        };
        let next = skip_ws(b, q);
        addr_members(b, next, ip, port, w, seen_meta, false)
    }
}

/// One address object at `pos`: exactly `spec_addr`.
fn parse_addr(b: &Vec<u8>, pos: usize) -> (r: Option<(WeightedAddr, usize)>)
    requires
        pos <= b@.len(),
    ensures
        match r {
            Some((wa, q)) => pos < q <= b@.len() && spec_addr(b@, pos as int) == Some(
                (wa, q as int),
            ),
            None => spec_addr(b@, pos as int) is None,
        },
{
    if pos >= b.len() || b[pos] != 0x7b {
        return None;
    }
    let i = skip_ws(b, pos + 1);
    addr_members(b, i, None, None, DEFAULT_WEIGHT, false, true)
}

/// The `addrs` array's elements: exactly `spec_addrs_elems`.
fn addrs_elems(b: &Vec<u8>, p: usize, acc: Vec<WeightedAddr>, first: bool) -> (r: Option<
    (Vec<WeightedAddr>, usize),
>)
    requires
        p <= b@.len(),
    ensures
        match r {
            Some((v, q)) => p < q <= b@.len() && spec_addrs_elems(b@, p as int, acc@, first)
                == Some((v@, q as int)),
            None => spec_addrs_elems(b@, p as int, acc@, first) is None,
        },
    decreases b@.len() - p,
{
    if p >= b.len() {
        return None;
    }
    if b[p] == 0x5d {
        return Some((acc, p + 1));
    }
    let m = if first {
        p
    } else {
        if b[p] != 0x2c {
            return None;
        }
        skip_ws(b, p + 1)
    };
    if m >= b.len() {
        return None;
    }
    let (wa, q) = match parse_addr(b, m) {
        Some(v) => v,
        None => {
            return None;
        },
    };
    let next = skip_ws(b, q);
    let mut acc2 = acc;
    acc2.push(wa);
    addrs_elems(b, next, acc2, false)
}

/// The `addrs` array at `pos`: exactly `spec_addrs`.
fn parse_addrs(b: &Vec<u8>, pos: usize) -> (r: Option<(Vec<WeightedAddr>, usize)>)
    requires
        pos <= b@.len(),
    ensures
        match r {
            Some((v, q)) => pos < q <= b@.len() && spec_addrs(b@, pos as int) == Some(
                (v@, q as int),
            ),
            None => spec_addrs(b@, pos as int) is None,
        },
{
    if pos >= b.len() || b[pos] != 0x5b {
        return None;
    }
    let i = skip_ws(b, pos + 1);
    addrs_elems(b, i, Vec::new(), true)
}

/// The response object's members: exactly `spec_top_members`.
fn top_members(b: &Vec<u8>, p: usize, kind: Option<Vec<u8>>, addrs: Vec<WeightedAddr>, first: bool)
    -> (r: Option<(Vec<u8>, Vec<WeightedAddr>, usize)>)
    requires
        p <= b@.len(),
    ensures
        ({
            let sk = match kind {
                Some(k) => Some(k@),
                None => None,
            };
            match r {
                Some((rk, ra, q)) => p < q <= b@.len() && spec_top_members(
                    b@,
                    p as int,
                    sk,
                    addrs@,
                    first,
                ) == Some((rk@, ra@, q as int)),
                None => spec_top_members(b@, p as int, sk, addrs@, first) is None,
            }
        }),
    decreases b@.len() - p,
{
    if p >= b.len() {
        return None;
    }
    if b[p] == 0x7d {
        return match kind {
            Some(k) => Some((k, addrs, p + 1)),
            None => None,
        };
    }
    let m = if first {
        p
    } else {
        if b[p] != 0x2c {
            return None;
        }
        skip_ws(b, p + 1)
    };
    if m >= b.len() {
        return None;
    }
    let (key, i2) = match parse_string(b, m) {
        Some(v) => v,
        None => {
            return None;
        },
    };
    let i3 = skip_ws(b, i2);
    if i3 >= b.len() || b[i3] != 0x3a {
        return None;
    }
    let i4 = skip_ws(b, i3 + 1);
    let key_type: Vec<u8> = vec![0x74u8, 0x79u8, 0x70u8, 0x65u8];
    let key_addrs: Vec<u8> = vec![0x61u8, 0x64u8, 0x64u8, 0x72u8, 0x73u8];
    proof {
        assert(key_type@ =~= type_key());
        assert(key_addrs@ =~= addrs_key());
    }
    if bytes_eq(&key, &key_type) {
        let (k, q) = match parse_string(b, i4) {
            Some(v) => v,
            None => {
                return None;
            },
        };
        let next = skip_ws(b, q);
        top_members(b, next, Some(k), addrs, false)
    } else if bytes_eq(&key, &key_addrs) {
        let (a, q) = match parse_addrs(b, i4) {
            Some(v) => v,
            None => {
                return None;
            },
        };
        let next = skip_ws(b, q);
        top_members(b, next, kind, a, false)
    } else {
        let q = match skip_value(b, i4) {
            Some(v) => v,
            None => {
                return None;
            },
        };
        let next = skip_ws(b, q);
        top_members(b, next, kind, addrs, false)
    }
}

/// Decodes a discovery response body: the whole body must be one JSON object
/// with a string `type`; `addrs` defaults to the empty array; any malformed
/// byte (an invalid IP or port among them) fails the whole response. The
/// result is exactly what `spec_response` reads from the bytes: a `"bound"`
/// type yields the decoded weighted addresses, `"neg"` the negative update,
/// any other type the empty unknown update, and a malformed body the error.
pub fn decode(b: &Vec<u8>) -> (r: Result<Update, NamerdError>)
    ensures
        match spec_response(b@) {
            Some(ka) => {
                &&& (ka.0 == bound_kind() ==> (r matches Ok(Update::Bound(v)) && v@ == ka.1))
                &&& (ka.0 == neg_kind() ==> r == Ok::<Update, NamerdError>(Update::Negative))
                &&& (ka.0 != bound_kind() && ka.0 != neg_kind() ==> r == Ok::<
                    Update,
                    NamerdError,
                >(Update::Unknown))
            },
            None => r is Err,
        },
{
    let start = skip_ws(b, 0);
    if start >= b.len() || b[start] != 0x7b {
        return Err(NamerdError(String::from_str("response is not a JSON object")));
    }
    let i = skip_ws(b, start + 1);
    let (kind, addrs, end) = match top_members(b, i, None, Vec::new(), true) {
        Some(v) => v,
        None => {
            return Err(NamerdError(String::from_str("malformed response object")));
        },
    };
    let rest = skip_ws(b, end);
    if rest != b.len() {
        return Err(NamerdError(String::from_str("trailing bytes after response")));
    }
    Ok(classify(&kind, addrs))
}

/// The outcome of one poll, as handed to the balancer.
pub enum PollOutcome {
    /// A decoded answer: the balancer reconciles against its address set.
    Emit(Update),
    /// Transport failure, bad status or decode failure: no update; the
    /// balancer retains its last known state.
    NoUpdate(NamerdError),
}

impl PollOutcome {
    /// Whether this poll counts as a success.
    pub open spec fn is_success(self) -> bool {
        self is Emit
    }
}

/// Judges one finished poll from what the transport and the decoder
/// produced: the update is emitted exactly when the transport delivered a
/// body with HTTP status 200 and the body decoded; every other outcome
/// emits nothing and counts as a failure.
pub fn outcome_of(status_200: bool, decoded: Option<Result<Update, NamerdError>>) -> (r:
    PollOutcome)
    ensures
        match r {
            PollOutcome::Emit(u) => status_200 && decoded == Some(Result::<
                Update,
                NamerdError,
            >::Ok(u)),
            PollOutcome::NoUpdate(_) => !status_200 || decoded is None || !(decoded->0 is Ok),
        },
{
    match decoded {
        None => PollOutcome::NoUpdate(NamerdError(String::from_str("transport error"))),
        Some(result) => {
            if !status_200 {
                PollOutcome::NoUpdate(NamerdError(String::from_str("bad response status")))
            } else {
                match result {
                    Ok(u) => PollOutcome::Emit(u),
                    Err(e) => PollOutcome::NoUpdate(e),
                }
            }
        },
    }
}

/// One whole poll judgement: decodes the body, when one arrived, and judges
/// the outcome as `outcome_of` does. An update is emitted exactly when the
/// transport delivered a body with HTTP status 200 and the body decodes; the
/// emitted update is exactly the decoded one.
pub fn poll_outcome(status_200: bool, body: Option<&Vec<u8>>) -> (r: PollOutcome)
    ensures
        match body {
            Some(bytes) => {
                &&& (status_200 && spec_response(bytes@) is Some ==> r is Emit)
                &&& (r matches PollOutcome::Emit(u) ==> status_200 && match spec_response(bytes@) {
                    Some(ka) => {
                        &&& (ka.0 == bound_kind() ==> (u matches Update::Bound(v) && v@ == ka.1))
                        &&& (ka.0 == neg_kind() ==> u == Update::Negative)
                        &&& (ka.0 != bound_kind() && ka.0 != neg_kind() ==> u == Update::Unknown)
                    },
                    None => false,
                })
                &&& (!status_200 || spec_response(bytes@) is None ==> r is NoUpdate)
            },
            None => r is NoUpdate,
        },
{
    let decoded = match body {
        None => None,
        Some(bytes) => Some(decode(bytes)),
    };
    outcome_of(status_200, decoded)
}

/// The set an answer leaves with the balancer: the bound addresses, or the
/// empty set for a negative or unknown answer.
pub fn emitted_set(u: Update) -> (r: Vec<WeightedAddr>)
    ensures
        match u {
            Update::Bound(v) => r == v,
            Update::Negative => r@ =~= Seq::<WeightedAddr>::empty(),
            Update::Unknown => r@ =~= Seq::<WeightedAddr>::empty(),
        },
{
    match u {
        Update::Bound(v) => v,
        Update::Negative => Vec::new(),
        Update::Unknown => Vec::new(),
    }
}

/// The bytes of all chunks of a response body, in order.
pub open spec fn chunks_flat(s: Seq<Vec<u8>>) -> Seq<u8>
    decreases s.len(),
{
    if s.len() == 0 {
        Seq::empty()
    } else {
        chunks_flat(s.drop_last()) + s.last()@
    }
}

/// A prefix of the chunks never holds more bytes than the whole.
pub proof fn lemma_chunks_prefix(s: Seq<Vec<u8>>, n: int)
    requires
        0 <= n <= s.len(),
    ensures
        chunks_flat(s.take(n)).len() <= chunks_flat(s).len(),
    decreases s.len(),
{
    if s.len() == 0 {
    } else if n == s.len() {
        assert(s.take(n) =~= s);
    } else {
        assert(s.take(n) =~= s.drop_last().take(n));
        lemma_chunks_prefix(s.drop_last(), n);
    }
}

/// The number of body bytes across all chunks.
pub fn bytes_in(chunks: &Vec<Vec<u8>>) -> (r: usize)
    requires
        chunks_flat(chunks@).len() <= usize::MAX,
    ensures
        r == chunks_flat(chunks@).len(),
{
    let mut sz: usize = 0;
    let mut i: usize = 0;
    while i < chunks.len()
        invariant
            i <= chunks@.len(),
            sz == chunks_flat(chunks@.take(i as int)).len(),
            chunks_flat(chunks@).len() <= usize::MAX,
        decreases chunks@.len() - i,
    {
        proof {
            assert(chunks@.take(i as int + 1).drop_last() =~= chunks@.take(i as int));
            assert(chunks@.take(i as int + 1).last() == chunks@[i as int]);
            lemma_chunks_prefix(chunks@, i as int + 1);
        }
        sz = sz + chunks[i].len();
        i += 1;
    }
    proof {
        assert(chunks@.take(chunks@.len() as int) =~= chunks@);
    }
    sz
}

/// Joins the body chunks into one buffer, in order, byte for byte.
pub fn to_buf(chunks: &Vec<Vec<u8>>) -> (r: Vec<u8>)
    requires
        chunks_flat(chunks@).len() <= usize::MAX,
    ensures
        r@ == chunks_flat(chunks@),
{
    let mut buf: Vec<u8> = Vec::new();
    let mut i: usize = 0;
    while i < chunks.len()
        invariant
            i <= chunks@.len(),
            buf@ == chunks_flat(chunks@.take(i as int)),
        decreases chunks@.len() - i,
    {
        proof {
            assert(chunks@.take(i as int + 1).drop_last() =~= chunks@.take(i as int));
            assert(chunks@.take(i as int + 1).last() == chunks@[i as int]);
        }
        let c = &chunks[i];
        buf.extend_from_slice(c.as_slice());
        i += 1;
    }
    proof {
        assert(chunks@.take(chunks@.len() as int) =~= chunks@);
    }
    buf
}

/// Whether `b` passes into a query string unescaped.
pub open spec fn unreserved(b: u8) -> bool {
    ||| 0x41 <= b <= 0x5a  // A-Z
    ||| 0x61 <= b <= 0x7a  // a-z
    ||| 0x30 <= b <= 0x39  // 0-9
    ||| b == 0x2d  // -
    ||| b == 0x5f  // _
    ||| b == 0x2e  // .
    ||| b == 0x7e  // ~
}

/// The lower-case hex digit for `d` (at most fifteen).
pub open spec fn hex_digit(d: int) -> u8 {
    if d < 10 {
        (0x30 + d) as u8
    } else {
        (0x57 + d) as u8
    }
}

/// How one byte stands in a query string: itself when unreserved, otherwise
/// percent followed by its two hex digits.
pub open spec fn escape_one(b: u8) -> Seq<u8> {
    if unreserved(b) {
        seq![b]
    } else {
        seq![0x25u8, hex_digit(b as int / 16), hex_digit(b as int % 16)]
    }
}

/// The query-escaped form of `s`: each byte in order, escaped on its own.
pub open spec fn spec_escape(s: Seq<u8>) -> Seq<u8>
    decreases s.len(),
{
    if s.len() == 0 {
        Seq::empty()
    } else {
        spec_escape(s.drop_last()) + escape_one(s.last())
    }
}

/// The fixed path under which a namespace is resolved.
pub open spec fn resolve_prefix() -> Seq<u8> {
    // "/api/1/resolve/"
    seq![
        0x2fu8, 0x61u8, 0x70u8, 0x69u8, 0x2fu8, 0x31u8, 0x2fu8, 0x72u8, 0x65u8, 0x73u8, 0x6fu8,
        0x6cu8, 0x76u8, 0x65u8, 0x2fu8,
    ]
}

/// The query marker naming the target path.
pub open spec fn path_query() -> Seq<u8> {
    // "?path="
    seq![0x3fu8, 0x70u8, 0x61u8, 0x74u8, 0x68u8, 0x3du8]
}

/// The request path and query for one poll:
/// `/api/1/resolve/{namespace}?path={target}`, the target query-escaped. The
/// namespace stands as given; it names a path segment of its own.
pub fn resolve_path(namespace: &Vec<u8>, target: &Vec<u8>) -> (r: Vec<u8>)
    ensures
        r@ == resolve_prefix() + namespace@ + path_query() + spec_escape(target@),
{
    let mut out: Vec<u8> = vec![
        0x2fu8, 0x61u8, 0x70u8, 0x69u8, 0x2fu8, 0x31u8, 0x2fu8, 0x72u8, 0x65u8, 0x73u8, 0x6fu8,
        0x6cu8, 0x76u8, 0x65u8, 0x2fu8,
    ];
    proof {
        assert(out@ =~= resolve_prefix());
    }
    out.extend_from_slice(namespace.as_slice());
    let marker: Vec<u8> = vec![0x3fu8, 0x70u8, 0x61u8, 0x74u8, 0x68u8, 0x3du8];
    proof {
        assert(marker@ =~= path_query());
    }
    out.extend_from_slice(marker.as_slice());
    let ghost head = resolve_prefix() + namespace@ + path_query();
    proof {
        assert(out@ =~= head);
    }
    let mut i: usize = 0;
    while i < target.len()
        invariant
            i <= target@.len(),
            out@ == head + spec_escape(target@.take(i as int)),
        decreases target@.len() - i,
    {
        let b = target[i];
        let ghost pre = spec_escape(target@.take(i as int));
        let keep = (0x41 <= b && b <= 0x5a) || (0x61 <= b && b <= 0x7a) || (0x30 <= b && b
            <= 0x39) || b == 0x2d || b == 0x5f || b == 0x2e || b == 0x7e;
        if keep {
            out.push(b);
        } else {
            out.push(0x25);
            let hi = b / 16;
            let lo = b % 16;
            out.push(
                if hi < 10 {
                    0x30 + hi
                } else {
                    0x57 + hi
                },
            );
            out.push(
                if lo < 10 {
                    0x30 + lo
                } else {
                    0x57 + lo
                },
            );
        }
        proof {
            assert(target@.take(i as int + 1).drop_last() =~= target@.take(i as int));
            assert(target@.take(i as int + 1).last() == b);
            assert(keep == unreserved(b));
            assert(out@ =~= head + (pre + escape_one(b)));
        }
        i += 1;
    }
    proof {
        assert(target@.take(target@.len() as int) =~= target@);
    }
    out
}

} // verus!
