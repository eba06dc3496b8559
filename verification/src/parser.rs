//! Line parser for the market-data text files.
//!
//! Symbols file lines: `SYMBOL <inst_id> <price> <name>`.
//! Order file lines:
//!   `BUY  <order_type> <inst_id> <price> <qty> <order_id>`
//!   `SELL <order_type> <inst_id> <price> <qty> <order_id>`
//!   `MODIFY <inst_id> <order_id> <side> <price> <qty>`
//!   `CANCEL <inst_id> <order_id>`
//! where `<order_type>` is `GFD` or `IOC` and `<side>` is `BUY` or `SELL`.
//!
//! Words and numbers are read from the UTF-8 bytes of the text. Prices are
//! decimal fractions; they are handed back as text, for the caller to scale.
use vstd::prelude::*;
use vstd::string::StringSliceAdditionalSpecFns;
use vstd::utf8::{decode_utf8, encode_utf8};

use crate::messages::CancelOrderMsg;
use crate::types::{Action, InstrumentId, OrderId, OrderType, Quantity, Side};

verus! {

broadcast use vstd::utf8::encode_utf8_valid_utf8, vstd::utf8::encode_utf8_decode_utf8;

// ── Numbers ─────────────────────────────────────────────────────────────────

pub open spec fn is_digit(b: u8) -> bool {
    48 <= b <= 57
}

/// The value of a string of decimal digits.
pub open spec fn digits_value(d: Seq<u8>) -> nat
    decreases d.len(),
{
    if d.len() == 0 {
        0
    } else {
        digits_value(d.drop_last()) * 10 + (d.last() - 48) as nat
    }
}

/// The bytes of a number without its optional leading `+`.
pub open spec fn unsigned_part(b: Seq<u8>) -> Seq<u8> {
    if b.len() > 0 && b[0] == 43 {
        b.drop_first()
    } else {
        b
    }
}

pub open spec fn all_digits(d: Seq<u8>) -> bool {
    forall|i: int| 0 <= i < d.len() ==> is_digit(#[trigger] d[i])
}

/// How an unsigned 64-bit integer is read: an optional `+`, then one or more
/// decimal digits whose value fits in 64 bits; nothing else.
pub open spec fn parse_u64_spec(b: Seq<u8>) -> Option<u64> {
    let d = unsigned_part(b);
    if d.len() > 0 && all_digits(d) && digits_value(d) <= u64::MAX {
        Some(digits_value(d) as u64)
    } else {
        None
    }
}

/// A longer string of digits has at least the value of its prefix.
proof fn lemma_digits_value_grows(d: Seq<u8>, k: int)
    requires
        0 <= k <= d.len(),
        forall|i: int| 0 <= i < d.len() ==> is_digit(#[trigger] d[i]),
    ensures
        digits_value(d.subrange(0, k)) <= digits_value(d),
    decreases d.len() - k,
{
    if k < d.len() {
        lemma_digits_value_grows(d, k + 1);
        let p = d.subrange(0, k + 1);
        assert(p.drop_last() =~= d.subrange(0, k));
        assert(digits_value(p) == digits_value(d.subrange(0, k)) * 10 + (p.last() - 48) as nat);
    } else {
        assert(d.subrange(0, k) =~= d);
    }
}

/// Read an unsigned 64-bit integer from the whole of `s` (see `parse_u64_spec`).
pub fn parse_u64(s: &str) -> (r: Option<u64>)
    ensures
        r == parse_u64_spec(s.spec_bytes()),
{
    let b = s.as_bytes();
    let n = b.len();
    let start: usize = if n > 0 && b[0] == 43 {
        1
    } else {
        0
    };
    let ghost d = unsigned_part(b@);
    assert(d =~= b@.subrange(start as int, n as int));
    if start == n {
        return None;
    }
    let mut v: u64 = 0;
    let mut i: usize = start;
    while i < n
        invariant
            start <= i <= n,
            n == b@.len(),
            b@ == s.spec_bytes(),
            d == unsigned_part(b@),
            d =~= b@.subrange(start as int, n as int),
            forall|j: int| start <= j < i ==> is_digit(#[trigger] b@[j]),
            v == digits_value(b@.subrange(start as int, i as int)),
        decreases n - i,
    {
        let c = b[i];
        if c < 48 || c > 57 {
            assert(!is_digit(d[i - start]));
            assert(!all_digits(d));
            assert(parse_u64_spec(s.spec_bytes()) is None);
            return None;
        }
        let digit = (c - 48) as u64;
        let ghost p = b@.subrange(start as int, i as int + 1);
        assert(p.drop_last() =~= b@.subrange(start as int, i as int));
        if v > (u64::MAX - digit) / 10 {
            proof {
                assert(v * 10 + digit > u64::MAX) by (nonlinear_arith)
                    requires
                        v > (u64::MAX - digit) / 10,
                        digit <= 9,
                ;
                if all_digits(d) {
                    lemma_digits_value_grows(d, i - start + 1);
                    assert(d.subrange(0, i - start + 1) =~= p);
                    assert(digits_value(p) > u64::MAX);
                }
                assert(parse_u64_spec(s.spec_bytes()) is None);
            }
            return None;
        }
        assert(v * 10 + digit <= u64::MAX) by (nonlinear_arith)
            requires
                v <= (u64::MAX - digit) / 10,
                digit <= 9,
        ;
        v = v * 10 + digit;
        i = i + 1;
    }
    Some(v)
}

// ── Keywords ────────────────────────────────────────────────────────────────

/// Whether the bytes `b` spell the ASCII word `w`.
pub(crate) fn is_word(b: &[u8], w: &[u8]) -> (r: bool)
    ensures
        r == (b@ == w@),
{
    if b.len() != w.len() {
        return false;
    }
    let mut i: usize = 0;
    while i < b.len()
        invariant
            i <= b@.len(),
            b@.len() == w@.len(),
            forall|j: int| 0 <= j < i ==> b@[j] == w@[j],
        decreases b@.len() - i,
    {
        if b[i] != w[i] {
            return false;
        }
        i = i + 1;
    }
    assert(b@ =~= w@);
    true
}

pub open spec fn word_buy() -> Seq<u8> {
    seq![66u8, 85, 89]
}

pub open spec fn word_sell() -> Seq<u8> {
    seq![83u8, 69, 76, 76]
}

pub open spec fn word_cancel() -> Seq<u8> {
    seq![67u8, 65, 78, 67, 69, 76]
}

pub open spec fn word_modify() -> Seq<u8> {
    seq![77u8, 79, 68, 73, 70, 89]
}

pub open spec fn word_print() -> Seq<u8> {
    seq![80u8, 82, 73, 78, 84]
}

pub open spec fn word_symbol() -> Seq<u8> {
    seq![83u8, 89, 77, 66, 79, 76]
}

pub open spec fn word_gfd() -> Seq<u8> {
    seq![71u8, 70, 68]
}

pub open spec fn word_ioc() -> Seq<u8> {
    seq![73u8, 79, 67]
}

/// The action a word names: `BUY`, `SELL`, `CANCEL`, `MODIFY`, `PRINT`, `SYMBOL`.
pub open spec fn action_of(b: Seq<u8>) -> Action {
    if b == word_buy() {
        Action::Buy
    } else if b == word_sell() {
        Action::Sell
    } else if b == word_cancel() {
        Action::Cancel
    } else if b == word_modify() {
        Action::Modify
    } else if b == word_print() {
        Action::Print
    } else if b == word_symbol() {
        Action::Symbol
    } else {
        Action::Invalid
    }
}

/// The side a word names: `BUY` or `SELL`.
pub open spec fn side_of(b: Seq<u8>) -> Option<Side> {
    if b == word_buy() {
        Some(Side::Bid)
    } else if b == word_sell() {
        Some(Side::Ask)
    } else {
        None
    }
}

/// The order type a word names: `GFD` or `IOC`.
pub open spec fn order_type_of(b: Seq<u8>) -> Option<OrderType> {
    if b == word_gfd() {
        Some(OrderType::Gfd)
    } else if b == word_ioc() {
        Some(OrderType::Ioc)
    } else {
        None
    }
}

pub fn parse_action(s: &str) -> (a: Action)
    ensures
        a == action_of(s.spec_bytes()),
{
    let b = s.as_bytes();
    let buy: [u8; 3] = [66, 85, 89];
    let sell: [u8; 4] = [83, 69, 76, 76];
    let cancel: [u8; 6] = [67, 65, 78, 67, 69, 76];
    let modify: [u8; 6] = [77, 79, 68, 73, 70, 89];
    let print: [u8; 5] = [80, 82, 73, 78, 84];
    let symbol: [u8; 6] = [83, 89, 77, 66, 79, 76];
    assert(buy@ =~= word_buy());
    assert(sell@ =~= word_sell());
    assert(cancel@ =~= word_cancel());
    assert(modify@ =~= word_modify());
    assert(print@ =~= word_print());
    assert(symbol@ =~= word_symbol());
    if is_word(b, buy.as_slice()) {
        Action::Buy
    } else if is_word(b, sell.as_slice()) {
        Action::Sell
    } else if is_word(b, cancel.as_slice()) {
        Action::Cancel
    } else if is_word(b, modify.as_slice()) {
        Action::Modify
    } else if is_word(b, print.as_slice()) {
        Action::Print
    } else if is_word(b, symbol.as_slice()) {
        Action::Symbol
    } else {
        Action::Invalid
    }
}

pub fn parse_side(s: &str) -> (r: Option<Side>)
    ensures
        r == side_of(s.spec_bytes()),
{
    let b = s.as_bytes();
    let buy: [u8; 3] = [66, 85, 89];
    let sell: [u8; 4] = [83, 69, 76, 76];
    assert(buy@ =~= word_buy());
    assert(sell@ =~= word_sell());
    if is_word(b, buy.as_slice()) {
        Some(Side::Bid)
    } else if is_word(b, sell.as_slice()) {
        Some(Side::Ask)
    } else {
        None
    }
}

pub fn parse_order_type(s: &str) -> (r: Option<OrderType>)
    ensures
        r == order_type_of(s.spec_bytes()),
{
    let b = s.as_bytes();
    let gfd: [u8; 3] = [71, 70, 68];
    let ioc: [u8; 3] = [73, 79, 67];
    assert(gfd@ =~= word_gfd());
    assert(ioc@ =~= word_ioc());
    if is_word(b, gfd.as_slice()) {
        Some(OrderType::Gfd)
    } else if is_word(b, ioc.as_slice()) {
        Some(OrderType::Ioc)
    } else {
        None
    }
}

// ── Splitting ───────────────────────────────────────────────────────────────

/// `i` is the index of the first byte `x` of `b`.
pub open spec fn is_first_byte(b: Seq<u8>, x: u8, i: int) -> bool {
    &&& 0 <= i < b.len()
    &&& b[i] == x
    &&& forall|j: int| 0 <= j < i ==> b[j] != x
}

pub open spec fn first_byte(b: Seq<u8>, x: u8) -> int {
    choose|i: int| is_first_byte(b, x, i)
}

pub open spec fn has_byte(b: Seq<u8>, x: u8) -> bool {
    exists|i: int| is_first_byte(b, x, i)
}

/// The ASCII space.
pub open spec fn space() -> u8 {
    32
}

proof fn lemma_first_byte_unique(b: Seq<u8>, x: u8, i: int)
    requires
        is_first_byte(b, x, i),
    ensures
        has_byte(b, x),
        first_byte(b, x) == i,
{
    let k = first_byte(b, x);
    assert(is_first_byte(b, x, k));
    if k < i {
        assert(b[k] != x);
    } else if k > i {
        assert(b[i] != x);
    }
}

/// Split `s` at its first byte `x` (an ASCII character): the text before it and
/// the text after it.
pub fn split_at_byte(s: &str, x: u8) -> (r: Option<(&str, &str)>)
    requires
        x < 128,
    ensures
        r is None <==> !has_byte(s.spec_bytes(), x),
        r matches Some((a, b)) ==> {
            let i = first_byte(s.spec_bytes(), x);
            &&& a.spec_bytes() == s.spec_bytes().take(i)
            &&& b.spec_bytes() == s.spec_bytes().skip(i + 1)
        },
{
    let bytes = s.as_bytes();
    let n = bytes.len();
    let mut i: usize = 0;
    while i < n && bytes[i] != x
        invariant
            i <= n,
            n == bytes@.len(),
            forall|j: int| 0 <= j < i ==> bytes@[j] != x,
        decreases n - i,
    {
        i = i + 1;
    }
    if i == n {
        assert(!has_byte(s.spec_bytes(), x)) by {
            if has_byte(s.spec_bytes(), x) {
                let k = choose|k: int| is_first_byte(s.spec_bytes(), x, k);
                assert(bytes@[k] != x);
            }
        }
        return None;
    }
    proof {
        lemma_first_byte_unique(s.spec_bytes(), x, i as int);
        vstd::utf8::is_char_boundary_iff_not_is_continuation_byte(s.spec_bytes(), i as int);
    }
    let (before, rest) = s.split_at(i);
    proof {
        let rb = rest.spec_bytes();
        assert(rb[0] == x);
        if rb.len() == 1 {
            vstd::utf8::is_char_boundary_start_end_of_seq(rb);
        } else {
            reveal_with_fuel(vstd::utf8::is_char_boundary, 2);
            assert(vstd::utf8::length_of_first_scalar(rb) == 1);
            assert(vstd::utf8::is_char_boundary(rb, 1));
        }
    }
    let (_x, after) = rest.split_at(1);
    assert(after.spec_bytes() =~= s.spec_bytes().skip(i + 1));
    Some((before, after))
}

/// Whitespace in the sense of Unicode's `White_Space` property, as `char::is_whitespace` reads it.
pub open spec fn is_unicode_whitespace(c: char) -> bool {
    ||| '\t' <= c <= '\r'
    ||| c == ' '
    ||| c == '\u{85}'
    ||| c == '\u{a0}'
    ||| c == '\u{1680}'
    ||| '\u{2000}' <= c <= '\u{200a}'
    ||| c == '\u{2028}'
    ||| c == '\u{2029}'
    ||| c == '\u{202f}'
    ||| c == '\u{205f}'
    ||| c == '\u{3000}'
}

/// `k` characters of whitespace lead `s`, and no more.
pub open spec fn leading_whitespace(s: Seq<char>, k: int) -> bool {
    &&& 0 <= k <= s.len()
    &&& forall|i: int| 0 <= i < k ==> is_unicode_whitespace(#[trigger] s[i])
    &&& k < s.len() ==> !is_unicode_whitespace(s[k])
}

/// `k` characters of whitespace end `s`, and no more.
pub open spec fn trailing_whitespace(s: Seq<char>, k: int) -> bool {
    &&& 0 <= k <= s.len()
    &&& forall|i: int| s.len() - k <= i < s.len() ==> is_unicode_whitespace(#[trigger] s[i])
    &&& k < s.len() ==> !is_unicode_whitespace(s[s.len() - k - 1])
}

/// `str::trim_start`: `s` without its leading whitespace.
#[verifier::external_body]
pub(crate) fn trim_start(s: &str) -> (r: &str)
    ensures
        r@ == trimmed_start(s@),
{
    s.trim_start()
}

/// `str::trim`: `s` without its leading and trailing whitespace.
#[verifier::external_body]
pub(crate) fn trim(s: &str) -> (r: &str)
    ensures
        r@ == trimmed(s@),
{
    s.trim()
}

/// The maximal runs of non-whitespace characters of `s`, in order, after the
/// run `cur` that the characters before `s` left open.
pub open spec fn tokens_after(s: Seq<char>, cur: Seq<char>) -> Seq<Seq<char>>
    decreases s.len(),
{
    let closed: Seq<Seq<char>> = if cur.len() > 0 {
        seq![cur]
    } else {
        Seq::empty()
    };
    if s.len() == 0 {
        closed
    } else if is_unicode_whitespace(s[0]) {
        closed + tokens_after(s.drop_first(), Seq::empty())
    } else {
        tokens_after(s.drop_first(), cur.push(s[0]))
    }
}

/// What `str::split_whitespace` yields for a text: its maximal runs of
/// non-whitespace characters, in order.
pub open spec fn whitespace_tokens(s: Seq<char>) -> Seq<Seq<char>> {
    tokens_after(s, Seq::empty())
}

/// `str::split_whitespace`, collected into a vector.
#[verifier::external_body]
pub(crate) fn split_tokens(s: &str) -> (r: Vec<&str>)
    ensures
        r@.map_values(|t: &str| t@) == whitespace_tokens(s@),
{
    s.split_whitespace().collect()
}

/// What `trim_start` leaves of a text: its characters after the leading whitespace.
pub open spec fn trimmed_start(s: Seq<char>) -> Seq<char> {
    s.skip(choose|k: int| leading_whitespace(s, k))
}

/// What `trim` leaves of a text: its characters between leading and trailing whitespace.
pub open spec fn trimmed(s: Seq<char>) -> Seq<char> {
    let t = trimmed_start(s);
    t.take(t.len() - (choose|m: int| trailing_whitespace(t, m)))
}

/// Split a line at its first space into the leading word and the rest, the
/// rest without its leading whitespace.
pub fn split_first(s: &str) -> (r: Option<(&str, &str)>)
    ensures
        r is None <==> !has_byte(s.spec_bytes(), space()),
        r matches Some((a, b)) ==> {
            let i = first_byte(s.spec_bytes(), space());
            &&& a.spec_bytes() == s.spec_bytes().take(i)
            &&& b@ == trimmed_start(decode_utf8(s.spec_bytes().skip(i + 1)))
        },
{
    match split_at_byte(s, 32) {
        None => None,
        Some((a, rest)) => {
            let b = trim_start(rest);
            assert(rest@ == decode_utf8(rest.spec_bytes()));
            Some((a, b))
        },
    }
}

// ── Fields of each kind of line ─────────────────────────────────────────────

/// A number read from a token.
pub open spec fn token_u64(t: Seq<char>) -> Option<u64> {
    parse_u64_spec(encode_utf8(t))
}

/// What a cancel line holds after its keyword: instrument id and order id.
pub open spec fn cancel_fields(toks: Seq<Seq<char>>) -> Option<CancelOrderMsg> {
    if toks.len() >= 2 && token_u64(toks[0]) is Some && token_u64(toks[1]) is Some {
        Some(CancelOrderMsg { order_id: token_u64(toks[1])->0, instrument_id: token_u64(toks[0])->0 })
    } else {
        None
    }
}

/// Views of a token list.
pub open spec fn token_views(tokens: Seq<&str>) -> Seq<Seq<char>> {
    tokens.map_values(|t: &str| t@)
}

/// The fields of a cancel line, from its tokens.
pub fn parse_cancel_tokens(tokens: &Vec<&str>) -> (r: Option<CancelOrderMsg>)
    ensures
        r == cancel_fields(token_views(tokens@)),
{
    if tokens.len() < 2 {
        return None;
    }
    let inst_id = match parse_u64(tokens[0]) {
        Some(v) => v,
        None => {
            return None;
        },
    };
    let order_id = match parse_u64(tokens[1]) {
        Some(v) => v,
        None => {
            return None;
        },
    };
    Some(CancelOrderMsg { order_id, instrument_id: inst_id })
}

/// `<inst_id> <order_id>`
pub fn parse_cancel(rest: &str) -> (r: Option<CancelOrderMsg>)
    ensures
        r == cancel_fields(whitespace_tokens(rest@)),
{
    let tokens = split_tokens(rest);
    parse_cancel_tokens(&tokens)
}

/// What an add-order line holds after its keyword: order type, instrument id,
/// price text, quantity and order id.
pub open spec fn add_fields(toks: Seq<Seq<char>>) -> Option<(OrderType, u64, Seq<char>, u64, u64)> {
    if toks.len() >= 5 && order_type_of(encode_utf8(toks[0])) is Some && token_u64(toks[1]) is Some
        && token_u64(toks[3]) is Some && token_u64(toks[4]) is Some {
        Some(
            (
                order_type_of(encode_utf8(toks[0]))->0,
                token_u64(toks[1])->0,
                toks[2],
                token_u64(toks[3])->0,
                token_u64(toks[4])->0,
            ),
        )
    } else {
        None
    }
}

/// The fields of an add-order line, from its tokens; the price stays text.
pub fn parse_add_order_tokens<'a>(tokens: &Vec<&'a str>) -> (r: Option<
    (OrderType, InstrumentId, &'a str, Quantity, OrderId),
>)
    ensures
        r matches Some((t, i, p, q, id)) ==> add_fields(token_views(tokens@)) == Some(
            (t, i, p@, q, id),
        ),
        r is None ==> add_fields(token_views(tokens@)) is None,
{
    if tokens.len() < 5 {
        return None;
    }
    let order_type = match parse_order_type(tokens[0]) {
        Some(t) => t,
        None => {
            return None;
        },
    };
    let inst_id = match parse_u64(tokens[1]) {
        Some(v) => v,
        None => {
            return None;
        },
    };
    let price = tokens[2];
    let qty = match parse_u64(tokens[3]) {
        Some(v) => v,
        None => {
            return None;
        },
    };
    let order_id = match parse_u64(tokens[4]) {
        Some(v) => v,
        None => {
            return None;
        },
    };
    Some((order_type, inst_id, price, qty, order_id))
}

/// What a modify line holds after its keyword: instrument id, order id, side,
/// price text and quantity.
pub open spec fn modify_fields(toks: Seq<Seq<char>>) -> Option<(u64, u64, Side, Seq<char>, u64)> {
    if toks.len() >= 5 && token_u64(toks[0]) is Some && token_u64(toks[1]) is Some && side_of(
        encode_utf8(toks[2]),
    ) is Some && token_u64(toks[4]) is Some {
        Some(
            (
                token_u64(toks[0])->0,
                token_u64(toks[1])->0,
                side_of(encode_utf8(toks[2]))->0,
                toks[3],
                token_u64(toks[4])->0,
            ),
        )
    } else {
        None
    }
}

/// The fields of a modify line, from its tokens; the price stays text.
pub fn parse_modify_tokens<'a>(tokens: &Vec<&'a str>) -> (r: Option<
    (InstrumentId, OrderId, Side, &'a str, Quantity),
>)
    ensures
        r matches Some((i, id, s, p, q)) ==> modify_fields(token_views(tokens@)) == Some(
            (i, id, s, p@, q),
        ),
        r is None ==> modify_fields(token_views(tokens@)) is None,
{
    if tokens.len() < 5 {
        return None;
    }
    let inst_id = match parse_u64(tokens[0]) {
        Some(v) => v,
        None => {
            return None;
        },
    };
    let order_id = match parse_u64(tokens[1]) {
        Some(v) => v,
        None => {
            return None;
        },
    };
    let side = match parse_side(tokens[2]) {
        Some(s) => s,
        None => {
            return None;
        },
    };
    let price = tokens[3];
    let qty = match parse_u64(tokens[4]) {
        Some(v) => v,
        None => {
            return None;
        },
    };
    Some((inst_id, order_id, side, price, qty))
}

/// What a symbol line holds after its keyword, split at single spaces: the
/// instrument id, the price text, and the symbol name (the rest, trimmed).
pub open spec fn symbol_fields(b: Seq<u8>) -> Option<(u64, Seq<char>, Seq<char>)> {
    if !has_byte(b, space()) {
        None
    } else {
        let i = first_byte(b, space());
        let r1 = b.skip(i + 1);
        if !has_byte(r1, space()) || parse_u64_spec(b.take(i)) is None {
            None
        } else {
            let j = first_byte(r1, space());
            Some(
                (
                    parse_u64_spec(b.take(i))->0,
                    decode_utf8(r1.take(j)),
                    trimmed(decode_utf8(r1.skip(j + 1))),
                ),
            )
        }
    }
}

/// `<inst_id> <price> <symbol_name>`: the fields of a symbol line; the price stays text.
pub fn parse_symbol_fields(rest: &str) -> (r: Option<(InstrumentId, &str, &str)>)
    ensures
        r matches Some((i, p, name)) ==> symbol_fields(rest.spec_bytes()) == Some(
            (i, p@, name@),
        ),
        r is None ==> symbol_fields(rest.spec_bytes()) is None,
{
    let (first, r1) = match split_at_byte(rest, 32) {
        Some(pair) => pair,
        None => {
            return None;
        },
    };
    let inst_id = match parse_u64(first) {
        Some(v) => v,
        None => {
            proof {
                assert(first.spec_bytes() == rest.spec_bytes().take(first_byte(rest.spec_bytes(), space())));
            }
            return None;
        },
    };
    let (price, r2) = match split_at_byte(r1, 32) {
        Some(pair) => pair,
        None => {
            return None;
        },
    };
    let name = trim(r2);
    proof {
        assert(price@ == decode_utf8(price.spec_bytes()));
        assert(r2@ == decode_utf8(r2.spec_bytes()));
    }
    Some((inst_id, price, name))
}

// ── Whole lines ─────────────────────────────────────────────────────────────

/// The fields of one input line; prices are still text.
pub enum LineFields<'a> {
    Symbol { instrument_id: InstrumentId, price: &'a str, symbol: &'a str },
    AddOrder {
        side: Side,
        order_type: OrderType,
        instrument_id: InstrumentId,
        price: &'a str,
        quantity: Quantity,
        order_id: OrderId,
    },
    ModifyOrder {
        instrument_id: InstrumentId,
        order_id: OrderId,
        side: Side,
        price: &'a str,
        quantity: Quantity,
    },
    CancelOrder(CancelOrderMsg),
}

/// The fields of a line with its texts as characters.
pub enum LineFieldsView {
    Symbol(u64, Seq<char>, Seq<char>),
    AddOrder(Side, OrderType, u64, Seq<char>, u64, u64),
    ModifyOrder(u64, u64, Side, Seq<char>, u64),
    CancelOrder(CancelOrderMsg),
}

impl<'a> View for LineFields<'a> {
    type V = LineFieldsView;

    open spec fn view(&self) -> LineFieldsView {
        match *self {
            LineFields::Symbol { instrument_id, price, symbol } => LineFieldsView::Symbol(
                instrument_id,
                price@,
                symbol@,
            ),
            LineFields::AddOrder { side, order_type, instrument_id, price, quantity, order_id } =>
                LineFieldsView::AddOrder(side, order_type, instrument_id, price@, quantity, order_id),
            LineFields::ModifyOrder { instrument_id, order_id, side, price, quantity } =>
                LineFieldsView::ModifyOrder(instrument_id, order_id, side, price@, quantity),
            LineFields::CancelOrder(m) => LineFieldsView::CancelOrder(m),
        }
    }
}

/// The fields of an add-order line of the given side.
pub open spec fn add_line(side: Side, toks: Seq<Seq<char>>) -> Option<LineFieldsView> {
    match add_fields(toks) {
        Some((t, i, p, q, id)) => Some(LineFieldsView::AddOrder(side, t, i, p, q, id)),
        None => None,
    }
}

/// What a line holds: the word before its first space names the kind of line;
/// the rest, without leading whitespace, holds the fields. Lines of any other
/// kind (`PRINT` among them) hold nothing.
pub open spec fn line_fields(b: Seq<u8>) -> Option<LineFieldsView> {
    if !has_byte(b, space()) {
        None
    } else {
        let i = first_byte(b, space());
        let rest = trimmed_start(decode_utf8(b.skip(i + 1)));
        match action_of(b.take(i)) {
            Action::Symbol => match symbol_fields(encode_utf8(rest)) {
                Some((inst, p, name)) => Some(LineFieldsView::Symbol(inst, p, name)),
                None => None,
            },
            Action::Buy => add_line(Side::Bid, whitespace_tokens(rest)),
            Action::Sell => add_line(Side::Ask, whitespace_tokens(rest)),
            Action::Modify => match modify_fields(whitespace_tokens(rest)) {
                Some((inst, id, side, p, q)) => Some(
                    LineFieldsView::ModifyOrder(inst, id, side, p, q),
                ),
                None => None,
            },
            Action::Cancel => match cancel_fields(whitespace_tokens(rest)) {
                Some(m) => Some(LineFieldsView::CancelOrder(m)),
                None => None,
            },
            _ => None,
        }
    }
}

/// Parse one non-empty, non-comment line into its fields.
pub fn parse_line_fields(line: &str) -> (r: Option<LineFields>)
    ensures
        r matches Some(f) ==> line_fields(line.spec_bytes()) == Some(f@),
        r is None ==> line_fields(line.spec_bytes()) is None,
{
    let (action_str, rest) = match split_first(line) {
        Some(pair) => pair,
        None => {
            return None;
        },
    };
    match parse_action(action_str) {
        Action::Symbol => match parse_symbol_fields(rest) {
            Some((instrument_id, price, symbol)) => Some(
                LineFields::Symbol { instrument_id, price, symbol },
            ),
            None => None,
        },
        Action::Buy => {
            let tokens = split_tokens(rest);
            match parse_add_order_tokens(&tokens) {
                Some((order_type, instrument_id, price, quantity, order_id)) => Some(
                    LineFields::AddOrder {
                        side: Side::Bid,
                        order_type,
                        instrument_id,
                        price,
                        quantity,
                        order_id,
                    },
                ),
                None => None,
            }
        },
        Action::Sell => {
            let tokens = split_tokens(rest);
            match parse_add_order_tokens(&tokens) {
                Some((order_type, instrument_id, price, quantity, order_id)) => Some(
                    LineFields::AddOrder {
                        side: Side::Ask,
                        order_type,
                        instrument_id,
                        price,
                        quantity,
                        order_id,
                    },
                ),
                None => None,
            }
        },
        Action::Modify => {
            let tokens = split_tokens(rest);
            match parse_modify_tokens(&tokens) {
                Some((instrument_id, order_id, side, price, quantity)) => Some(
                    LineFields::ModifyOrder { instrument_id, order_id, side, price, quantity },
                ),
                None => None,
            }
        },
        Action::Cancel => match parse_cancel(rest) {
            Some(m) => Some(LineFields::CancelOrder(m)),
            None => None,
        },
        _ => None,
    }
}

/// A `BUY` or `SELL` line holds an order to add, read the same way for both but
/// for its side: after the word, its whitespace-separated tokens are the order
/// type (`GFD` or `IOC`), the instrument id, the price text, the quantity and the
/// order id, in that order; with fewer tokens, or one of them unreadable, the
/// line holds nothing.
pub proof fn law_order_lines_read_type_instrument_price_quantity_id(b: Seq<u8>)
    requires
        has_byte(b, 32),
        b.take(first_byte(b, 32)) == seq![66u8, 85, 89] || b.take(first_byte(b, 32)) == seq![
            83u8,
            69,
            76,
            76,
        ],
    ensures
        ({
            let i = first_byte(b, 32);
            let toks = whitespace_tokens(trimmed_start(decode_utf8(b.skip(i + 1))));
            let side = if b.take(i) == seq![66u8, 85, 89] {
                Side::Bid
            } else {
                Side::Ask
            };
            line_fields(b) == if toks.len() >= 5 && order_type_of(encode_utf8(toks[0])) is Some
                && parse_u64_spec(encode_utf8(toks[1])) is Some && parse_u64_spec(
                encode_utf8(toks[3]),
            ) is Some && parse_u64_spec(encode_utf8(toks[4])) is Some {
                Some(
                    LineFieldsView::AddOrder(
                        side,
                        order_type_of(encode_utf8(toks[0]))->0,
                        parse_u64_spec(encode_utf8(toks[1]))->0,
                        toks[2],
                        parse_u64_spec(encode_utf8(toks[3]))->0,
                        parse_u64_spec(encode_utf8(toks[4]))->0,
                    ),
                )
            } else {
                None
            }
        }),
{
    let i = first_byte(b, 32);
    assert(word_buy() == seq![66u8, 85, 89]);
    assert(word_sell() == seq![83u8, 69, 76, 76]);
    assert(seq![66u8, 85, 89] != seq![83u8, 69, 76, 76]) by {
        assert(seq![66u8, 85, 89].len() != seq![83u8, 69, 76, 76].len());
    }
}

/// A `MODIFY` line's whitespace-separated tokens after the word are the
/// instrument id, the order id, the side (`BUY` or `SELL`), the price text and the
/// quantity, in that order; with fewer tokens, or one of them unreadable, the line
/// holds nothing.
pub proof fn law_modify_lines_read_instrument_id_side_price_quantity(b: Seq<u8>)
    requires
        has_byte(b, 32),
        b.take(first_byte(b, 32)) == seq![77u8, 79, 68, 73, 70, 89],
    ensures
        ({
            let i = first_byte(b, 32);
            let toks = whitespace_tokens(trimmed_start(decode_utf8(b.skip(i + 1))));
            line_fields(b) == if toks.len() >= 5 && parse_u64_spec(encode_utf8(toks[0])) is Some
                && parse_u64_spec(encode_utf8(toks[1])) is Some && side_of(encode_utf8(toks[2]))
                is Some && parse_u64_spec(encode_utf8(toks[4])) is Some {
                Some(
                    LineFieldsView::ModifyOrder(
                        parse_u64_spec(encode_utf8(toks[0]))->0,
                        parse_u64_spec(encode_utf8(toks[1]))->0,
                        side_of(encode_utf8(toks[2]))->0,
                        toks[3],
                        parse_u64_spec(encode_utf8(toks[4]))->0,
                    ),
                )
            } else {
                None
            }
        }),
{
    assert(word_modify() == seq![77u8, 79, 68, 73, 70, 89]);
    assert(word_buy() != seq![77u8, 79, 68, 73, 70, 89]) by {
        assert(word_buy().len() != 6);
    }
    assert(word_sell() != seq![77u8, 79, 68, 73, 70, 89]) by {
        assert(word_sell().len() != 6);
    }
    assert(word_cancel() != seq![77u8, 79, 68, 73, 70, 89]) by {
        assert(word_cancel()[0] != 77u8);
    }
}

/// A `CANCEL` line's first two whitespace-separated tokens after the word are the
/// instrument id and the order id; with fewer tokens, or one of them unreadable,
/// the line holds nothing.
pub proof fn law_cancel_lines_read_instrument_then_order_id(b: Seq<u8>)
    requires
        has_byte(b, 32),
        b.take(first_byte(b, 32)) == seq![67u8, 65, 78, 67, 69, 76],
    ensures
        ({
            let i = first_byte(b, 32);
            let toks = whitespace_tokens(trimmed_start(decode_utf8(b.skip(i + 1))));
            line_fields(b) == if toks.len() >= 2 && parse_u64_spec(encode_utf8(toks[0])) is Some
                && parse_u64_spec(encode_utf8(toks[1])) is Some {
                Some(
                    LineFieldsView::CancelOrder(
                        CancelOrderMsg {
                            order_id: parse_u64_spec(encode_utf8(toks[1]))->0,
                            instrument_id: parse_u64_spec(encode_utf8(toks[0]))->0,
                        },
                    ),
                )
            } else {
                None
            }
        }),
{
    assert(word_cancel() == seq![67u8, 65, 78, 67, 69, 76]);
    assert(word_buy() != seq![67u8, 65, 78, 67, 69, 76]) by {
        assert(word_buy().len() != 6);
    }
    assert(word_sell() != seq![67u8, 65, 78, 67, 69, 76]) by {
        assert(word_sell().len() != 6);
    }
}

} // verus!
