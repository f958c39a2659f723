//! The text messages servers exchange: nominations `e,<address>,<value>`
//! and results `r,<address>,<value>`, and how their fields are read.
use vstd::prelude::*;
use crate::bytes::{append_bytes, copy_bytes, lemma_split_head, lemma_split_last, lemma_split_nonempty, split_bytes, split_on, views};
use crate::decimal::{decimal, format_i32, lemma_decimal_chars, lemma_parse_decimal, parse_i32, parse_i32_spec};

verus! {

/// The comma-separated fields of a message.
pub open spec fn fields(s: Seq<u8>) -> Seq<Seq<u8>> {
    split_on(s, 44u8)
}

/// The nomination `e,<address>,<value>`.
pub open spec fn nomination(address: Seq<u8>, value: int) -> Seq<u8> {
    seq![101u8, 44u8] + address + seq![44u8] + decimal(value)
}

/// The result `r,<address>,<value text>`.
pub open spec fn result_notice(winner: Seq<u8>, value_text: Seq<u8>) -> Seq<u8> {
    seq![114u8, 44u8] + winner + seq![44u8] + value_text
}

/// The text before the first NUL byte.
pub open spec fn until_nul(s: Seq<u8>) -> Seq<u8> {
    split_on(s, 0u8)[0]
}

/// A stored nomination is empty or starts with `e,`.
pub open spec fn stored_ok(e: Seq<u8>) -> bool {
    e.len() == 0 || (e.len() >= 2 && e[0] == 101u8 && e[1] == 44u8)
}

/// The value a stored nomination carries: its last field read as an `i32`;
/// `-1` when nothing is stored.
pub open spec fn stored_value(e: Seq<u8>) -> Option<i32> {
    if e.len() == 0 {
        Some(-1i32)
    } else {
        parse_i32_spec(fields(e).last())
    }
}

/// The server a stored nomination names (its second field).
pub open spec fn nominee(e: Seq<u8>) -> Seq<u8> {
    fields(e)[1]
}

/// In a buffer of at least two bytes whose first field is the single byte
/// `c`, that byte is followed by a comma.
pub proof fn lemma_head_is(buf: Seq<u8>, c: u8)
    requires
        buf.len() >= 2,
        fields(buf)[0] == seq![c],
    ensures
        buf[0] == c,
        buf[1] == 44u8,
        fields(buf).len() >= 2,
{
    lemma_split_head(buf, 44u8);
    assert(buf.take(1)[0] == buf[0]);
}

/// What a server stores from a nomination buffer is a well-shaped nomination.
pub proof fn lemma_nomination_stored(buf: Seq<u8>)
    requires
        buf.len() >= 2,
        buf[0] == 101u8,
        buf[1] == 44u8,
    ensures
        stored_ok(until_nul(buf)),
        until_nul(buf).len() > 0,
{
    lemma_split_head(buf, 0u8);
    let h = split_on(buf, 0u8)[0];
    assert(h.len() >= 2);
    assert(h[0] == buf[0] && h[1] == buf[1]);
}

/// A stored nomination has a second field.
pub proof fn lemma_nominee_exists(e: Seq<u8>)
    requires
        e.len() > 0,
        stored_ok(e),
    ensures
        fields(e).len() >= 2,
{
    lemma_split_head(e, 44u8);
    let h = split_on(e, 44u8)[0];
    if h.len() >= 2 {
        assert(h[1] == e[1]);
    }
}

/// Field `k` of `s`, if `s` has that many fields.
pub fn field_at(s: &[u8], k: usize) -> (r: Option<Vec<u8>>)
    ensures
        match r {
            Some(f) => k < fields(s@).len() && f@ == fields(s@)[k as int],
            None => k >= fields(s@).len(),
        },
{
    let pieces = split_bytes(s, 44u8);
    if k < pieces.len() {
        assert(views(pieces@)[k as int] == pieces@[k as int]@);
        Some(copy_bytes(pieces[k].as_slice()))
    } else {
        None
    }
}

/// The bytes of `s` before its first NUL.
pub fn until_nul_bytes(s: &[u8]) -> (r: Vec<u8>)
    ensures
        r@ == until_nul(s@),
{
    let pieces = split_bytes(s, 0u8);
    proof {
        lemma_split_nonempty(s@, 0u8);
    }
    assert(views(pieces@)[0] == pieces@[0]@);
    copy_bytes(pieces[0].as_slice())
}

/// The value a stored nomination carries (`-1` for none, `None` if its
/// last field is not a decimal `i32`).
pub fn stored_value_of(e: &[u8]) -> (r: Option<i32>)
    ensures
        r == stored_value(e@),
{
    if e.len() == 0 {
        Some(-1i32)
    } else {
        let pieces = split_bytes(e, 44u8);
        proof {
            lemma_split_nonempty(e@, 44u8);
        }
        let n = pieces.len();
        assert(views(pieces@)[n - 1] == pieces@[n - 1]@);
        parse_i32(pieces[n - 1].as_slice())
    }
}

/// The server a stored nomination names.
pub fn nominee_of(e: &[u8]) -> (r: Vec<u8>)
    requires
        e@.len() > 0,
        stored_ok(e@),
    ensures
        r@ == nominee(e@),
{
    proof {
        lemma_nominee_exists(e@);
    }
    match field_at(e, 1) {
        Some(f) => f,
        None => Vec::new(),
    }
}

/// Builds the nomination `e,<address>,<value>`.
pub fn nomination_bytes(address: &[u8], value: i32) -> (m: Vec<u8>)
    ensures
        m@ == nomination(address@, value as int),
{
    let mut m: Vec<u8> = Vec::new();
    m.push(101u8);
    m.push(44u8);
    append_bytes(&mut m, address);
    m.push(44u8);
    let text = format_i32(value);
    append_bytes(&mut m, text.as_slice());
    assert(m@ =~= nomination(address@, value as int));
    m
}

/// Builds the result `r,<address>,<value text>`.
pub fn result_bytes(winner: &[u8], value_text: &[u8]) -> (m: Vec<u8>)
    ensures
        m@ == result_notice(winner@, value_text@),
{
    let mut m: Vec<u8> = Vec::new();
    m.push(114u8);
    m.push(44u8);
    append_bytes(&mut m, winner);
    m.push(44u8);
    append_bytes(&mut m, value_text);
    assert(m@ =~= result_notice(winner@, value_text@));
    m
}

/// A nomination starts with `e`.
pub proof fn lemma_nomination_tag(address: Seq<u8>, value: int)
    ensures
        nomination(address, value).len() > 0,
        nomination(address, value)[0] == 101u8,
{
}

/// A result starts with `r`.
pub proof fn lemma_result_tag(winner: Seq<u8>, text: Seq<u8>)
    ensures
        result_notice(winner, text).len() > 0,
        result_notice(winner, text)[0] == 114u8,
{
}

/// The value a nomination carries: its last field read as an `i32`.
pub open spec fn carried_value(m: Seq<u8>) -> Option<i32> {
    parse_i32_spec(fields(m).last())
}

/// A nomination carries the value written into it.
pub proof fn lemma_nomination_value(address: Seq<u8>, value: i32)
    ensures
        carried_value(nomination(address, value as int)) == Some(value),
{
    lemma_decimal_chars(value as int);
    let d = decimal(value as int);
    assert forall|i: int| 0 <= i < d.len() implies d[i] != 44u8 by {
        assert(crate::decimal::is_digit(d[i]) || d[i] == 45u8);
    }
    let x = seq![101u8, 44u8] + address;
    assert(nomination(address, value as int) =~= x.push(44u8) + d);
    lemma_split_last(x, 44u8, d);
    lemma_parse_decimal(value);
}

} // verus!
