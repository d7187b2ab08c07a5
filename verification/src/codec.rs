//! The binary form of what is logged, sent and hashed.
//!
//! Numbers are little-endian and of fixed size, decimals are length-prefixed
//! text, the variants of an enum are numbered from zero in 32 bits, and fields
//! follow one another without separators. The primitive values are written and
//! read by the `bincode` crate.
use crate::bytes::{
    le_bytes, le_value, lemma_le_round_trip, lemma_le_value_bound,
    lemma_pow256_sizes, starts_with,
};
use crate::decimal::{
    plain, returned_signed, usable_signed, valid_parts, valid_sign, Decimal,
};
use crate::text::{decimal_text, is_ascii_char, lemma_decimal_text_differs, lemma_decimal_text_shape};
use vstd::prelude::*;
use vstd::slice::slice_subrange;

verus! {

/// What a reader finds at the front of some bytes, and the bytes behind it.
pub open spec fn seen<T>(r: Option<(T, &[u8])>) -> Option<(T, Seq<u8>)> {
    match r {
        Some((x, rest)) => Some((x, rest@)),
        None => None,
    }
}

pub open spec fn u32_wire(x: u32) -> Seq<u8> {
    le_bytes(x as nat, 4)
}

pub open spec fn u32_read(s: Seq<u8>) -> Option<(u32, Seq<u8>)> {
    if s.len() >= 4 {
        Some((le_value(s.take(4)) as u32, s.skip(4)))
    } else {
        None
    }
}

pub open spec fn u64_wire(x: u64) -> Seq<u8> {
    le_bytes(x as nat, 8)
}

pub open spec fn u64_read(s: Seq<u8>) -> Option<(u64, Seq<u8>)> {
    if s.len() >= 8 {
        Some((le_value(s.take(8)) as u64, s.skip(8)))
    } else {
        None
    }
}

/// ASCII text as bytes.
pub open spec fn ascii(text: Seq<char>) -> Seq<u8> {
    text.map_values(|c: char| (c as int) as u8)
}

/// A decimal on the wire: the length of its text in 64 bits, then the text.
pub open spec fn decimal_bytes(parts: (int, int, bool)) -> Seq<u8> {
    let text = decimal_text(parts.0, parts.1 as nat, parts.2);
    le_bytes(text.len(), 8) + ascii(text)
}

/// Whether some bytes begin with the decimal of these parts and this sign.
pub open spec fn begins_with_decimal(s: Seq<u8>, parts: (int, int, bool)) -> bool {
    valid_parts(parts.0, parts.1) && valid_sign(parts.0, parts.2) && starts_with(
        s,
        decimal_bytes(parts),
    )
}

/// Whether some bytes begin with a length and as many bytes as it says.
pub open spec fn begins_with_text(s: Seq<u8>) -> bool {
    s.len() >= 8 && 8 + le_value(s.take(8)) <= s.len()
}

/// What `bincode::deserialize` reads as a `rust_decimal` decimal, with its sign, from
/// bytes that do not begin with one in the form in which decimals are written.
pub uninterp spec fn lenient_decimal(s: Seq<u8>) -> Option<(int, int, bool)>;

/// The parts and the sign of the decimal that some bytes begin with, given what is
/// read from bytes that do not begin with one as it is written. Of one as it is
/// written the sign of a zero is not read.
pub open spec fn decimal_parts_read(
    s: Seq<u8>,
    lenient: Option<(int, int, bool)>,
) -> Option<(int, int, bool)> {
    if exists|p: (int, int, bool)| #[trigger] begins_with_decimal(s, p) {
        let p = choose|p: (int, int, bool)| #[trigger] begins_with_decimal(s, p);
        Some(plain((p.0, p.1)))
    } else if begins_with_text(s) {
        usable_signed(lenient)
    } else {
        None
    }
}

pub open spec fn decimal_wire(d: Decimal) -> Seq<u8> {
    decimal_bytes(d.signed_parts())
}

pub open spec fn decimal_read(s: Seq<u8>) -> Option<(Decimal, Seq<u8>)> {
    match decimal_parts_read(s, lenient_decimal(s)) {
        Some(p) => Some((Decimal::of_signed(p), s.skip(8 + le_value(s.take(8)) as int))),
        None => None,
    }
}

/// Calls `bincode::serialize` on a `u32`: four bytes, lowest first.
#[verifier::external_body]
fn bincode_from_u32(x: u32) -> (r: Vec<u8>)
    ensures
        r@ == u32_wire(x),
{
    bincode::serialize(&x).unwrap()
}

/// Calls `bincode::serialize` on a `u64`: eight bytes, lowest first.
#[verifier::external_body]
fn bincode_from_u64(x: u64) -> (r: Vec<u8>)
    ensures
        r@ == u64_wire(x),
{
    bincode::serialize(&x).unwrap()
}

/// Calls `bincode::serialize` on a `rust_decimal` decimal, which is written as
/// its text behind the text's length. The minus sign of a zero is written too.
#[verifier::external_body]
fn bincode_from_decimal(mantissa: i128, scale: u32, negative: bool) -> (r: Vec<u8>)
    requires
        valid_parts(mantissa as int, scale as int),
        valid_sign(mantissa as int, negative),
    ensures
        r@ == decimal_bytes((mantissa as int, scale as int, negative)),
{
    let mut d = rust_decimal::Decimal::from_i128_with_scale(mantissa, scale);
    d.set_sign_negative(negative);
    bincode::serialize(&d).unwrap()
}

/// Calls `bincode::deserialize` for a `u32`: the first four bytes, lowest first;
/// what follows them is not looked at.
#[verifier::external_body]
fn bincode_to_u32(s: &[u8]) -> (r: Option<u32>)
    ensures
        r == (if s@.len() >= 4 {
            Some(le_value(s@.take(4)) as u32)
        } else {
            None
        }),
{
    bincode::deserialize::<u32>(s).ok()
}

/// Calls `bincode::deserialize` for a `u64`: the first eight bytes, lowest first;
/// what follows them is not looked at.
#[verifier::external_body]
fn bincode_to_u64(s: &[u8]) -> (r: Option<u64>)
    ensures
        r == (if s@.len() >= 8 {
            Some(le_value(s@.take(8)) as u64)
        } else {
            None
        }),
{
    bincode::deserialize::<u64>(s).ok()
}

/// Calls `bincode::deserialize` for a `rust_decimal` decimal: bytes that begin with
/// a decimal as it is written give that decimal back, a zero without its sign; bytes
/// that do not begin with a length and that many bytes give none; what other bytes
/// give is named, and may be a zero with a minus sign.
#[verifier::external_body]
fn bincode_to_decimal(s: &[u8]) -> (r: Option<(i128, u32, bool)>)
    ensures
        returned_signed(r) == decimal_parts_read(s@, lenient_decimal(s@)),
        r matches Some((m, e, negative)) ==> valid_parts(m as int, e as int) && valid_sign(
            m as int,
            negative,
        ),
{
    bincode::deserialize::<rust_decimal::Decimal>(s).ok().map(
        |d| (d.mantissa(), d.scale(), d.is_sign_negative()),
    )
}

/// What was written as a `u32` is read back, whatever follows it.
pub proof fn lemma_u32_back(x: u32, rest: Seq<u8>)
    ensures
        u32_read(u32_wire(x) + rest) == Some((x, rest)),
{
    lemma_pow256_sizes();
    lemma_le_round_trip(x as nat, 4);
    let s = u32_wire(x) + rest;
    assert(s.take(4) =~= u32_wire(x));
    assert(s.skip(4) =~= rest);
}

/// What was written as a `u64` is read back, whatever follows it.
pub proof fn lemma_u64_back(x: u64, rest: Seq<u8>)
    ensures
        u64_read(u64_wire(x) + rest) == Some((x, rest)),
{
    lemma_pow256_sizes();
    lemma_le_round_trip(x as nat, 8);
    let s = u64_wire(x) + rest;
    assert(s.take(8) =~= u64_wire(x));
    assert(s.skip(8) =~= rest);
}

/// Bytes begin with one decimal at most.
pub proof fn lemma_one_decimal(s: Seq<u8>, p: (int, int, bool), q: (int, int, bool))
    requires
        begins_with_decimal(s, p),
        begins_with_decimal(s, q),
    ensures
        p == q,
{
    let (t, u) = (decimal_text(p.0, p.1 as nat, p.2), decimal_text(q.0, q.1 as nat, q.2));
    lemma_decimal_text_shape(p.0, p.1 as nat, p.2);
    lemma_decimal_text_shape(q.0, q.1 as nat, q.2);
    lemma_pow256_sizes();
    lemma_le_round_trip(t.len(), 8);
    lemma_le_round_trip(u.len(), 8);
    let (a, b) = (decimal_bytes(p), decimal_bytes(q));
    assert(a.take(8) =~= s.take(8)) by {
        assert(s.take(a.len() as int).take(8) =~= s.take(8));
    }
    assert(b.take(8) =~= s.take(8)) by {
        assert(s.take(b.len() as int).take(8) =~= s.take(8));
    }
    assert(a.take(8) =~= le_bytes(t.len(), 8));
    assert(b.take(8) =~= le_bytes(u.len(), 8));
    assert(a == b);
    assert forall|i: int| 0 <= i < t.len() implies t[i] == u[i] by {
        assert(a[8 + i] == (t[i] as int) as u8);
        assert(b[8 + i] == (u[i] as int) as u8);
        assert(is_ascii_char(t[i]) && is_ascii_char(u[i]));
    }
    assert(t =~= u);
    lemma_decimal_text_differs(p.0, p.1 as nat, p.2, q.0, q.1 as nat, q.2);
}

/// What was written as a decimal is read back, whatever follows it; a zero is read
/// back without its sign.
pub proof fn lemma_decimal_back(d: Decimal, rest: Seq<u8>)
    requires
        d.valid(),
    ensures
        decimal_read(decimal_wire(d) + rest) == Some((d.as_read(), rest)),
{
    let s = decimal_wire(d) + rest;
    let p = d.signed_parts();
    let text = decimal_text(p.0, p.1 as nat, p.2);
    assert(s.take(decimal_wire(d).len() as int) =~= decimal_wire(d));
    assert(begins_with_decimal(s, p));
    lemma_one_decimal(s, p, choose|q: (int, int, bool)| #[trigger] begins_with_decimal(s, q));
    lemma_decimal_text_shape(p.0, p.1 as nat, p.2);
    lemma_pow256_sizes();
    lemma_le_round_trip(text.len(), 8);
    assert(s.take(8) =~= le_bytes(text.len(), 8));
    assert(s.skip(8 + text.len() as int) =~= rest);
}

/// A decimal that is read is made of valid parts.
pub proof fn lemma_decimal_read_valid(s: Seq<u8>)
    ensures
        decimal_read(s) matches Some((d, _)) ==> d.valid(),
{
    if let Some(p) = decimal_parts_read(s, lenient_decimal(s)) {
        Decimal::lemma_of_signed(p);
    }
}

pub(crate) fn write_u32(out: &mut Vec<u8>, x: u32)
    ensures
        final(out)@ == old(out)@ + u32_wire(x),
{
    let mut bytes = bincode_from_u32(x);
    out.append(&mut bytes);
}

pub(crate) fn write_u64(out: &mut Vec<u8>, x: u64)
    ensures
        final(out)@ == old(out)@ + u64_wire(x),
{
    let mut bytes = bincode_from_u64(x);
    out.append(&mut bytes);
}

pub(crate) fn write_decimal(out: &mut Vec<u8>, d: &Decimal)
    ensures
        final(out)@ == old(out)@ + decimal_wire(*d),
{
    d.known_valid();
    let mut bytes = bincode_from_decimal(d.mantissa(), d.scale(), d.is_sign_negative());
    out.append(&mut bytes);
}

pub(crate) fn read_u32(s: &[u8]) -> (r: Option<(u32, &[u8])>)
    ensures
        seen(r) == u32_read(s@),
{
    match bincode_to_u32(s) {
        Some(x) => {
            let rest = slice_subrange(s, 4, s.len());
            assert(rest@ =~= s@.skip(4));
            Some((x, rest))
        },
        None => None,
    }
}

pub(crate) fn read_u64(s: &[u8]) -> (r: Option<(u64, &[u8])>)
    ensures
        seen(r) == u64_read(s@),
{
    match bincode_to_u64(s) {
        Some(x) => {
            let rest = slice_subrange(s, 8, s.len());
            assert(rest@ =~= s@.skip(8));
            Some((x, rest))
        },
        None => None,
    }
}

/// Bytes that a decimal is read from begin with a length and that many bytes.
proof fn lemma_decimal_has_text(s: Seq<u8>, lenient: Option<(int, int, bool)>)
    ensures
        decimal_parts_read(s, lenient) is Some ==> begins_with_text(s),
{
    if exists|p: (int, int, bool)| #[trigger] begins_with_decimal(s, p) {
        let p = choose|p: (int, int, bool)| #[trigger] begins_with_decimal(s, p);
        let text = decimal_text(p.0, p.1 as nat, p.2);
        let wire = decimal_bytes(p);
        lemma_decimal_text_shape(p.0, p.1 as nat, p.2);
        lemma_pow256_sizes();
        lemma_le_round_trip(text.len(), 8);
        assert(s.take(8) =~= s.take(wire.len() as int).take(8));
        assert(wire.take(8) =~= le_bytes(text.len(), 8));
    }
}

pub(crate) fn read_decimal(s: &[u8]) -> (r: Option<(Decimal, &[u8])>)
    ensures
        seen(r) == decimal_read(s@),
{
    proof {
        lemma_decimal_has_text(s@, lenient_decimal(s@));
    }
    let parts = match bincode_to_decimal(s) {
        Some(parts) => parts,
        None => return None,
    };
    let length = match bincode_to_u64(s) {
        Some(length) => length,
        None => return None,
    };
    proof {
        lemma_pow256_sizes();
        lemma_le_value_bound(s@.take(8));
    }
    match Decimal::from_signed_parts(parts.0, parts.1, parts.2) {
        Some(d) => {
            let end: usize = s.len();
            let rest = slice_subrange(s, 8 + length as usize, end);
            assert(rest@ =~= s@.skip(8 + length as int));
            Some((d, rest))
        },
        None => None,
    }
}

} // verus!
