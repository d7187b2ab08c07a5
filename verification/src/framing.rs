//! Length-prefixed frames, as they stand in the log file and on connections.
use crate::bytes::{
    be_bytes, be_value, le_bytes, le_value, lemma_be_bytes_back,
    lemma_be_round_trip, lemma_pow256_sizes,
};
use crate::messages::{
    encode_order, encode_signed_order, encode_transaction, order_wire, signed_order_wire,
    transaction_wire,
};
use crate::replay::entry_views;
use crate::types::{Order, SignedOrder, Transaction};
use vstd::prelude::*;

verus! {

/// A frame: the length in 32 bits, highest byte first, and the bytes themselves.
/// Of a length with more bits the lowest 32 are kept.
pub open spec fn framed(payload: Seq<u8>) -> Seq<u8> {
    be_bytes(payload.len(), 4) + payload
}

/// Puts bytes into a frame.
pub fn frame(payload: &[u8]) -> (r: Vec<u8>)
    ensures
        r@ == framed(payload@),
{
    let n: usize = payload.len();
    let b0: u8 = (n % 256) as u8;
    let b1: u8 = (n / 256 % 256) as u8;
    let b2: u8 = (n / 65536 % 256) as u8;
    let b3: u8 = (n / 16777216 % 256) as u8;
    let mut out: Vec<u8> = Vec::new();
    out.push(b3);
    out.push(b2);
    out.push(b1);
    out.push(b0);
    proof {
        let x = payload@.len();
        assert(x / 256 / 256 == x / 65536);
        assert(x / 65536 / 256 == x / 16777216);
        reveal_with_fuel(le_bytes, 5);
        assert(le_bytes(x, 4) =~= seq![b0, b1, b2, b3]);
        assert(out@ =~= be_bytes(x, 4));
    }
    out.extend_from_slice(payload);
    assert(out@ =~= framed(payload@));
    out
}

/// The length that a frame's first four bytes announce.
pub fn frame_length(header: &[u8; 4]) -> (r: u32)
    ensures
        r == be_value(header@),
{
    proof {
        reveal_with_fuel(le_value, 5);
        let s = header@.reverse();
        assert(s.drop_first() =~= seq![s[1], s[2], s[3]]);
        assert(s.drop_first().drop_first() =~= seq![s[2], s[3]]);
        assert(s.drop_first().drop_first().drop_first() =~= seq![s[3]]);
        assert(s.drop_first().drop_first().drop_first().drop_first() =~= Seq::<u8>::empty());
    }
    header[0] as u32 * 16777216 + header[1] as u32 * 65536 + header[2] as u32 * 256
        + header[3] as u32
}

/// What was framed comes back out: the header tells the length, and the bytes
/// follow it.
pub proof fn law_frame_back(payload: Seq<u8>)
    requires
        payload.len() <= u32::MAX,
    ensures
        be_value(framed(payload).take(4)) == payload.len(),
        framed(payload).skip(4) == payload,
{
    lemma_pow256_sizes();
    lemma_be_round_trip(payload.len(), 4);
    assert(framed(payload).take(4) =~= be_bytes(payload.len(), 4));
    assert(framed(payload).skip(4) =~= payload);
}

/// The payloads of the frames of which some bytes are made up; `None` where the
/// bytes end within a frame.
pub open spec fn payloads_in(bytes: Seq<u8>) -> Option<Seq<Seq<u8>>>
    decreases bytes.len(),
{
    if bytes.len() == 0 {
        Some(Seq::empty())
    } else if bytes.len() < 4 || bytes.len() - 4 < be_value(bytes.take(4)) {
        None
    } else {
        let end = 4 + be_value(bytes.take(4)) as int;
        match payloads_in(bytes.skip(end)) {
            Some(rest) => Some(seq![bytes.subrange(4, end)] + rest),
            None => None,
        }
    }
}

/// Splits the contents of a log file into its records.
pub fn records_in(bytes: &[u8]) -> (r: Option<Vec<Vec<u8>>>)
    ensures
        match payloads_in(bytes@) {
            Some(payloads) => r matches Some(records) && entry_views(records@) == payloads,
            None => r is None,
        },
{
    let mut records: Vec<Vec<u8>> = Vec::new();
    let mut i: usize = 0;
    assert(bytes@.skip(0) =~= bytes@);
    while i < bytes.len()
        invariant
            i <= bytes@.len(),
            payloads_in(bytes@) == match payloads_in(bytes@.skip(i as int)) {
                Some(rest) => Some(entry_views(records@) + rest),
                None => None,
            },
        decreases bytes@.len() - i,
    {
        let ghost rest = bytes@.skip(i as int);
        if bytes.len() - i < 4 {
            return None;
        }
        let header: [u8; 4] = [bytes[i], bytes[i + 1], bytes[i + 2], bytes[i + 3]];
        assert(header@ =~= rest.take(4));
        let length: usize = frame_length(&header) as usize;
        if bytes.len() - i - 4 < length {
            return None;
        }
        let mut record: Vec<u8> = Vec::new();
        record.extend_from_slice(vstd::slice::slice_subrange(bytes, i + 4, i + 4 + length));
        let ghost so_far = entry_views(records@);
        records.push(record);
        proof {
            let end = 4 + length as int;
            assert(record@ =~= rest.subrange(4, end));
            assert(rest.skip(end) =~= bytes@.skip(i + end));
            assert(entry_views(records@) =~= so_far.push(record@));
            if let Some(more) = payloads_in(rest.skip(end)) {
                assert(so_far + (seq![record@] + more) =~= so_far.push(record@) + more);
            }
        }
        i = i + 4 + length;
    }
    assert(bytes@.skip(i as int) =~= Seq::<u8>::empty());
    assert(entry_views(records@) + Seq::<Seq<u8>>::empty() =~= entry_views(records@));
    Some(records)
}

/// Frames, one behind the other.
pub open spec fn all_framed(payloads: Seq<Seq<u8>>) -> Seq<u8>
    decreases payloads.len(),
{
    if payloads.len() == 0 {
        Seq::empty()
    } else {
        framed(payloads[0]) + all_framed(payloads.drop_first())
    }
}

/// A log file splits into the records that were written to it.
pub proof fn law_records_back(payloads: Seq<Seq<u8>>)
    requires
        forall|i: int| 0 <= i < payloads.len() ==> (#[trigger] payloads[i]).len() <= u32::MAX,
    ensures
        payloads_in(all_framed(payloads)) == Some(payloads),
    decreases payloads.len(),
{
    if payloads.len() == 0 {
        assert(payloads =~= Seq::empty());
    } else {
        let first = payloads[0];
        let rest = payloads.drop_first();
        assert forall|i: int| 0 <= i < rest.len() implies (#[trigger] rest[i]).len()
            <= u32::MAX by {
            assert(rest[i] == payloads[i + 1]);
        }
        law_records_back(rest);
        law_frame_back(first);
        lemma_pow256_sizes();
        lemma_be_round_trip(first.len(), 4);
        let bytes = all_framed(payloads);
        let end = 4 + first.len() as int;
        assert(bytes.take(4) =~= framed(first).take(4));
        assert(bytes.subrange(4, end) =~= first);
        assert(bytes.skip(end) =~= all_framed(rest));
        assert(payloads =~= seq![first] + rest);
    }
}

/// Bytes are split into records only if they are these records' frames, one behind the
/// other, and nothing else.
pub proof fn law_records_are_the_bytes(bytes: Seq<u8>)
    ensures
        payloads_in(bytes) matches Some(payloads) ==> {
            &&& all_framed(payloads) == bytes
            &&& forall|i: int|
                0 <= i < payloads.len() ==> (#[trigger] payloads[i]).len() <= u32::MAX
        },
    decreases bytes.len(),
{
    if bytes.len() > 0 {
        if let Some(payloads) = payloads_in(bytes) {
            let head = bytes.take(4);
            let end = 4 + be_value(head) as int;
            let first = bytes.subrange(4, end);
            let rest = payloads_in(bytes.skip(end))->0;
            law_records_are_the_bytes(bytes.skip(end));
            lemma_be_bytes_back(head);
            lemma_pow256_sizes();
            assert(payloads.drop_first() =~= rest);
            assert(payloads[0] == first);
            assert(framed(first) =~= bytes.take(end));
            assert(bytes.take(end) + bytes.skip(end) =~= bytes);
            assert forall|i: int| 0 <= i < payloads.len() implies (#[trigger] payloads[i]).len()
                <= u32::MAX by {
                if i > 0 {
                    assert(payloads[i] == rest[i - 1]);
                }
            }
        }
    }
}

/// A log ends up longer by a record that is written behind it.
pub proof fn law_record_appended(payloads: Seq<Seq<u8>>, payload: Seq<u8>)
    ensures
        all_framed(payloads.push(payload)) == all_framed(payloads) + framed(payload),
    decreases payloads.len(),
{
    let all = payloads.push(payload);
    if payloads.len() == 0 {
        assert(all.drop_first() =~= Seq::empty());
        assert(all_framed(all.drop_first()) == Seq::<u8>::empty());
        assert(framed(payload) + Seq::<u8>::empty() =~= framed(payload));
        assert(all_framed(payloads) + framed(payload) =~= framed(payload));
    } else {
        assert(all.drop_first() =~= payloads.drop_first().push(payload));
        law_record_appended(payloads.drop_first(), payload);
        let (a, b) = (framed(payloads[0]), all_framed(payloads.drop_first()));
        assert(a + (b + framed(payload)) =~= (a + b) + framed(payload));
    }
}

/// The record of a transaction in the log file.
pub fn transaction_record(tx: &Transaction) -> (r: Vec<u8>)
    ensures
        r@ == framed(transaction_wire(*tx)),
{
    let bytes = encode_transaction(tx);
    frame(bytes.as_slice())
}

/// The record of an order in the log file.
pub fn order_record(order: &Order) -> (r: Vec<u8>)
    ensures
        r@ == framed(order_wire(*order)),
{
    let bytes = encode_order(order);
    frame(bytes.as_slice())
}

/// A signed order as it is sent.
pub fn order_frame(signed: &SignedOrder) -> (r: Vec<u8>)
    ensures
        r@ == framed(signed_order_wire(*signed)),
{
    let bytes = encode_signed_order(signed);
    frame(bytes.as_slice())
}

} // verus!
