//! Orders, deposits and transactions in binary form.
use crate::bytes::lemma_regroup;
use crate::codec::{
    decimal_read, decimal_wire, lemma_decimal_back, lemma_decimal_read_valid, lemma_u32_back,
    lemma_u64_back, read_decimal, read_u32, read_u64, seen, u32_read, u32_wire, u64_read, u64_wire,
    write_decimal, write_u32, write_u64,
};
use crate::decimal::Decimal;
use crate::types::{
    AssetID, Deposit, MarketID, Order, OrderID, OrderType, Side, Signature, SignedOrder,
    Transaction, UserID,
};
use vstd::prelude::*;
use vstd::slice::slice_subrange;

verus! {

pub open spec fn side_wire(side: Side) -> Seq<u8> {
    match side {
        Side::Buy => u32_wire(0),
        Side::Sell => u32_wire(1),
    }
}

pub open spec fn side_read(s: Seq<u8>) -> Option<(Side, Seq<u8>)> {
    match u32_read(s) {
        Some((tag, rest)) => if tag == 0 {
            Some((Side::Buy, rest))
        } else if tag == 1 {
            Some((Side::Sell, rest))
        } else {
            None
        },
        None => None,
    }
}

pub open spec fn order_type_wire(order_type: OrderType) -> Seq<u8> {
    match order_type {
        OrderType::Limit => u32_wire(0),
    }
}

pub open spec fn order_type_read(s: Seq<u8>) -> Option<(OrderType, Seq<u8>)> {
    match u32_read(s) {
        Some((tag, rest)) => if tag == 0 {
            Some((OrderType::Limit, rest))
        } else {
            None
        },
        None => None,
    }
}

pub open spec fn order_wire(o: Order) -> Seq<u8> {
    u64_wire(o.order_id.0) + (u64_wire(o.user_id.0) + (u32_wire(o.market_id.0) + (side_wire(o.side)
        + (decimal_wire(o.price) + (decimal_wire(o.quantity) + (order_type_wire(o.order_type)
        + u64_wire(o.timestamp)))))))
}

pub open spec fn order_read(s: Seq<u8>) -> Option<(Order, Seq<u8>)> {
    match u64_read(s) {
        Some((order_id, s)) => match u64_read(s) {
            Some((user_id, s)) => match u32_read(s) {
                Some((market_id, s)) => match side_read(s) {
                    Some((side, s)) => match decimal_read(s) {
                        Some((price, s)) => match decimal_read(s) {
                            Some((quantity, s)) => match order_type_read(s) {
                                Some((order_type, s)) => match u64_read(s) {
                                    Some((timestamp, s)) => Some(
                                        (
                                            Order {
                                                order_id: OrderID(order_id),
                                                user_id: UserID(user_id),
                                                market_id: MarketID(market_id),
                                                side,
                                                price,
                                                quantity,
                                                order_type,
                                                timestamp,
                                            },
                                            s,
                                        ),
                                    ),
                                    None => None,
                                },
                                None => None,
                            },
                            None => None,
                        },
                        None => None,
                    },
                    None => None,
                },
                None => None,
            },
            None => None,
        },
        None => None,
    }
}

/// An order whose amounts are made of valid parts, as those of every order at run
/// time are.
pub open spec fn valid_order(o: Order) -> bool {
    o.price.valid() && o.quantity.valid()
}

/// An order as it is read once it was written.
pub open spec fn order_as_read(o: Order) -> Order {
    Order { price: o.price.as_read(), quantity: o.quantity.as_read(), ..o }
}

/// An order whose amounts are read back as they were written.
pub open spec fn order_reads_back(o: Order) -> bool {
    o.price.reads_back() && o.quantity.reads_back()
}

pub(crate) fn write_order(out: &mut Vec<u8>, o: &Order)
    ensures
        final(out)@ == old(out)@ + order_wire(*o),
{
    write_u64(out, o.order_id.0);
    write_u64(out, o.user_id.0);
    write_u32(out, o.market_id.0);
    write_u32(
        out,
        match o.side {
            Side::Buy => 0,
            Side::Sell => 1,
        },
    );
    write_decimal(out, &o.price);
    write_decimal(out, &o.quantity);
    write_u32(
        out,
        match o.order_type {
            OrderType::Limit => 0,
        },
    );
    write_u64(out, o.timestamp);
    assert(out@ =~= old(out)@ + order_wire(*o));
}

pub(crate) fn read_side(s: &[u8]) -> (r: Option<(Side, &[u8])>)
    ensures
        seen(r) == side_read(s@),
{
    let (tag, s) = read_u32(s)?;
    if tag == 0 {
        Some((Side::Buy, s))
    } else if tag == 1 {
        Some((Side::Sell, s))
    } else {
        None
    }
}

pub(crate) fn read_order(s: &[u8]) -> (r: Option<(Order, &[u8])>)
    ensures
        seen(r) == order_read(s@),
{
    let (order_id, s) = read_u64(s)?;
    let (user_id, s) = read_u64(s)?;
    let (market_id, s) = read_u32(s)?;
    let (side, s) = read_side(s)?;
    let (price, s) = read_decimal(s)?;
    let (quantity, s) = read_decimal(s)?;
    let (tag, s) = read_u32(s)?;
    if tag != 0 {
        return None;
    }
    let (timestamp, s) = read_u64(s)?;
    Some(
        (
            Order {
                order_id: OrderID(order_id),
                user_id: UserID(user_id),
                market_id: MarketID(market_id),
                side,
                price,
                quantity,
                order_type: OrderType::Limit,
                timestamp,
            },
            s,
        ),
    )
}

/// An order is read back from what was written, whatever follows it.
pub proof fn lemma_order_back(o: Order, rest: Seq<u8>)
    requires
        valid_order(o),
    ensures
        order_read(order_wire(o) + rest) == Some((order_as_read(o), rest)),
{
    let w7 = u64_wire(o.timestamp);
    let w6 = order_type_wire(o.order_type) + w7;
    let w5 = decimal_wire(o.quantity) + w6;
    let w4 = decimal_wire(o.price) + w5;
    let w3 = side_wire(o.side) + w4;
    let w2 = u32_wire(o.market_id.0) + w3;
    let w1 = u64_wire(o.user_id.0) + w2;
    lemma_regroup(u64_wire(o.order_id.0), w1, rest);
    lemma_regroup(u64_wire(o.user_id.0), w2, rest);
    lemma_regroup(u32_wire(o.market_id.0), w3, rest);
    lemma_regroup(side_wire(o.side), w4, rest);
    lemma_regroup(decimal_wire(o.price), w5, rest);
    lemma_regroup(decimal_wire(o.quantity), w6, rest);
    lemma_regroup(order_type_wire(o.order_type), w7, rest);
    let (s1, s2, s3, s4) = (w1 + rest, w2 + rest, w3 + rest, w4 + rest);
    let (s5, s6, s7) = (w5 + rest, w6 + rest, w7 + rest);
    lemma_u64_back(o.order_id.0, s1);
    lemma_u64_back(o.user_id.0, s2);
    lemma_u32_back(o.market_id.0, s3);
    lemma_u32_back(0, s4);
    lemma_u32_back(1, s4);
    lemma_decimal_back(o.price, s5);
    lemma_decimal_back(o.quantity, s6);
    lemma_u32_back(0, s7);
    lemma_u64_back(o.timestamp, rest);
}

/// The signature whose bytes are given.
pub open spec fn signature_of(bytes: Seq<u8>) -> Signature {
    choose|x: Signature| x.0@ == bytes
}

pub open spec fn signature_read(s: Seq<u8>) -> Option<(Signature, Seq<u8>)> {
    if s.len() >= 64 {
        Some((signature_of(s.take(64)), s.skip(64)))
    } else {
        None
    }
}

pub open spec fn signed_order_wire(x: SignedOrder) -> Seq<u8> {
    order_wire(x.order) + x.signature.0@
}

pub open spec fn signed_order_read(s: Seq<u8>) -> Option<(SignedOrder, Seq<u8>)> {
    match order_read(s) {
        Some((order, s)) => match signature_read(s) {
            Some((signature, s)) => Some((SignedOrder { order, signature }, s)),
            None => None,
        },
        None => None,
    }
}

pub open spec fn deposit_wire(x: Deposit) -> Seq<u8> {
    u64_wire(x.user_id.0) + (u32_wire(x.asset_id.0) + decimal_wire(x.amount))
}

pub open spec fn deposit_read(s: Seq<u8>) -> Option<(Deposit, Seq<u8>)> {
    match u64_read(s) {
        Some((user_id, s)) => match u32_read(s) {
            Some((asset_id, s)) => match decimal_read(s) {
                Some((amount, s)) => Some(
                    (
                        Deposit { user_id: UserID(user_id), asset_id: AssetID(asset_id), amount },
                        s,
                    ),
                ),
                None => None,
            },
            None => None,
        },
        None => None,
    }
}

pub open spec fn transaction_wire(x: Transaction) -> Seq<u8> {
    match x {
        Transaction::SignedOrder(signed) => u32_wire(0) + signed_order_wire(signed),
        Transaction::Deposit(deposit) => u32_wire(1) + deposit_wire(deposit),
    }
}

pub open spec fn transaction_read(s: Seq<u8>) -> Option<(Transaction, Seq<u8>)> {
    match u32_read(s) {
        Some((tag, s)) => if tag == 0 {
            match signed_order_read(s) {
                Some((signed, s)) => Some((Transaction::SignedOrder(signed), s)),
                None => None,
            }
        } else if tag == 1 {
            match deposit_read(s) {
                Some((deposit, s)) => Some((Transaction::Deposit(deposit), s)),
                None => None,
            }
        } else {
            None
        },
        None => None,
    }
}

/// The value that some bytes begin with; bytes behind it are not looked at.
pub open spec fn front<T>(r: Option<(T, Seq<u8>)>) -> Option<T> {
    match r {
        Some((x, _)) => Some(x),
        None => None,
    }
}

/// A transaction whose amounts are made of valid parts, as those of every transaction
/// at run time are.
pub open spec fn valid_transaction(x: Transaction) -> bool {
    match x {
        Transaction::SignedOrder(signed) => valid_order(signed.order),
        Transaction::Deposit(deposit) => deposit.amount.valid(),
    }
}

/// A signed order as it is read once it was written.
pub open spec fn signed_as_read(x: SignedOrder) -> SignedOrder {
    SignedOrder { order: order_as_read(x.order), ..x }
}

/// A transaction as it is read once it was written.
pub open spec fn transaction_as_read(x: Transaction) -> Transaction {
    match x {
        Transaction::SignedOrder(signed) => Transaction::SignedOrder(signed_as_read(signed)),
        Transaction::Deposit(deposit) => Transaction::Deposit(
            Deposit { amount: deposit.amount.as_read(), ..deposit },
        ),
    }
}

/// A transaction whose amounts are read back as they were written.
pub open spec fn transaction_reads_back(x: Transaction) -> bool {
    match x {
        Transaction::SignedOrder(signed) => order_reads_back(signed.order),
        Transaction::Deposit(deposit) => deposit.amount.reads_back(),
    }
}

/// Copies a signature off the front of some bytes.
fn read_signature(s: &[u8]) -> (r: Option<(Signature, &[u8])>)
    ensures
        seen(r) == signature_read(s@),
{
    if s.len() < 64 {
        return None;
    }
    let mut bytes: [u8; 64] = [0u8; 64];
    let mut i: usize = 0;
    while i < 64
        invariant
            i <= 64,
            64 <= s@.len(),
            forall|j: int| 0 <= j < i ==> bytes@[j] == s@[j],
        decreases 64 - i,
    {
        bytes[i] = s[i];
        i += 1;
    }
    let signature = Signature(bytes);
    let end: usize = s.len();
    let rest = slice_subrange(s, 64, end);
    proof {
        assert(bytes@ =~= s@.take(64));
        lemma_signature_of(signature);
        assert(rest@ =~= s@.skip(64));
    }
    Some((signature, rest))
}

/// The bytes of a signature determine it.
proof fn lemma_signature_of(x: Signature)
    ensures
        signature_of(x.0@) == x,
{
    let y = signature_of(x.0@);
    assert(y.0@ == x.0@);
    assert forall|i: int| 0 <= i < 64 implies y.0[i] == x.0[i] by {
        assert(y.0@[i] == x.0@[i]);
    }
    assert(y.0 =~= x.0);
}

pub(crate) fn read_signed_order(s: &[u8]) -> (r: Option<(SignedOrder, &[u8])>)
    ensures
        seen(r) == signed_order_read(s@),
{
    let (order, s) = read_order(s)?;
    let (signature, s) = read_signature(s)?;
    Some((SignedOrder { order, signature }, s))
}

pub(crate) fn read_deposit(s: &[u8]) -> (r: Option<(Deposit, &[u8])>)
    ensures
        seen(r) == deposit_read(s@),
{
    let (user_id, s) = read_u64(s)?;
    let (asset_id, s) = read_u32(s)?;
    let (amount, s) = read_decimal(s)?;
    Some((Deposit { user_id: UserID(user_id), asset_id: AssetID(asset_id), amount }, s))
}

/// The bytes of an order: what its owner signs.
pub fn encode_order(o: &Order) -> (r: Vec<u8>)
    ensures
        r@ == order_wire(*o),
{
    let mut out: Vec<u8> = Vec::new();
    write_order(&mut out, o);
    assert(out@ =~= order_wire(*o));
    out
}

fn write_signed_order(out: &mut Vec<u8>, x: &SignedOrder)
    ensures
        final(out)@ == old(out)@ + signed_order_wire(*x),
{
    write_order(out, &x.order);
    let ghost before = out@;
    let mut i: usize = 0;
    while i < 64
        invariant
            i <= 64,
            out@ == before + x.signature.0@.take(i as int),
        decreases 64 - i,
    {
        out.push(x.signature.0[i]);
        assert(x.signature.0@.take(i + 1) =~= x.signature.0@.take(i as int).push(
            x.signature.0@[i as int],
        ));
        i += 1;
    }
    assert(x.signature.0@.take(64) =~= x.signature.0@);
    assert(out@ =~= old(out)@ + signed_order_wire(*x));
}

/// The bytes of a signed order.
pub fn encode_signed_order(x: &SignedOrder) -> (r: Vec<u8>)
    ensures
        r@ == signed_order_wire(*x),
{
    let mut out: Vec<u8> = Vec::new();
    write_signed_order(&mut out, x);
    assert(out@ =~= signed_order_wire(*x));
    out
}

/// The bytes of a transaction, as they stand in the log.
pub fn encode_transaction(x: &Transaction) -> (r: Vec<u8>)
    ensures
        r@ == transaction_wire(*x),
{
    let mut out: Vec<u8> = Vec::new();
    match x {
        Transaction::SignedOrder(signed) => {
            write_u32(&mut out, 0);
            write_signed_order(&mut out, signed);
        },
        Transaction::Deposit(deposit) => {
            write_u32(&mut out, 1);
            write_u64(&mut out, deposit.user_id.0);
            write_u32(&mut out, deposit.asset_id.0);
            write_decimal(&mut out, &deposit.amount);
        },
    }
    assert(out@ =~= transaction_wire(*x));
    out
}

/// The signed order that some bytes begin with, if they do.
pub fn decode_signed_order(bytes: &[u8]) -> (r: Option<SignedOrder>)
    ensures
        r == front(signed_order_read(bytes@)),
{
    let (x, _rest) = read_signed_order(bytes)?;
    Some(x)
}

/// The transaction that some bytes begin with, if they do.
pub fn decode_transaction(bytes: &[u8]) -> (r: Option<Transaction>)
    ensures
        r == front(transaction_read(bytes@)),
{
    let (tag, s) = read_u32(bytes)?;
    if tag == 0 {
        let (signed, _rest) = read_signed_order(s)?;
        Some(Transaction::SignedOrder(signed))
    } else if tag == 1 {
        let (deposit, _rest) = read_deposit(s)?;
        Some(Transaction::Deposit(deposit))
    } else {
        None
    }
}

/// A transaction as it is read is the one that was written, unless that has a zero with
/// a minus sign; it is read back as it is from then on.
pub proof fn lemma_transaction_as_read(x: Transaction)
    requires
        valid_transaction(x),
    ensures
        transaction_reads_back(transaction_as_read(x)),
        transaction_reads_back(x) ==> transaction_as_read(x) == x,
{
    match x {
        Transaction::SignedOrder(signed) => {
            Decimal::lemma_as_read(signed.order.price);
            Decimal::lemma_as_read(signed.order.quantity);
        },
        Transaction::Deposit(deposit) => Decimal::lemma_as_read(deposit.amount),
    }
}

/// A signed order comes back out of its bytes, whatever follows them; of a zero the
/// sign is lost.
pub proof fn law_signed_order_back(x: SignedOrder, rest: Seq<u8>)
    requires
        valid_order(x.order),
    ensures
        signed_order_read(signed_order_wire(x) + rest) == Some((signed_as_read(x), rest)),
        order_reads_back(x.order) ==> signed_order_read(signed_order_wire(x) + rest) == Some(
            (x, rest),
        ),
{
    lemma_transaction_as_read(Transaction::SignedOrder(x));
    let tail = x.signature.0@ + rest;
    lemma_regroup(order_wire(x.order), x.signature.0@, rest);
    lemma_order_back(x.order, tail);
    assert(tail.take(64) =~= x.signature.0@);
    assert(tail.skip(64) =~= rest);
    lemma_signature_of(x.signature);
}

proof fn lemma_deposit_back(x: Deposit, rest: Seq<u8>)
    requires
        x.amount.valid(),
    ensures
        deposit_read(deposit_wire(x) + rest) == Some(
            (Deposit { amount: x.amount.as_read(), ..x }, rest),
        ),
{
    let w2 = decimal_wire(x.amount);
    let w1 = u32_wire(x.asset_id.0) + w2;
    lemma_regroup(u64_wire(x.user_id.0), w1, rest);
    lemma_regroup(u32_wire(x.asset_id.0), w2, rest);
    lemma_u64_back(x.user_id.0, w1 + rest);
    lemma_u32_back(x.asset_id.0, w2 + rest);
    lemma_decimal_back(x.amount, rest);
}

/// A transaction comes back out of its bytes, whatever follows them; of a zero the
/// sign is lost.
pub proof fn law_transaction_back(x: Transaction, rest: Seq<u8>)
    requires
        valid_transaction(x),
    ensures
        transaction_read(transaction_wire(x) + rest) == Some((transaction_as_read(x), rest)),
        transaction_reads_back(x) ==> transaction_read(transaction_wire(x) + rest) == Some(
            (x, rest),
        ),
{
    lemma_transaction_as_read(x);
    match x {
        Transaction::SignedOrder(signed) => {
            let tail = signed_order_wire(signed) + rest;
            lemma_regroup(u32_wire(0), signed_order_wire(signed), rest);
            lemma_u32_back(0, tail);
            law_signed_order_back(signed, rest);
        },
        Transaction::Deposit(deposit) => {
            lemma_regroup(u32_wire(1), deposit_wire(deposit), rest);
            lemma_u32_back(1, deposit_wire(deposit) + rest);
            lemma_deposit_back(deposit, rest);
        },
    }
}

/// A transaction that is read is made of valid parts.
pub proof fn lemma_transaction_read_valid(s: Seq<u8>)
    ensures
        transaction_read(s) matches Some((tx, _)) ==> valid_transaction(tx),
{
    assert forall|t: Seq<u8>|
        #![trigger decimal_read(t)]
        decimal_read(t) matches Some((d, _)) ==> d.valid() by {
        lemma_decimal_read_valid(t);
    }
    assert forall|t: Seq<u8>|
        #![trigger order_read(t)]
        order_read(t) matches Some((o, _)) ==> valid_order(o) by {}
    assert forall|t: Seq<u8>|
        #![trigger signed_order_read(t)]
        signed_order_read(t) matches Some((x, _)) ==> valid_order(x.order) by {}
}

} // verus!
