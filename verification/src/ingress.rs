//! The ingress: signed orders are checked and published, deposits are published.
use crate::channels::{market_channel, market_channel_text};
use crate::crypto::{
    is_signed_under, public_key, public_key_of, random_number, random_secret, signed_under,
};
use crate::keys::PublicKeyCache;
use crate::messages::{
    decode_signed_order, encode_transaction, front, signed_order_read, transaction_wire,
};
use crate::types::{Deposit, PublicKey, SignedOrder, Transaction, UserID};
use vstd::prelude::*;

verus! {

/// Why the ingress turns a message down.
#[derive(Debug, Clone, Copy, PartialEq, Eq)]
pub enum IngressError {
    /// The bytes are no signed order.
    Bincode,
    /// The user has no verifying key.
    PublicKeyNotFound(UserID),
    /// The signature does not hold.
    Signature,
}

/// The signed order in a message, if it is one that its user signed.
pub open spec fn admitted(keys: Map<u64, PublicKey>, message: Seq<u8>) -> Result<
    SignedOrder,
    IngressError,
> {
    match front(signed_order_read(message)) {
        None => Err(IngressError::Bincode),
        Some(signed) => {
            let user = signed.order.user_id;
            if !keys.contains_key(user.0) {
                Err(IngressError::PublicKeyNotFound(user))
            } else if !signed_under(signed, keys[user.0]) {
                Err(IngressError::Signature)
            } else {
                Ok(signed)
            }
        },
    }
}

/// What is published and logged for a message.
#[derive(Debug)]
pub struct Publication {
    pub channel: String,
    pub payload: Vec<u8>,
}

/// Checks the message of a client and says what to publish and log for it: the
/// order as a transaction, on the channel of its market.
pub fn screen(keys: &PublicKeyCache, message: &[u8]) -> (r: Result<Publication, IngressError>)
    ensures
        match admitted(keys@, message@) {
            Ok(signed) => {
                &&& r matches Ok(p)
                &&& p.channel@ == market_channel_text(signed.order.market_id.0)
                &&& p.payload@ == transaction_wire(Transaction::SignedOrder(signed))
            },
            Err(e) => r == Err::<Publication, IngressError>(e),
        },
{
    let signed = match decode_signed_order(message) {
        Some(signed) => signed,
        None => return Err(IngressError::Bincode),
    };
    let user = signed.order.user_id;
    let key = match keys.get(user) {
        Some(key) => key,
        None => return Err(IngressError::PublicKeyNotFound(user)),
    };
    if !is_signed_under(&signed, &key) {
        return Err(IngressError::Signature);
    }
    Ok(
        Publication {
            channel: market_channel(signed.order.market_id),
            payload: encode_transaction(&Transaction::SignedOrder(signed)),
        },
    )
}

/// What is published and logged for a deposit.
pub fn deposit_payload(deposit: Deposit) -> (r: Vec<u8>)
    ensures
        r@ == transaction_wire(Transaction::Deposit(deposit)),
{
    encode_transaction(&Transaction::Deposit(deposit))
}

/// Enters a user with the key that belongs to a secret.
pub fn register_key(keys: &mut PublicKeyCache, user_id: UserID, secret: &[u8; 32])
    ensures
        final(keys)@.dom() == old(keys)@.dom().insert(user_id.0),
        final(keys)@[user_id.0].0@ == public_key_of(secret@),
        forall|u: u64|
            u != user_id.0 && old(keys)@.contains_key(u) ==> #[trigger] final(keys)@[u] == old(
                keys,
            )@[u],
{
    let key = public_key(secret);
    keys.put(user_id, key);
    assert(keys@.dom() =~= old(keys)@.dom().insert(user_id.0));
}

/// Creates a new user with a fresh key pair. Returns the user's number and the
/// secret key. Both are random: nothing is known of them but that they are what was
/// entered.
pub fn create_user(keys: &mut PublicKeyCache) -> (r: (UserID, [u8; 32]))
    ensures
        final(keys)@.dom() == old(keys)@.dom().insert(r.0.0),
        final(keys)@[r.0.0].0@ == public_key_of(r.1@),
        forall|u: u64|
            u != r.0.0 && old(keys)@.contains_key(u) ==> #[trigger] final(keys)@[u] == old(
                keys,
            )@[u],
{
    let secret = random_secret();
    let user_id = UserID(random_number());
    register_key(keys, user_id, &secret);
    (user_id, secret)
}

/// An order that its user signed is admitted as it was sent; under any other key it
/// is turned down unless the signature holds there too.
pub proof fn law_signed_orders_are_admitted(keys: Map<u64, PublicKey>, signed: SignedOrder)
    requires
        crate::messages::order_reads_back(signed.order),
        keys.contains_key(signed.order.user_id.0),
    ensures
        admitted(keys, crate::messages::signed_order_wire(signed)) == if signed_under(
            signed,
            keys[signed.order.user_id.0],
        ) {
            Ok::<SignedOrder, IngressError>(signed)
        } else {
            Err(IngressError::Signature)
        },
{
    let wire = crate::messages::signed_order_wire(signed);
    assert(wire + Seq::<u8>::empty() =~= wire);
    crate::messages::law_signed_order_back(signed, Seq::empty());
}

/// A message is admitted if and only if it begins with an order that bears a signature,
/// over the order's own bytes, which the key of the order's user accepts; and it is that
/// order which is admitted. Otherwise the first thing that is missing is reported.
pub proof fn law_admitted(keys: Map<u64, PublicKey>, message: Seq<u8>)
    ensures
        match (admitted(keys, message), front(signed_order_read(message))) {
            (Ok(signed), Some(read)) => {
                &&& signed == read
                &&& keys.contains_key(read.order.user_id.0)
                &&& crate::crypto::signature_holds(
                    keys[read.order.user_id.0].0@,
                    crate::messages::order_wire(read.order),
                    read.signature.0@,
                )
            },
            (Err(e), Some(read)) => if keys.contains_key(read.order.user_id.0) {
                &&& e is Signature
                &&& !crate::crypto::signature_holds(
                    keys[read.order.user_id.0].0@,
                    crate::messages::order_wire(read.order),
                    read.signature.0@,
                )
            } else {
                e == IngressError::PublicKeyNotFound(read.order.user_id)
            },
            (r, None) => r == Err::<SignedOrder, IngressError>(IngressError::Bincode),
        },
{
}

} // verus!
