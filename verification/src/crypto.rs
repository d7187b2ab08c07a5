//! Digests, hexadecimal text, keys and signatures.
use crate::messages::{encode_order, order_wire};
use crate::types::{Order, PublicKey, Signature, SignedOrder};
use ed25519_dalek::{Signer, SigningKey, Verifier, VerifyingKey};
use rand::rngs::OsRng;
use rand::RngCore;
use sha2::{Digest, Sha256};
use vstd::prelude::*;

verus! {

/// The SHA-256 digest of some bytes.
pub uninterp spec fn sha256_of(data: Seq<u8>) -> Seq<u8>;

/// Calls `sha2`'s `Sha256::digest`; the digest is named.
#[verifier::external_body]
pub(crate) fn sha256(data: &[u8]) -> (r: crate::types::Hash)
    ensures
        r@ == sha256_of(data@),
{
    Sha256::digest(data).into()
}

/// The character of a hexadecimal digit, in lower case.
pub open spec fn hex_digit(d: int) -> char {
    if d < 10 {
        (48 + d) as char
    } else {
        (87 + d) as char
    }
}

/// Bytes in hexadecimal notation: two digits each, the higher one first.
pub open spec fn hex_text(bytes: Seq<u8>) -> Seq<char>
    decreases bytes.len(),
{
    if bytes.len() == 0 {
        Seq::empty()
    } else {
        seq![hex_digit(bytes[0] as int / 16), hex_digit(bytes[0] as int % 16)] + hex_text(
            bytes.drop_first(),
        )
    }
}

/// The value of a hexadecimal digit in either case.
pub open spec fn hex_digit_value(c: char) -> Option<int> {
    let n = c as int;
    if 48 <= n <= 57 {
        Some(n - 48)
    } else if 97 <= n <= 102 {
        Some(n - 87)
    } else if 65 <= n <= 70 {
        Some(n - 55)
    } else {
        None
    }
}

/// The bytes that some text notes in hexadecimal: none where a character is no
/// digit or one digit is left over.
pub open spec fn hex_read(text: Seq<char>) -> Option<Seq<u8>>
    decreases text.len(),
{
    if text.len() == 0 {
        Some(Seq::empty())
    } else if text.len() == 1 {
        None
    } else {
        match (hex_digit_value(text[0]), hex_digit_value(text[1]), hex_read(text.skip(2))) {
            (Some(high), Some(low), Some(rest)) => Some(seq![(16 * high + low) as u8] + rest),
            _ => None,
        }
    }
}

/// What bytes, if any, came back.
pub open spec fn bytes_seen(r: Option<Vec<u8>>) -> Option<Seq<u8>> {
    match r {
        Some(v) => Some(v@),
        None => None,
    }
}

/// Calls `hex::encode`: two lower-case digits for each byte.
#[verifier::external_body]
pub(crate) fn hex_encode(bytes: &[u8]) -> (r: String)
    ensures
        r@ == hex_text(bytes@),
{
    hex::encode(bytes)
}

/// Calls `hex::decode`: the bytes of an even number of hexadecimal digits of either
/// case, and an error for any other text.
#[verifier::external_body]
fn hex_decode(text: &str) -> (r: Option<Vec<u8>>)
    ensures
        bytes_seen(r) == hex_read(text@),
{
    hex::decode(text).ok()
}

/// Bytes come back out of their hexadecimal text.
pub proof fn law_hex_back(bytes: Seq<u8>)
    ensures
        hex_read(hex_text(bytes)) == Some(bytes),
    decreases bytes.len(),
{
    if bytes.len() > 0 {
        let t = hex_text(bytes);
        let b = bytes[0] as int;
        law_hex_back(bytes.drop_first());
        assert(t.skip(2) =~= hex_text(bytes.drop_first()));
        assert(t[0] == hex_digit(b / 16) && t[1] == hex_digit(b % 16));
        assert(hex_digit(b / 16) as int == if b / 16 < 10 { 48 + b / 16 } else { 87 + b / 16 });
        assert(hex_digit(b % 16) as int == if b % 16 < 10 { 48 + b % 16 } else { 87 + b % 16 });
        assert(seq![bytes[0]] + bytes.drop_first() =~= bytes);
    } else {
        assert(bytes =~= Seq::empty());
    }
}

/// Hexadecimal text has two digits for each byte, all in lower case.
pub proof fn law_hex_lower(bytes: Seq<u8>)
    ensures
        hex_text(bytes).len() == 2 * bytes.len(),
        forall|i: int|
            0 <= i < hex_text(bytes).len() ==> ('0' <= #[trigger] hex_text(bytes)[i] <= '9' || 'a'
                <= hex_text(bytes)[i] <= 'f'),
    decreases bytes.len(),
{
    if bytes.len() > 0 {
        let rest = bytes.drop_first();
        law_hex_lower(rest);
        let t = hex_text(bytes);
        let b = bytes[0] as int;
        assert(hex_digit(b / 16) as int == if b / 16 < 10 { 48 + b / 16 } else { 87 + b / 16 });
        assert(hex_digit(b % 16) as int == if b % 16 < 10 { 48 + b % 16 } else { 87 + b % 16 });
        assert forall|i: int| 0 <= i < t.len() implies ('0' <= #[trigger] t[i] <= '9' || 'a' <= t[i]
            <= 'f') by {
            if i >= 2 {
                assert(t[i] == hex_text(rest)[i - 2]);
            }
        }
    }
}

/// Different bytes have different hexadecimal texts.
pub proof fn law_hex_differs(a: Seq<u8>, b: Seq<u8>)
    ensures
        hex_text(a) == hex_text(b) <==> a == b,
{
    law_hex_back(a);
    law_hex_back(b);
}

/// The ED25519 verifying key that belongs to a secret key.
pub uninterp spec fn public_key_of(secret: Seq<u8>) -> Seq<u8>;

/// The ED25519 signature of a message under a secret key.
pub uninterp spec fn signature_by(secret: Seq<u8>, message: Seq<u8>) -> Seq<u8>;

/// Whether an ED25519 verifying key accepts a signature of a message.
pub uninterp spec fn signature_holds(key: Seq<u8>, message: Seq<u8>, signature: Seq<u8>) -> bool;

/// Calls `ed25519_dalek`'s `SigningKey::from_bytes` and `SigningKey::verifying_key`;
/// the bytes of the verifying key are named.
#[verifier::external_body]
pub(crate) fn verifying_key(secret: &[u8; 32]) -> (r: [u8; 32])
    ensures
        r@ == public_key_of(secret@),
{
    SigningKey::from_bytes(secret).verifying_key().to_bytes()
}

/// Calls `ed25519_dalek`'s `Signer::sign` with a `SigningKey`: the signature is
/// named, and the verifying key that belongs to the secret key accepts it.
#[verifier::external_body]
fn sign(secret: &[u8; 32], message: &[u8]) -> (r: [u8; 64])
    ensures
        r@ == signature_by(secret@, message@),
        signature_holds(public_key_of(secret@), message@, r@),
{
    SigningKey::from_bytes(secret).sign(message).to_bytes()
}

/// Calls `ed25519_dalek`'s `VerifyingKey::verify`; whether it accepts is named. It
/// does not where the bytes of the key are those of no key.
#[verifier::external_body]
fn verify(key: &[u8; 32], message: &[u8], signature: &[u8; 64]) -> (r: bool)
    ensures
        r == signature_holds(key@, message@, signature@),
{
    match VerifyingKey::from_bytes(key) {
        Ok(k) => k.verify(message, &ed25519_dalek::Signature::from_bytes(signature)).is_ok(),
        Err(_) => false,
    }
}

/// Calls `fill_bytes` of `rand`'s `OsRng` for a new secret key. Nothing is known of
/// the bytes.
#[verifier::external_body]
pub(crate) fn random_secret() -> (r: [u8; 32])
{
    let mut bytes = [0u8; 32];
    OsRng.fill_bytes(&mut bytes);
    bytes
}

/// Calls `rand::random` for a new user number. Nothing is known of the number.
#[verifier::external_body]
pub(crate) fn random_number() -> (r: u64)
{
    rand::random()
}

/// Whether the signature of an order holds under a key: it is over the bytes of
/// the order.
pub open spec fn signed_under(signed: SignedOrder, key: PublicKey) -> bool {
    signature_holds(key.0@, order_wire(signed.order), signed.signature.0@)
}

/// Whether a signed order bears a good signature under the given key.
pub fn is_signed_under(signed: &SignedOrder, key: &PublicKey) -> (r: bool)
    ensures
        r == signed_under(*signed, *key),
{
    let message = encode_order(&signed.order);
    verify(&key.0, message.as_slice(), &signed.signature.0)
}

/// The verifying key that belongs to a secret key.
pub fn public_key(secret: &[u8; 32]) -> (r: PublicKey)
    ensures
        r.0@ == public_key_of(secret@),
{
    PublicKey(verifying_key(secret))
}

/// Why some text is no secret key.
#[derive(Debug, Clone, Copy, PartialEq, Eq, Structural)]
pub enum SecretTextError {
    NotHex,
    WrongLength,
}

/// A secret key as it is handed to its user: in hexadecimal.
pub fn secret_to_hex(secret: &[u8; 32]) -> (r: String)
    ensures
        r@ == hex_text(secret@),
{
    hex_encode(secret.as_slice())
}

/// The secret key that some text notes in hexadecimal.
pub fn secret_from_hex(text: &str) -> (r: Result<[u8; 32], SecretTextError>)
    ensures
        match hex_read(text@) {
            Some(bytes) => if bytes.len() == 32 {
                r is Ok && r->Ok_0@ == bytes
            } else {
                r == Err::<[u8; 32], SecretTextError>(SecretTextError::WrongLength)
            },
            None => r == Err::<[u8; 32], SecretTextError>(SecretTextError::NotHex),
        },
{
    let bytes = match hex_decode(text) {
        Some(bytes) => bytes,
        None => return Err(SecretTextError::NotHex),
    };
    if bytes.len() != 32 {
        return Err(SecretTextError::WrongLength);
    }
    let mut secret: [u8; 32] = [0u8; 32];
    let mut i: usize = 0;
    while i < 32
        invariant
            i <= 32,
            bytes@.len() == 32,
            forall|j: int| 0 <= j < i ==> secret@[j] == bytes@[j],
        decreases 32 - i,
    {
        secret[i] = bytes[i];
        i += 1;
    }
    assert(secret@ =~= bytes@);
    Ok(secret)
}

/// Signs an order. The signature holds under the key that belongs to the secret.
pub fn sign_order(secret: &[u8; 32], order: Order) -> (r: SignedOrder)
    ensures
        r.order == order,
        r.signature.0@ == signature_by(secret@, order_wire(order)),
        forall|key: PublicKey| key.0@ == public_key_of(secret@) ==> signed_under(r, key),
{
    let message = encode_order(&order);
    SignedOrder { order, signature: Signature(sign(secret, message.as_slice())) }
}

} // verus!
