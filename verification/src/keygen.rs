//! Ed25519 project signing keys: the hexadecimal forms written to the key
//! file and registered with the gateway.

use vstd::prelude::*;
use crate::ci144::hex_char;

verus! {

/// Lower case hexadecimal, two digits per byte, high nibble first.
pub open spec fn spec_hex(data: Seq<u8>) -> Seq<char> {
    Seq::new(
        data.len() * 2,
        |i: int|
            if i % 2 == 0 {
                hex_char((data[i / 2] as int) / 16)
            } else {
                hex_char((data[i / 2] as int) % 16)
            },
    )
}

/// `hex::encode(data)`: lower case hexadecimal, two digits per byte, as
/// `spec_hex` states it.
#[verifier::external_body]
fn hex_encode(data: &[u8]) -> (r: String)
    ensures
        r@ == spec_hex(data@),
{
    hex::encode(data)
}

/// What `ed25519_dalek` derives as the public key of a 32-byte secret key.
pub uninterp spec fn ed25519_public(secret: Seq<u8>) -> Seq<u8>;

/// `ed25519_dalek::SigningKey::from_bytes(secret).verifying_key().to_bytes()`:
/// the public key of a secret key, named `ed25519_public`.
#[verifier::external_body]
fn public_key_of(secret: &[u8; 32]) -> (r: [u8; 32])
    ensures
        r@ == ed25519_public(secret@),
{
    ed25519_dalek::SigningKey::from_bytes(secret).verifying_key().to_bytes()
}

/// `ed25519_dalek::SigningKey::generate(&mut OsRng).to_bytes()`: the bytes
/// of a fresh random secret key; nothing is stated of them.
#[verifier::external_body]
fn random_secret_key() -> (r: [u8; 32]) {
    ed25519_dalek::SigningKey::generate(&mut rand::rngs::OsRng).to_bytes()
}

/// The two hexadecimal forms of a key pair.
pub struct KeyPairText {
    pub private_hex: String,
    pub public_hex: String,
}

/// The hexadecimal forms of the key pair of a secret key.
pub fn key_pair_text(secret: &[u8; 32]) -> (r: KeyPairText)
    ensures
        r.private_hex@ == spec_hex(secret@),
        r.public_hex@ == spec_hex(ed25519_public(secret@)),
{
    let public = public_key_of(secret);
    KeyPairText { private_hex: hex_encode(secret), public_hex: hex_encode(&public) }
}

/// A fresh key pair, in hexadecimal: that of some 32-byte secret key.
pub fn generate_key_pair() -> (r: KeyPairText)
    ensures
        exists|s: Seq<u8>|
            s.len() == 32 && r.private_hex@ == spec_hex(s) && r.public_hex@ == spec_hex(ed25519_public(s)),
{
    let secret = random_secret_key();
    let r = key_pair_text(&secret);
    assert(secret@.len() == 32);
    r
}

/// The name of a project's private key file.
pub open spec fn spec_key_file_name(project: Seq<char>) -> Seq<char> {
    project + ".key"@
}

/// The name of a project's private key file (see `spec_key_file_name`).
pub fn key_file_name(project: &str) -> (r: String)
    ensures
        r@ == spec_key_file_name(project@),
{
    let mut out = String::from_str(project);
    out.append(".key");
    out
}

/// The entry that registers a project's public key with the gateway.
pub open spec fn spec_registration_line(project: Seq<char>, public_hex: Seq<char>) -> Seq<char> {
    "  \""@ + project + "\": \""@ + public_hex + "\""@
}

/// The gateway registration entry (see `spec_registration_line`).
pub fn registration_line(project: &str, public_hex: &str) -> (r: String)
    ensures
        r@ == spec_registration_line(project@, public_hex@),
{
    let mut out = String::from_str("  \"");
    out.append(project);
    out.append("\": \"");
    out.append(public_hex);
    out.append("\"");
    out
}

} // verus!
