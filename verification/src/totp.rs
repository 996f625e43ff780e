//! TOTP login setup: checking a code against the current secret, creating a
//! new secret, and the provisioning URI and QR code an authenticator scans.

use vstd::prelude::*;
use vstd::string::StringSliceAdditionalSpecFns;
use crate::text::{str_eq, opt_view};

verus! {

/// What `totp_lite::totp_custom::<Sha1>` returns for a step, a number of
/// digits, a key and a Unix time.
pub uninterp spec fn totp_sha1(step: u64, digits: u32, key: Seq<u8>, time: u64) -> Seq<char>;

/// `totp_lite::totp_custom::<Sha1>(step, digits, key, time)`: the HMAC-SHA1
/// one-time password of the step holding `time`. The code is named
/// `totp_sha1`; that it has `digits` decimal digits is the crate's format
/// (`{:0digits$}` of a value below 10^digits). A zero step would divide by
/// zero, and more than 19 digits would overflow `10^digits`.
#[verifier::external_body]
fn totp_code(step: u64, digits: u32, key: &[u8], time: u64) -> (r: String)
    requires
        step > 0,
        1 <= digits <= 19,
    ensures
        r@ == totp_sha1(step, digits, key@, time),
        r@.len() == digits,
        forall|i: int| 0 <= i < digits ==> '0' <= #[trigger] r@[i] && r@[i] <= '9',
{
    totp_lite::totp_custom::<totp_lite::Sha1>(step, digits, key, time)
}

/// `chrono::Utc::now().timestamp()` taken as a `u64`: the current time, of
/// which nothing is stated.
#[verifier::external_body]
fn unix_now() -> (r: u64) {
    chrono::Utc::now().timestamp() as u64
}

/// The code an authenticator app shows for a key at a time: six digits,
/// 30-second steps, HMAC-SHA1.
pub open spec fn authenticator_code(key: Seq<u8>, time: u64) -> Seq<char> {
    totp_sha1(30, 6, key, time)
}

/// A code is accepted for a key at time `now` when it is the code of the
/// previous, the current or the next 30-second step (times wrap around `u64`).
pub open spec fn spec_totp_accepts(code: Seq<char>, key: Seq<u8>, now: u64) -> bool {
    code == authenticator_code(key, now.wrapping_sub(30)) || code == authenticator_code(key, now)
        || code == authenticator_code(key, now.wrapping_add(30))
}

/// The data whose unpadded base32 form is `text`, if there is one (the
/// encoding is one to one, so there is at most one).
pub open spec fn spec_base32_decode(text: Seq<char>) -> Option<Seq<u8>> {
    if exists|d: Seq<u8>| #[trigger] spec_base32_nopad(d) == text {
        Some(choose|d: Seq<u8>| #[trigger] spec_base32_nopad(d) == text)
    } else {
        None
    }
}

/// `data_encoding::BASE32_NOPAD.decode(text)`, its error dropped. The crate
/// documents this encoding as correct (decoding an encoding gives the data
/// back) and canonical (decoding rejects every text that is not the encoding
/// of some data), so the result is `spec_base32_decode`.
#[verifier::external_body]
fn base32_nopad_decode(text: &str) -> (r: Option<Vec<u8>>)
    ensures
        match r {
            Some(k) => spec_base32_decode(text@) == Some(k@),
            None => spec_base32_decode(text@) is None,
        },
{
    data_encoding::BASE32_NOPAD.decode(text.as_bytes()).ok()
}

/// A code is accepted for a stored secret when the secret is base32 text and
/// the code is accepted for the key it encodes; a secret that is not base32
/// accepts no code.
pub open spec fn spec_secret_accepts(code: Seq<char>, secret: Seq<char>, now: u64) -> bool {
    match spec_base32_decode(secret) {
        Some(key) => spec_totp_accepts(code, key, now),
        None => false,
    }
}

/// Whether `code` is accepted for the base32 `secret` at time `now` (see
/// `spec_secret_accepts`).
pub fn totp_accepts_at(code: &str, secret: &str, now: u64) -> (r: bool)
    ensures
        r == spec_secret_accepts(code@, secret@, now),
{
    let key = match base32_nopad_decode(secret) {
        Some(k) => k,
        None => {
            return false;
        },
    };
    let before = totp_code(30, 6, key.as_slice(), now.wrapping_sub(30));
    if str_eq(before.as_str(), code) {
        return true;
    }
    let current = totp_code(30, 6, key.as_slice(), now);
    if str_eq(current.as_str(), code) {
        return true;
    }
    let after = totp_code(30, 6, key.as_slice(), now.wrapping_add(30));
    str_eq(after.as_str(), code)
}

/// Whether `code` is accepted for `secret` now: the check of
/// `totp_accepts_at` at the time the clock gives.
pub fn verify_current_totp(code: &str, secret: &str) -> (r: bool)
    ensures
        exists|now: u64| r == spec_secret_accepts(code@, secret@, now),
{
    let now = unix_now();
    totp_accepts_at(code, secret, now)
}

/// The RFC 4648 base32 symbol of a 5-bit value.
pub open spec fn base32_symbol(v: int) -> char {
    if v < 26 {
        (65 + v) as char
    } else {
        (24 + v) as char
    }
}

/// Bit `k` of `data`, most significant bit of each byte first; 0 past the end.
pub open spec fn bit_of(data: Seq<u8>, k: int) -> int {
    if k < data.len() * 8 {
        ((data[k / 8] as int) / pow2_small(7 - k % 8)) % 2
    } else {
        0
    }
}

pub open spec fn pow2_small(e: int) -> int
    decreases e,
{
    if e <= 0 {
        1
    } else {
        2 * pow2_small(e - 1)
    }
}

/// The value of the `i`-th group of 5 bits.
pub open spec fn base32_group(data: Seq<u8>, i: int) -> int {
    16 * bit_of(data, 5 * i) + 8 * bit_of(data, 5 * i + 1) + 4 * bit_of(data, 5 * i + 2) + 2 * bit_of(
        data,
        5 * i + 3,
    ) + bit_of(data, 5 * i + 4)
}

/// Unpadded RFC 4648 base32: one symbol per 5 bits, the last group filled
/// with zero bits.
pub open spec fn spec_base32_nopad(data: Seq<u8>) -> Seq<char> {
    Seq::new(((data.len() * 8 + 4) / 5) as nat, |i: int| base32_symbol(base32_group(data, i)))
}

/// `data_encoding::BASE32_NOPAD.encode(data)`: unpadded base32 with the
/// alphabet `A`-`Z`, `2`-`7`, as `spec_base32_nopad` states it.
#[verifier::external_body]
fn base32_nopad(data: &[u8]) -> (r: String)
    ensures
        r@ == spec_base32_nopad(data@),
{
    data_encoding::BASE32_NOPAD.encode(data)
}

/// Twenty bytes from the operating system's random source
/// (`rand::rngs::OsRng`); nothing is stated of them.
#[verifier::external_body]
fn random_seed() -> (r: [u8; 20]) {
    let mut seed = [0u8; 20];
    rand::RngCore::fill_bytes(&mut rand::rngs::OsRng, &mut seed);
    seed
}

/// The base32 form of a TOTP seed (see `spec_base32_nopad`).
pub fn secret_of_seed(seed: &[u8]) -> (r: String)
    ensures
        r@ == spec_base32_nopad(seed@),
{
    base32_nopad(seed)
}

/// A fresh TOTP secret: the base32 form of twenty random bytes.
pub fn new_totp_secret() -> (r: String)
    ensures
        exists|seed: Seq<u8>| seed.len() == 20 && r@ == spec_base32_nopad(seed),
{
    let seed = random_seed();
    let r = secret_of_seed(&seed);
    assert(seed@.len() == 20);
    r
}

/// The provisioning URI an authenticator app scans for a secret.
pub open spec fn spec_provisioning_uri(secret: Seq<char>) -> Seq<char> {
    "otpauth://totp/LunarAST?secret="@ + secret + "&issuer=LunarAST&digits=6"@
}

/// The provisioning URI for a secret (see `spec_provisioning_uri`).
pub fn provisioning_uri(secret: &str) -> (r: String)
    ensures
        r@ == spec_provisioning_uri(secret@),
{
    let mut out = String::from_str("otpauth://totp/LunarAST?secret=");
    out.append(secret);
    out.append("&issuer=LunarAST&digits=6");
    out
}

/// What the QR rendering below returns for some data: the code drawn with
/// dense half-block characters, or none when the data cannot be encoded.
pub uninterp spec fn qr_dense_text(data: Seq<u8>) -> Option<Seq<char>>;

/// `qrcode::QrCode::new(data)` rendered with `render::unicode::Dense1x2`,
/// no quiet zone and module dimensions 2 by 1; none when `QrCode::new`
/// fails (the data does not fit). The drawing is named `qr_dense_text`.
#[verifier::external_body]
fn qr_dense(data: &[u8]) -> (r: Option<String>)
    ensures
        opt_view(r) == qr_dense_text(data@),
{
    match qrcode::QrCode::new(data) {
        Ok(code) => Some(
            code.render::<qrcode::render::unicode::Dense1x2>().quiet_zone(false).module_dimensions(2, 1).build(),
        ),
        Err(_) => None,
    }
}

/// The QR code of a provisioning URI, drawn for a terminal.
pub fn provisioning_qr(uri: &str) -> (r: Option<String>)
    ensures
        opt_view(r) == qr_dense_text(uri.spec_bytes()),
{
    qr_dense(uri.as_bytes())
}


/// For a secret that encodes a key, the code of the current 30-second step
/// is accepted, and so is the code of the step before (a code typed just as
/// the step turns over).
pub proof fn law_current_code_accepted(secret: Seq<char>, key: Seq<u8>, now: u64)
    requires
        spec_base32_decode(secret) == Some(key),
    ensures
        spec_secret_accepts(authenticator_code(key, now), secret, now),
        spec_secret_accepts(authenticator_code(key, now.wrapping_sub(30)), secret, now),
{
}

} // verus!
