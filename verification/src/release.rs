//! Signing releases: the checks the release tools make on keys, key files and
//! signatures, with Ed25519 from `ed25519-dalek` and hex from `hex`.
use vstd::prelude::*;
use crate::text::{chars_of, contains_chars, contains_seq, push_str, trim_str, trimmed};
use ed25519_dalek::{Signature, Signer, SigningKey, Verifier, VerifyingKey};

verus! {

/// The error type of `ed25519-dalek` (`SignatureError`), carried through to
/// the caller as it is; nothing inside it is read.
#[verifier::external_type_specification]
#[verifier::external_body]
pub struct ExSignatureError(ed25519_dalek::SignatureError);

/// Why a hex text could not be decoded (`hex::FromHexError`).
#[derive(Clone, Copy, Debug, PartialEq, Eq, Structural)]
pub enum HexProblem {
    /// An odd number of digits.
    OddLength,
    /// The byte at `index`, read as the character `c`, is not a hex digit.
    InvalidChar { c: char, index: usize },
    /// A fixed-size target of another length (never for a byte vector).
    StringLength,
}

/// Whether the byte `b` is a hex digit: `0-9`, `a-f` or `A-F`.
pub open spec fn is_hex_digit(b: u8) -> bool {
    (48 <= b && b <= 57) || (97 <= b && b <= 102) || (65 <= b && b <= 70)
}

/// The value of the hex digit `b`.
pub open spec fn hex_value(b: u8) -> int {
    if 48 <= b && b <= 57 {
        b - 48
    } else if 97 <= b && b <= 102 {
        b - 87
    } else {
        b - 55
    }
}

/// The position of the first byte of `b` from `i` on that is not a hex digit,
/// or -1 if there is none.
pub open spec fn first_non_hex(b: Seq<u8>, i: int) -> int
    decreases b.len() - i,
{
    if i < 0 || i >= b.len() {
        -1
    } else if !is_hex_digit(b[i]) {
        i
    } else {
        first_non_hex(b, i + 1)
    }
}

/// The bytes that the hex digits `b` stand for, two digits a byte, the first
/// of each pair the high half.
pub open spec fn hex_pairs(b: Seq<u8>) -> Seq<u8> {
    Seq::new(b.len() / 2, |i: int| (hex_value(b[2 * i]) * 16 + hex_value(b[2 * i + 1])) as u8)
}

/// What `hex::decode` gives for the bytes `b`: an odd count is refused first,
/// then the first byte that is not a hex digit; otherwise the decoded bytes.
pub open spec fn hex_decoding(b: Seq<u8>) -> Result<Seq<u8>, HexProblem> {
    if b.len() % 2 == 1 {
        Err(HexProblem::OddLength)
    } else if first_non_hex(b, 0) >= 0 {
        Err(HexProblem::InvalidChar { c: b[first_non_hex(b, 0)] as char, index: first_non_hex(b, 0) as usize })
    } else {
        Ok(hex_pairs(b))
    }
}

/// The lowercase hex digit for `d < 16`.
pub open spec fn hex_char(d: int) -> char {
    if d < 10 {
        (48 + d) as char
    } else {
        (87 + d) as char
    }
}

/// The lowercase hex text of the bytes `b`: two digits a byte, high half first.
pub open spec fn hex_text(b: Seq<u8>) -> Seq<char> {
    Seq::new(
        2 * b.len(),
        |i: int|
            hex_char(
                if i % 2 == 0 {
                    b[i / 2] / 16
                } else {
                    b[i / 2] % 16
                } as int,
            ),
    )
}

/// Calls `hex::decode`: the result is as [`hex_decoding`] says.
#[verifier::external_body]
fn decode_hex(bytes: &[u8]) -> (r: Result<Vec<u8>, HexProblem>)
    ensures
        match r {
            Ok(v) => hex_decoding(bytes@) == Ok::<Seq<u8>, HexProblem>(v@),
            Err(e) => hex_decoding(bytes@) == Err::<Seq<u8>, HexProblem>(e),
        },
{
    match hex::decode(bytes) {
        Ok(v) => Ok(v),
        Err(hex::FromHexError::OddLength) => Err(HexProblem::OddLength),
        Err(hex::FromHexError::InvalidHexCharacter { c, index }) => Err(HexProblem::InvalidChar { c, index }),
        Err(hex::FromHexError::InvalidStringLength) => Err(HexProblem::StringLength),
    }
}

/// Calls `hex::encode`: two lowercase hex digits a byte (see [`hex_text`]).
#[verifier::external_body]
fn encode_hex(bytes: &[u8]) -> (r: String)
    ensures
        r@ == hex_text(bytes@),
{
    hex::encode(bytes)
}

/// Whether `VerifyingKey::from_bytes` accepts the 32 bytes `key` as a public key.
pub uninterp spec fn valid_public_key(key: Seq<u8>) -> bool;

/// Whether `VerifyingKey::verify` accepts the signature `sig` of `msg` under
/// the public key `key`.
pub uninterp spec fn signature_valid(key: Seq<u8>, msg: Seq<u8>, sig: Seq<u8>) -> bool;

/// The bytes of the signature that `SigningKey::sign` makes of `msg` with the
/// secret key `secret` (Ed25519 signatures are deterministic).
pub uninterp spec fn signature_of(secret: Seq<u8>, msg: Seq<u8>) -> Seq<u8>;

/// The bytes of the public key of the secret key `secret`
/// (`SigningKey::verifying_key`).
pub uninterp spec fn public_key_of(secret: Seq<u8>) -> Seq<u8>;

/// Calls `VerifyingKey::from_bytes` on the 32 bytes `key`: an error exactly
/// when they are no public key.
#[verifier::external_body]
fn check_public_key(key: &[u8]) -> (r: Result<(), ed25519_dalek::SignatureError>)
    requires
        key@.len() == 32,
    ensures
        r is Ok <==> valid_public_key(key@),
{
    let k: [u8; 32] = key.try_into().unwrap();
    match VerifyingKey::from_bytes(&k) {
        Ok(_) => Ok(()),
        Err(e) => Err(e),
    }
}

/// Calls `VerifyingKey::verify` with the public key of the bytes `key` on
/// `msg` and the 64-byte signature `sig`: success exactly when the signature
/// is valid.
#[verifier::external_body]
fn verify_signature(key: &[u8], msg: &[u8], sig: &[u8]) -> (r: Result<(), ed25519_dalek::SignatureError>)
    requires
        key@.len() == 32,
        valid_public_key(key@),
        sig@.len() == 64,
    ensures
        r is Ok <==> signature_valid(key@, msg@, sig@),
{
    let k: [u8; 32] = key.try_into().unwrap();
    let s: [u8; 64] = sig.try_into().unwrap();
    VerifyingKey::from_bytes(&k).unwrap().verify(msg, &Signature::from_bytes(&s))
}

/// Calls `SigningKey::sign` with the 32-byte secret key `secret` on `msg`.
/// The 64 signature bytes verify under the key's public key: Ed25519
/// signatures made with a key always verify with it.
#[verifier::external_body]
fn sign_message(secret: &[u8], msg: &[u8]) -> (sig: Vec<u8>)
    requires
        secret@.len() == 32,
    ensures
        sig@ == signature_of(secret@, msg@),
        sig@.len() == 64,
        signature_valid(public_key_of(secret@), msg@, sig@),
{
    let k: [u8; 32] = secret.try_into().unwrap();
    SigningKey::from_bytes(&k).sign(msg).to_bytes().to_vec()
}

/// Calls `SigningKey::verifying_key` for the 32-byte secret key `secret`: the
/// 32 bytes of its public key, which `VerifyingKey::from_bytes` accepts (it is
/// the compressed form of a curve point computed from the secret).
#[verifier::external_body]
fn public_key(secret: &[u8]) -> (r: Vec<u8>)
    requires
        secret@.len() == 32,
    ensures
        r@ == public_key_of(secret@),
        r@.len() == 32,
        valid_public_key(r@),
{
    let k: [u8; 32] = secret.try_into().unwrap();
    SigningKey::from_bytes(&k).verifying_key().to_bytes().to_vec()
}

/// Why a release cannot be verified.
#[derive(Debug)]
pub enum VerifyError {
    /// The public key text, trimmed, is not 64 bytes long (its length).
    KeyLength(usize),
    /// The public key text is not hex.
    KeyNotHex(HexProblem),
    /// The 32 bytes are no Ed25519 public key.
    InvalidKey(ed25519_dalek::SignatureError),
    /// The signature is not 64 bytes long (its length).
    SigLength(usize),
    /// The signature does not match the file.
    Failed(ed25519_dalek::SignatureError),
}

/// The bytes of the public key written as `text`: the text trimmed, if its
/// UTF-8 form has 64 bytes, all hex digits, for a valid public key.
pub open spec fn public_key_text(text: Seq<char>) -> Option<Seq<u8>> {
    let b = vstd::utf8::encode_utf8(trimmed(text));
    if b.len() == 64 && hex_decoding(b) is Ok && valid_public_key(hex_pairs(b)) {
        Some(hex_pairs(b))
    } else {
        None
    }
}

/// Reads a public key written in hex (64 digits): the trimmed text must be 64
/// bytes long, decode as hex, and give a valid Ed25519 public key; each
/// failure is reported in this order.
pub fn parse_public_key(text: &str) -> (r: Result<Vec<u8>, VerifyError>)
    ensures
        match r {
            Ok(k) => public_key_text(text@) == Some(k@) && k@.len() == 32,
            Err(VerifyError::KeyLength(n)) => n == vstd::utf8::encode_utf8(trimmed(text@)).len()
                && n != 64,
            Err(VerifyError::KeyNotHex(p)) => {
                let b = vstd::utf8::encode_utf8(trimmed(text@));
                b.len() == 64 && hex_decoding(b) == Err::<Seq<u8>, HexProblem>(p)
            },
            Err(VerifyError::InvalidKey(_)) => {
                let b = vstd::utf8::encode_utf8(trimmed(text@));
                b.len() == 64 && hex_decoding(b) is Ok && !valid_public_key(hex_pairs(b))
            },
            Err(_) => false,
        },
{
    let t = trim_str(text);
    let b = t.as_str().as_bytes();
    let n = b.len();
    if n != 64 {
        return Err(VerifyError::KeyLength(n));
    }
    let k = match decode_hex(b) {
        Ok(k) => k,
        Err(p) => return Err(VerifyError::KeyNotHex(p)),
    };
    assert(k@ == hex_pairs(b@));
    match check_public_key(k.as_slice()) {
        Ok(()) => Ok(k),
        Err(e) => Err(VerifyError::InvalidKey(e)),
    }
}

/// Checks the length of a signature read from a file: it must be 64 bytes.
pub fn check_signature_length(sig: &[u8]) -> (r: Result<(), VerifyError>)
    ensures
        match r {
            Ok(()) => sig@.len() == 64,
            Err(VerifyError::SigLength(n)) => n == sig@.len() && n != 64,
            Err(_) => false,
        },
{
    if sig.len() != 64 {
        Err(VerifyError::SigLength(sig.len()))
    } else {
        Ok(())
    }
}

/// Verifies the signature `sig` of the file bytes `exe` under the public key
/// written as `key_text`: the key is read as [`parse_public_key`] says, the
/// signature must be 64 bytes, and then it must be valid.
pub fn verify_release(key_text: &str, sig: &[u8], exe: &[u8]) -> (r: Result<(), VerifyError>)
    ensures
        r is Ok <==> (match public_key_text(key_text@) {
            Some(k) => sig@.len() == 64 && signature_valid(k, exe@, sig@),
            None => false,
        }),
        r matches Err(VerifyError::KeyLength(n)) ==> n == vstd::utf8::encode_utf8(trimmed(key_text@)).len()
            && n != 64,
        r matches Err(VerifyError::KeyNotHex(p)) ==> ({
            let b = vstd::utf8::encode_utf8(trimmed(key_text@));
            b.len() == 64 && hex_decoding(b) == Err::<Seq<u8>, HexProblem>(p)
        }),
        r matches Err(VerifyError::InvalidKey(_)) ==> ({
            let b = vstd::utf8::encode_utf8(trimmed(key_text@));
            b.len() == 64 && hex_decoding(b) is Ok && !valid_public_key(hex_pairs(b))
        }),
        r matches Err(VerifyError::SigLength(n)) ==> public_key_text(key_text@) is Some && n == sig@.len()
            && n != 64,
        r matches Err(VerifyError::Failed(_)) ==> (match public_key_text(key_text@) {
            Some(k) => sig@.len() == 64 && !signature_valid(k, exe@, sig@),
            None => false,
        }),
{
    let k = match parse_public_key(key_text) {
        Ok(k) => k,
        Err(e) => return Err(e),
    };
    if let Err(e) = check_signature_length(sig) {
        return Err(e);
    }
    match verify_signature(k.as_slice(), exe, sig) {
        Ok(()) => Ok(()),
        Err(e) => Err(VerifyError::Failed(e)),
    }
}

/// Why a signing key file cannot be used.
#[derive(Clone, Copy, Debug, PartialEq, Eq, Structural)]
pub enum SignKeyError {
    /// The trimmed text is not hex.
    NotHex(HexProblem),
    /// The text decodes to this many bytes instead of 32.
    Length(usize),
}

/// Reads a secret key written in hex: the trimmed text must decode as hex,
/// to 32 bytes.
pub fn parse_signing_key(text: &str) -> (r: Result<Vec<u8>, SignKeyError>)
    ensures
        ({
            let b = vstd::utf8::encode_utf8(trimmed(text@));
            match r {
                Ok(k) => hex_decoding(b) == Ok::<Seq<u8>, HexProblem>(k@) && k@.len() == 32,
                Err(SignKeyError::NotHex(p)) => hex_decoding(b) == Err::<Seq<u8>, HexProblem>(p),
                Err(SignKeyError::Length(n)) => hex_decoding(b) is Ok && n == b.len() / 2 && n != 32,
            }
        }),
{
    let t = trim_str(text);
    let b = t.as_str().as_bytes();
    let k = match decode_hex(b) {
        Ok(k) => k,
        Err(p) => return Err(SignKeyError::NotHex(p)),
    };
    if k.len() != 32 {
        return Err(SignKeyError::Length(k.len()));
    }
    Ok(k)
}

/// What signing a release gives.
pub struct SignedRelease {
    /// The 64 bytes of the signature, written next to the file.
    pub signature: Vec<u8>,
    /// The public key, in lowercase hex, that verifies it.
    pub public_key_hex: String,
    /// Whether the signature verified under the public key.
    pub verified: bool,
}

/// Signs the file bytes `exe` with the 32-byte secret key `secret` and checks
/// the signature against the key's public key; that check never fails.
pub fn sign_release(secret: &[u8], exe: &[u8]) -> (r: SignedRelease)
    requires
        secret@.len() == 32,
    ensures
        r.signature@ == signature_of(secret@, exe@),
        r.signature@.len() == 64,
        r.public_key_hex@ == hex_text(public_key_of(secret@)),
        r.verified,
{
    let sig = sign_message(secret, exe);
    let pk = public_key(secret);
    let verified = verify_signature(pk.as_slice(), exe, sig.as_slice()).is_ok();
    let public_key_hex = encode_hex(pk.as_slice());
    SignedRelease { signature: sig, public_key_hex, verified }
}

/// The secret and public key of the 32-byte secret key `secret`, in lowercase hex.
pub fn keypair_hex(secret: &[u8]) -> (r: (String, String))
    requires
        secret@.len() == 32,
    ensures
        r.0@ == hex_text(secret@),
        r.1@ == hex_text(public_key_of(secret@)),
{
    let pk = public_key(secret);
    (encode_hex(secret), encode_hex(pk.as_slice()))
}

/// The file name under which the secret key is kept.
pub open spec fn key_file_name() -> Seq<char> {
    seq!['n', 'e', 'x', 'a', '_', 's', 'i', 'g', 'n', 'i', 'n', 'g', '.', 'k', 'e', 'y']
}

/// The lines added to `.gitignore` so that the secret key is never committed.
pub open spec fn ignore_lines() -> Seq<char> {
    seq!['\n', '#', ' ', 'N', 'e', 'x', 'a', ' ', 's', 'i', 'g', 'n', 'i', 'n', 'g', ' ', 'k', 'e', 'y', ' ', '-', '-', ' ', 'N', 'E', 'V', 'E', 'R', ' ', 'c', 'o', 'm', 'm', 'i', 't', '\n'] + key_file_name() + seq!['\n']
}

/// The new text of `.gitignore`: unchanged (`None`) when it already mentions
/// the key file, else with the ignore lines appended.
pub fn gitignore_with_key(existing: &str) -> (r: Option<String>)
    ensures
        contains_seq(existing@, key_file_name()) ==> r is None,
        !contains_seq(existing@, key_file_name()) ==> (r matches Some(t) && t@ == existing@ + ignore_lines()),
{
    let name = "nexa_signing.key";
    let lines = "\n# Nexa signing key -- NEVER commit\nnexa_signing.key\n";
    proof {
        reveal_strlit("nexa_signing.key");
        reveal_strlit("\n# Nexa signing key -- NEVER commit\nnexa_signing.key\n");
        assert(name@ =~= key_file_name());
        assert(lines@ =~= ignore_lines());
    }
    if contains_chars(chars_of(existing).as_slice(), chars_of(name).as_slice()) {
        return None;
    }
    let mut t = crate::text::string_of(chars_of(existing).as_slice());
    push_str(&mut t, lines);
    Some(t)
}

} // verus!
