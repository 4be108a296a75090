use nexa::release::{
    check_signature_length, gitignore_with_key, keypair_hex, parse_public_key, parse_signing_key,
    sign_release, verify_release, HexProblem, SignKeyError, VerifyError,
};

// The first test vector of RFC 8032 (Ed25519, empty message).
const SECRET: &str = "9d61b19deffd5a60ba844af492ec2cc44449c5697b326919703bac031cae7f60";
const PUBLIC: &str = "d75a980182b10ab7d54bfed3c964073a0ee172f3daa62325af021a68f707511a";
const SIGNATURE: &str = "e5564300c360ac729086e2cc806e828a84877f1eb8e5d974d873e065224901555fb8821590a33bacc61e39701cf9b46bd25bf5f0595bbe24655141438e7a100b";

fn bytes(h: &str) -> Vec<u8> {
    (0..h.len() / 2).map(|i| u8::from_str_radix(&h[2 * i..2 * i + 2], 16).unwrap()).collect()
}

#[test]
fn signing_keys_are_read_from_hex() {
    assert_eq!(parse_signing_key(&format!("  {SECRET}\n")), Ok(bytes(SECRET)));
    assert_eq!(parse_signing_key(&SECRET.to_uppercase()), Ok(bytes(SECRET)));
    assert_eq!(parse_signing_key("abc"), Err(SignKeyError::NotHex(HexProblem::OddLength)));
    assert_eq!(
        parse_signing_key("00zz"),
        Err(SignKeyError::NotHex(HexProblem::InvalidChar { c: 'z', index: 2 }))
    );
    assert_eq!(parse_signing_key(&"00".repeat(31)), Err(SignKeyError::Length(31)));
    assert_eq!(parse_signing_key(""), Err(SignKeyError::Length(0)));
}

#[test]
fn keypair_text() {
    let (s, p) = keypair_hex(&bytes(SECRET));
    assert_eq!(s, SECRET);
    assert_eq!(p, PUBLIC);
}

#[test]
fn signing_gives_the_standard_signature() {
    let signed = sign_release(&bytes(SECRET), b"");
    assert_eq!(signed.signature, bytes(SIGNATURE));
    assert_eq!(signed.public_key_hex, PUBLIC);
    assert!(signed.verified);
    let other = sign_release(&bytes(SECRET), b"release 1.2.3");
    assert!(other.verified);
    assert_ne!(other.signature, signed.signature);
}

#[test]
fn releases_verify_with_the_right_key_only() {
    assert!(verify_release(PUBLIC, &bytes(SIGNATURE), b"").is_ok());
    assert!(verify_release(&format!(" {PUBLIC} "), &bytes(SIGNATURE), b"").is_ok());
    assert!(matches!(verify_release(PUBLIC, &bytes(SIGNATURE), b"x"), Err(VerifyError::Failed(_))));
    let mut sig = bytes(SIGNATURE);
    sig[0] ^= 1;
    assert!(matches!(verify_release(PUBLIC, &sig, b""), Err(VerifyError::Failed(_))));
    assert!(matches!(verify_release(PUBLIC, &sig[..63], b""), Err(VerifyError::SigLength(63))));
}

#[test]
fn public_key_errors_in_order() {
    assert!(matches!(parse_public_key(&PUBLIC[..62]), Err(VerifyError::KeyLength(62))));
    let bad = format!("g{}", &PUBLIC[1..]);
    assert!(matches!(
        parse_public_key(&bad),
        Err(VerifyError::KeyNotHex(HexProblem::InvalidChar { c: 'g', index: 0 }))
    ));
    // 32 "é" take 64 bytes: the length passes, the hex does not.
    assert!(matches!(parse_public_key(&"é".repeat(32)), Err(VerifyError::KeyNotHex(_))));
    let invalid = (0u8..=255)
        .map(|b| {
            let mut k = [0u8; 32];
            k[0] = b;
            k
        })
        .find(|k| ed25519_dalek::VerifyingKey::from_bytes(k).is_err())
        .expect("a byte string that is no curve point");
    let text: String = invalid.iter().map(|b| format!("{b:02x}")).collect();
    assert!(matches!(parse_public_key(&text), Err(VerifyError::InvalidKey(_))));
    assert_eq!(parse_public_key(PUBLIC).unwrap(), bytes(PUBLIC));
}

#[test]
fn signature_lengths() {
    assert!(check_signature_length(&[0u8; 64]).is_ok());
    assert!(matches!(check_signature_length(&[0u8; 65]), Err(VerifyError::SigLength(65))));
}

#[test]
fn gitignore_gets_the_key_file_once() {
    assert_eq!(
        gitignore_with_key("target/\n"),
        Some("target/\n\n# Nexa signing key -- NEVER commit\nnexa_signing.key\n".to_string())
    );
    assert_eq!(gitignore_with_key("target/\nnexa_signing.key\n"), None);
    assert_eq!(
        gitignore_with_key(""),
        Some("\n# Nexa signing key -- NEVER commit\nnexa_signing.key\n".to_string())
    );
}
