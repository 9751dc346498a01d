//! Hashing (`sha2`), hexadecimal text, and Ed25519 signatures
//! (`ed25519_dalek`, keys drawn from `rand_core::OsRng`).

use vstd::prelude::*;

verus! {

// ---------------------------------------------------------------------------
// Hexadecimal
// ---------------------------------------------------------------------------

/// The lowercase hexadecimal digit of a nibble.
pub open spec fn nibble_char(n: int) -> char {
    if n < 10 {
        ((48 + n) as u32) as char
    } else {
        ((87 + n) as u32) as char
    }
}

/// Lowercase hexadecimal text of bytes, two digits per byte.
pub open spec fn hex_of(b: Seq<u8>) -> Seq<char>
    decreases b.len(),
{
    if b.len() == 0 {
        Seq::empty()
    } else {
        hex_of(b.drop_last()) + seq![nibble_char((b.last() / 16) as int), nibble_char((b.last() % 16) as int)]
    }
}

/// The value of a hexadecimal digit (either case).
pub open spec fn hex_value(c: char) -> Option<int> {
    if '0' <= c && c <= '9' {
        Some(c as int - 48)
    } else if 'a' <= c && c <= 'f' {
        Some(c as int - 87)
    } else if 'A' <= c && c <= 'F' {
        Some(c as int - 55)
    } else {
        None
    }
}

/// The bytes hexadecimal text denotes: an even number of hexadecimal digits,
/// two per byte.
pub open spec fn bytes_of_hex(s: Seq<char>) -> Option<Seq<u8>>
    decreases s.len(),
{
    if s.len() % 2 != 0 {
        None
    } else if s.len() == 0 {
        Some(Seq::empty())
    } else {
        match (bytes_of_hex(s.subrange(0, s.len() - 2)), hex_value(s[s.len() - 2]), hex_value(s[s.len() - 1])) {
            (Some(prev), Some(h), Some(l)) => Some(prev.push((h * 16 + l) as u8)),
            _ => None,
        }
    }
}

fn nibble(n: u8) -> (c: char)
    requires
        n < 16,
    ensures
        c == nibble_char(n as int),
{
    if n < 10 {
        ((48 + n) as u8) as char
    } else {
        ((87 + n) as u8) as char
    }
}

/// Lowercase hexadecimal text of bytes (`hex::encode`).
pub fn hex_encode(b: &[u8]) -> (s: String)
    ensures
        s@ == hex_of(b@),
{
    let mut out: Vec<char> = Vec::new();
    let mut i: usize = 0;
    while i < b.len()
        invariant
            i <= b@.len(),
            out@ == hex_of(b@.take(i as int)),
        decreases b@.len() - i,
    {
        proof {
            assert(b@.take(i + 1).drop_last() =~= b@.take(i as int));
        }
        out.push(nibble(b[i] / 16));
        out.push(nibble(b[i] % 16));
        i += 1;
    }
    assert(b@.take(b@.len() as int) =~= b@);
    crate::text::string_of(out.as_slice())
}

fn hex_digit_value(c: char) -> (r: Option<u8>)
    ensures
        match r {
            Some(v) => hex_value(c) == Some(v as int) && v < 16,
            None => hex_value(c) is None,
        },
{
    if '0' <= c && c <= '9' {
        Some(((c as u32) - 48) as u8)
    } else if 'a' <= c && c <= 'f' {
        Some(((c as u32) - 87) as u8)
    } else if 'A' <= c && c <= 'F' {
        Some(((c as u32) - 55) as u8)
    } else {
        None
    }
}

/// The bytes of hexadecimal text (`hex::decode`): `None` for an odd number
/// of digits or a character that is not a hexadecimal digit.
pub fn hex_decode(s: &str) -> (r: Option<Vec<u8>>)
    ensures
        match r {
            Some(v) => bytes_of_hex(s@) == Some(v@),
            None => bytes_of_hex(s@) is None,
        },
{
    let cs = crate::text::chars_of(s);
    if cs.len() % 2 != 0 {
        return None;
    }
    let mut out: Vec<u8> = Vec::new();
    let mut i: usize = 0;
    while i < cs.len()
        invariant
            cs@ == s@,
            cs@.len() % 2 == 0,
            i % 2 == 0,
            i <= cs@.len(),
            bytes_of_hex(cs@.subrange(0, i as int)) == Some(out@),
        decreases cs@.len() - i,
    {
        proof {
            assert(cs@.subrange(0, i + 2).subrange(0, i as int) =~= cs@.subrange(0, i as int));
        }
        let h = hex_digit_value(cs[i]);
        let l = hex_digit_value(cs[i + 1]);
        match (h, l) {
            (Some(h), Some(l)) => {
                out.push(h * 16 + l);
            },
            _ => {
                proof {
                    lemma_hex_prefix_none(cs@, i as int + 2);
                }
                return None;
            },
        }
        i += 2;
    }
    assert(cs@.subrange(0, cs@.len() as int) =~= cs@);
    Some(out)
}

/// A bad pair of digits makes every longer even prefix undecodable.
proof fn lemma_hex_prefix_none(s: Seq<char>, i: int)
    requires
        s.len() % 2 == 0,
        i % 2 == 0,
        2 <= i <= s.len(),
        bytes_of_hex(s.subrange(0, i)) is None,
    ensures
        bytes_of_hex(s) is None,
    decreases s.len() - i,
{
    if i == s.len() {
        assert(s.subrange(0, i) =~= s);
    } else {
        assert(s.subrange(0, i + 2).subrange(0, i) =~= s.subrange(0, i));
        lemma_hex_prefix_none(s, i + 2);
    }
}

/// Decoding the text of any bytes gives them back.
pub proof fn lemma_hex_roundtrip(b: Seq<u8>)
    ensures
        bytes_of_hex(hex_of(b)) == Some(b),
    decreases b.len(),
{
    if b.len() > 0 {
        lemma_hex_roundtrip(b.drop_last());
        let s = hex_of(b);
        let p = hex_of(b.drop_last());
        lemma_hex_len(b.drop_last());
        assert(s.subrange(0, s.len() - 2) =~= p);
        let x = b.last();
        assert((x / 16) * 16 + x % 16 == x);
    }
}

/// Hexadecimal text has two digits per byte.
pub proof fn lemma_hex_len(b: Seq<u8>)
    ensures
        hex_of(b).len() == 2 * b.len(),
    decreases b.len(),
{
    if b.len() > 0 {
        lemma_hex_len(b.drop_last());
    }
}

// ---------------------------------------------------------------------------
// SHA-256
// ---------------------------------------------------------------------------

/// The SHA-256 digest of some bytes.
pub uninterp spec fn sha256_digest(bytes: Seq<u8>) -> Seq<u8>;

/// `sha2::Sha256::digest`: the 32-byte digest.
#[verifier::external_body]
pub(crate) fn sha256(bytes: &[u8]) -> (r: Vec<u8>)
    ensures
        r@ == sha256_digest(bytes@),
        r@.len() == 32,
{
    <sha2::Sha256 as sha2::Digest>::digest(bytes).to_vec()
}

// ---------------------------------------------------------------------------
// Ed25519
// ---------------------------------------------------------------------------

/// The public key of a 32-byte secret key.
pub uninterp spec fn ed25519_public(secret: Seq<u8>) -> Seq<u8>;

/// The Ed25519 signature of a message under a secret key (RFC 8032
/// signatures are deterministic).
pub uninterp spec fn ed25519_signature(secret: Seq<u8>, msg: Seq<u8>) -> Seq<u8>;

/// Whether a public key accepts a signature of a message.
pub uninterp spec fn ed25519_accepts(public_key: Seq<u8>, msg: Seq<u8>, sig: Seq<u8>) -> bool;

/// A fresh secret key from the operating system's generator
/// (`SigningKey::generate` with `OsRng`). Nothing is stated of its value.
#[verifier::external_body]
pub(crate) fn random_secret() -> [u8; 32] {
    ed25519_dalek::SigningKey::generate(&mut rand_core::OsRng).to_bytes()
}

/// The public key of a secret key (`SigningKey::verifying_key`).
#[verifier::external_body]
pub(crate) fn ed25519_public_key(secret: &[u8]) -> (r: Vec<u8>)
    requires
        secret@.len() == 32,
    ensures
        r@ == ed25519_public(secret@),
        r@.len() == 32,
{
    let s: [u8; 32] = secret.try_into().unwrap();
    ed25519_dalek::SigningKey::from_bytes(&s).verifying_key().to_bytes().to_vec()
}

/// Signs a message (`Signer::sign` of `SigningKey`); the signature is
/// accepted by the key's public key.
#[verifier::external_body]
pub(crate) fn ed25519_sign(secret: &[u8], msg: &[u8]) -> (r: Vec<u8>)
    requires
        secret@.len() == 32,
    ensures
        r@ == ed25519_signature(secret@, msg@),
        r@.len() == 64,
        ed25519_accepts(ed25519_public(secret@), msg@, r@),
{
    let s: [u8; 32] = secret.try_into().unwrap();
    let key = ed25519_dalek::SigningKey::from_bytes(&s);
    ed25519_dalek::Signer::sign(&key, msg).to_bytes().to_vec()
}

/// Checks a signature (`VerifyingKey::from_bytes`, then `Verifier::verify`);
/// a key that is not a valid point accepts nothing.
#[verifier::external_body]
pub(crate) fn ed25519_verify(public_key: &[u8], msg: &[u8], sig: &[u8]) -> (r: bool)
    requires
        public_key@.len() == 32,
        sig@.len() == 64,
    ensures
        r == ed25519_accepts(public_key@, msg@, sig@),
{
    let pk: [u8; 32] = public_key.try_into().unwrap();
    let sg: [u8; 64] = sig.try_into().unwrap();
    match ed25519_dalek::VerifyingKey::from_bytes(&pk) {
        Ok(k) => ed25519_dalek::Verifier::verify(&k, msg, &ed25519_dalek::Signature::from_bytes(&sg)).is_ok(),
        Err(_) => false,
    }
}

} // verus!
