//! Uids: a 128-bit ordering key made of a timestamp, a nonce and an editor
//! fingerprint.
use vstd::arithmetic::div_mod::lemma_mod_multiples_vanish;
use vstd::prelude::*;

verus! {

/// Modulus of the 48-bit fingerprint field.
pub const FINGERPRINT_MOD: u64 = 0x1_0000_0000_0000;

/// Modulus of the 16-bit nonce field.
pub const NONCE_MOD: u64 = 0x1_0000;

/// The bytes that a base-58 string decodes to, or `None` when it is not
/// valid base-58.
pub uninterp spec fn base58_decoded(s: Seq<char>) -> Option<Seq<u8>>;

/// The base-58 text of a byte string.
pub uninterp spec fn base58_encoded(b: Seq<u8>) -> Seq<char>;

#[verifier::external_type_specification]
#[verifier::external_body]
pub struct ExBase58DecodeError(bs58::decode::Error);

/// Relies on `bs58::decode(s).into_vec()`: the decoded bytes, or an error
/// when `s` is not valid base-58.
#[verifier::external_body]
fn base58_decode(s: &str) -> (r: Result<Vec<u8>, bs58::decode::Error>)
    ensures
        match r {
            Ok(v) => base58_decoded(s@) == Some(v@),
            Err(_) => base58_decoded(s@) is None,
        },
{
    bs58::decode(s).into_vec()
}

/// Relies on `bs58::encode(b).into_string()`: the base-58 text of `b`.
#[verifier::external_body]
fn base58_encode(b: &[u8]) -> (r: String)
    ensures
        r@ == base58_encoded(b@),
{
    bs58::encode(b).into_string()
}

/// Byte `i` of `b`, or zero past its end.
pub open spec fn byte_or_zero(b: Seq<u8>, i: int) -> nat {
    if 0 <= i < b.len() {
        b[i] as nat
    } else {
        0
    }
}

/// Big-endian value of the first `n` bytes of `b`, padded with zero bytes.
pub open spec fn packed_be(b: Seq<u8>, n: nat) -> nat
    decreases n,
{
    if n == 0 {
        0
    } else {
        packed_be(b, (n - 1) as nat) * 256 + byte_or_zero(b, n - 1)
    }
}

/// The first 16 bytes of `b` packed big-endian into a 128-bit value, masked
/// to its low 48 bits.
pub open spec fn fingerprint_spec(b: Seq<u8>) -> nat {
    packed_be(b, 16) % (FINGERPRINT_MOD as nat)
}

/// Fingerprint of an editor address: that of its base-58 decoding, or zero
/// when the address does not decode.
pub open spec fn editor_fingerprint(editor: Seq<char>) -> nat {
    match base58_decoded(editor) {
        Some(b) => fingerprint_spec(b),
        None => 0,
    }
}

/// Uid layout: `now` in the high 64 bits, the low 16 bits of `nonce` in bits
/// 48 to 63, the fingerprint in the low 48 bits.
pub open spec fn uid_spec(now: u64, nonce: u64, fp: nat) -> nat {
    now as nat * 0x1_0000_0000_0000_0000 + (nonce % NONCE_MOD) as nat * (FINGERPRINT_MOD as nat)
        + fp % (FINGERPRINT_MOD as nat)
}

/// The uid that `make_uid` gives.
pub open spec fn make_uid_spec(now: u64, nonce: u64, editor: Seq<char>) -> u128 {
    uid_spec(now, nonce, editor_fingerprint(editor)) as u128
}

/// Low 48 bits of the first 16 bytes of `decoded` read big-endian.
pub fn fingerprint_of_bytes(decoded: &[u8]) -> (r: u64)
    ensures
        r as nat == fingerprint_spec(decoded@),
        r < FINGERPRINT_MOD,
{
    let m: u64 = FINGERPRINT_MOD;
    let mut acc: u64 = 0;
    let mut i: usize = 0;
    while i < 16
        invariant
            i <= 16,
            acc as nat == packed_be(decoded@, i as nat) % (m as nat),
            m == FINGERPRINT_MOD,
        decreases 16 - i,
    {
        let byte: u64 = if i < decoded.len() {
            decoded[i] as u64
        } else {
            0
        };
        proof {
            let p: int = packed_be(decoded@, i as nat) as int;
            let q: int = p / (m as int);
            let y: int = byte_or_zero(decoded@, i as int) as int;
            assert(byte as int == y);
            assert(p == (m as int) * q + acc);
            assert(p * 256 + y == (m as int) * (q * 256) + (acc as int * 256 + y)) by (nonlinear_arith)
                requires
                    p == (m as int) * q + acc,
            ;
            lemma_mod_multiples_vanish(q * 256, acc as int * 256 + y, m as int);
            assert(packed_be(decoded@, (i + 1) as nat) == p * 256 + y);
        }
        acc = (acc * 256 + byte) % m;
        i = i + 1;
    }
    acc
}

/// Puts `now`, the low 16 bits of `nonce` and the low 48 bits of `fp`
/// together into one uid.
pub fn compose_uid(now: u64, nonce: u64, fp: u64) -> (r: u128)
    ensures
        r as nat == uid_spec(now, nonce, fp as nat),
{
    let n: u128 = now as u128;
    let k: u128 = (nonce & 0xffff) as u128;
    let f: u128 = (fp & 0xffff_ffff_ffff) as u128;
    assert(nonce & 0xffff == nonce % 0x1_0000) by (bit_vector);
    assert(fp & 0xffff_ffff_ffff == fp % 0x1_0000_0000_0000) by (bit_vector);
    assert((n << 64u128) | (k << 48u128) | f == n * 0x1_0000_0000_0000_0000 + k * 0x1_0000_0000_0000
        + f) by (bit_vector)
        requires
            n < 0x1_0000_0000_0000_0000,
            k < 0x1_0000,
            f < 0x1_0000_0000_0000,
    ;
    (n << 64u128) | (k << 48u128) | f
}

/// The uid of a character stamped at `now` with `nonce` by `editor`. An
/// editor address that is not valid base-58 contributes a zero fingerprint.
pub fn make_uid(now: u64, nonce: u64, editor: &str) -> (r: u128)
    ensures
        r == make_uid_spec(now, nonce, editor@),
{
    let fp: u64 = match base58_decode(editor) {
        Ok(decoded) => fingerprint_of_bytes(decoded.as_slice()),
        Err(_) => 0,
    };
    compose_uid(now, nonce, fp)
}

/// The display address of an editor: its raw identity in base-58.
pub fn encode_executor_address(id: &[u8]) -> (r: String)
    ensures
        r@ == base58_encoded(id@),
{
    base58_encode(id)
}

/// Uids made for one editor differ whenever their timestamps differ or their
/// nonces differ in the low 16 bits.
pub proof fn lemma_uid_distinct(now1: u64, nonce1: u64, now2: u64, nonce2: u64, editor: Seq<char>)
    requires
        now1 != now2 || nonce1 % NONCE_MOD != nonce2 % NONCE_MOD,
    ensures
        make_uid_spec(now1, nonce1, editor) != make_uid_spec(now2, nonce2, editor),
{
    let fp = editor_fingerprint(editor);
    let f = fp % (FINGERPRINT_MOD as nat);
    assert(f < FINGERPRINT_MOD);
    assert(uid_spec(now1, nonce1, fp) < 0x1_0000_0000_0000_0000_0000_0000_0000_0000);
    assert(uid_spec(now2, nonce2, fp) < 0x1_0000_0000_0000_0000_0000_0000_0000_0000);
}

} // verus!
