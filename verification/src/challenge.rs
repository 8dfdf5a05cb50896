//! The remainder that a challenge starts from: it is bound to the nonce and to
//! the key.
use sha2::{Digest, Sha256};
use vstd::arithmetic::div_mod::{
    lemma_fundamental_div_mod, lemma_mod_bound, lemma_mod_decreases, lemma_mod_multiples_basic,
};
use vstd::arithmetic::power2::{lemma2_to64, lemma_pow2_strictly_increases, pow2};
use vstd::prelude::*;
use vstd::utf8::{encode_utf8, is_ascii_chars, is_ascii_chars_encode_utf8};

use crate::key::Key;
use crate::natural::{
    be_bytes, be_value, lemma_be_bytes_len, lemma_be_bytes_value, lemma_be_value_bound, Natural,
};

verus! {

/// The SHA-256 digest of `data`.
pub uninterp spec fn sha256_of(data: Seq<u8>) -> Seq<u8>;

/// A new `Sha256` that is updated with some bytes and then finalized gives a
/// digest of 32 bytes that depends on those bytes alone. What it is for given
/// bytes is not stated.
#[verifier::external_body]
fn sha256(data: &[u8]) -> (r: Vec<u8>)
    ensures
        r@ == sha256_of(data@),
        r@.len() == 32,
{
    let mut hasher = Sha256::new();
    hasher.update(data);
    hasher.finalize().to_vec()
}

/// What is hashed for a challenge: a tag, the nonce and the bytes of the key's
/// number.
pub open spec fn challenge_preimage(n: nat, nonce: Seq<u8>) -> Seq<u8> {
    encode_utf8("doors-chal-v1"@) + nonce + be_bytes(n)
}

/// The number that `hash` stands for, brought below `n`; 1 in place of 0.
pub open spec fn nonzero_residue(hash: Seq<u8>, n: nat) -> nat {
    if be_value(hash) % n == 0 {
        1
    } else {
        be_value(hash) % n
    }
}

/// The remainder that the challenge for this nonce starts from.
pub open spec fn challenge_of(n: nat, nonce: Seq<u8>) -> nat {
    nonzero_residue(sha256_of(challenge_preimage(n, nonce)), n)
}

/// The remainder that a hash gives for the number `n`.
pub fn remainder_of_hash(hash: &[u8], n: &Natural) -> (r: Natural)
    requires
        n@ > 1,
    ensures
        r@ == nonzero_residue(hash@, n@),
        0 < r@ < n@,
{
    let rem = Natural::from_bytes_be(hash).modulo(n);
    proof {
        lemma_mod_bound(be_value(hash@) as int, n@ as int);
    }
    if rem.is_zero() {
        Natural::one()
    } else {
        rem
    }
}

/// The remainder that the challenge for this nonce starts from. It is below the
/// key's number, not 0, and has no more than 32 bytes.
pub fn challenge_remainder(key: &Key, nonce: &[u8]) -> (r: Natural)
    requires
        key.wf(),
    ensures
        r@ == challenge_of(key.n@, nonce@),
        0 < r@ < key.n@,
        be_bytes(r@).len() <= 32,
{
    let mut data: Vec<u8> = Vec::new();
    data.extend_from_slice("doors-chal-v1".as_bytes());
    data.extend_from_slice(nonce);
    data.extend_from_slice(key.n.to_bytes_be().as_slice());
    assert(data@ =~= challenge_preimage(key.n@, nonce@));
    let hash = sha256(data.as_slice());
    proof {
        lemma_be_value_bound(hash@);
        lemma_residue_is_small(be_value(hash@), key.n@);
        lemma_be_bytes_len(nonzero_residue(hash@, key.n@), 32);
    }
    remainder_of_hash(hash.as_slice(), &key.n)
}

proof fn lemma_residue_is_small(v: nat, n: nat)
    requires
        v < pow2(256),
        n > 1,
    ensures
        v % n <= v,
        1 < pow2(256),
{
    lemma_mod_decreases(v, n);
    lemma2_to64();
    lemma_pow2_strictly_increases(0, 256);
}

/// What is hashed for a challenge is the ASCII text `doors-chal-v1`, the whole nonce
/// and the whole number. So for one number it tells any two nonces apart, and for
/// one nonce any two numbers.
pub proof fn law_preimage_holds_nonce_and_key(n: nat, nonce: Seq<u8>, m: nat, other: Seq<u8>)
    ensures
        challenge_preimage(n, nonce).len() == 13 + nonce.len() + be_bytes(n).len(),
        challenge_preimage(n, nonce).take(13) == seq![
            100u8, 111, 111, 114, 115, 45, 99, 104, 97, 108, 45, 118, 49,
        ],
        challenge_preimage(n, nonce).subrange(13, 13 + nonce.len() as int) == nonce,
        be_value(challenge_preimage(n, nonce).skip(13 + nonce.len() as int)) == n,
        challenge_preimage(n, nonce) == challenge_preimage(n, other) ==> nonce == other,
        challenge_preimage(n, nonce) == challenge_preimage(m, nonce) ==> n == m,
{
    let tag = "doors-chal-v1"@;
    reveal_strlit("doors-chal-v1");
    assert(is_ascii_chars(tag));
    is_ascii_chars_encode_utf8(tag);
    let p = challenge_preimage(n, nonce);
    assert(p.take(13) =~= seq![100u8, 111, 111, 114, 115, 45, 99, 104, 97, 108, 45, 118, 49]);
    assert(p.subrange(13, 13 + nonce.len() as int) =~= nonce);
    assert(p.skip(13 + nonce.len() as int) =~= be_bytes(n));
    lemma_be_bytes_value(n);
    lemma_be_bytes_value(m);
    let q = challenge_preimage(n, other);
    assert(q.subrange(13, 13 + other.len() as int) =~= other);
    let r = challenge_preimage(m, nonce);
    assert(r.skip(13 + nonce.len() as int) =~= be_bytes(m));
}

/// The remainder that a hash gives is congruent to it, and above 0 and below `n`.
/// Where the hash is a multiple of `n` no such number is congruent to it, and the
/// remainder is 1.
pub proof fn law_residue_is_congruent(hash: Seq<u8>, n: nat)
    requires
        n > 1,
    ensures
        0 < nonzero_residue(hash, n) < n,
        (exists|q: nat| be_value(hash) == #[trigger] (q * n)) ==> nonzero_residue(hash, n) == 1,
        (exists|q: nat| be_value(hash) == #[trigger] (q * n)) || (exists|q: nat|
            be_value(hash) == #[trigger] (q * n) + nonzero_residue(hash, n)),
{
    let v = be_value(hash);
    lemma_mod_bound(v as int, n as int);
    lemma_fundamental_div_mod(v as int, n as int);
    let k = v / n;
    assert(v == k * n + v % n) by (nonlinear_arith)
        requires
            v == n * k + v % n,
    ;
    assert forall|q: nat| v == #[trigger] (q * n) implies v % n == 0 by {
        lemma_mod_multiples_basic(q as int, n as int);
    }
}

/// A challenge starts from the remainder of the SHA-256 digest of `doors-chal-v1`,
/// the nonce and the bytes of the number, or from 1 in place of 0.
pub proof fn law_challenge_is_bound_to_nonce_and_key(n: nat, nonce: Seq<u8>, data: Seq<u8>)
    requires
        n > 1,
        data.len() == 13 + nonce.len() + be_bytes(n).len(),
        data.take(13) == seq![100u8, 111, 111, 114, 115, 45, 99, 104, 97, 108, 45, 118, 49],
        data.subrange(13, 13 + nonce.len() as int) == nonce,
        data.skip(13 + nonce.len() as int) == be_bytes(n),
    ensures
        0 < challenge_of(n, nonce) < n,
        be_value(sha256_of(data)) % n == 0 ==> challenge_of(n, nonce) == 1,
        be_value(sha256_of(data)) % n != 0 ==> challenge_of(n, nonce) == be_value(sha256_of(data))
            % n,
{
    law_preimage_holds_nonce_and_key(n, nonce, n, nonce);
    let p = challenge_preimage(n, nonce);
    assert(p.skip(13 + nonce.len() as int) =~= be_bytes(n));
    assert(data =~= data.take(13) + data.subrange(13, 13 + nonce.len() as int) + data.skip(
        13 + nonce.len() as int,
    ));
    assert(p =~= p.take(13) + p.subrange(13, 13 + nonce.len() as int) + p.skip(13 + nonce.len() as int));
    law_residue_is_congruent(sha256_of(p), n);
}

} // verus!
