//! The authenticated-encryption envelope: key derivation by length-fit,
//! the persistent nonce counter, and sealing/opening of byte records with
//! ChaCha20-Poly1305.
//!
//! An envelope file is laid out as `ciphertext || tag || nonce_be16`: the
//! authenticated encryption of the serialized record under the derived key,
//! followed by the 16-byte big-endian value of the nonce counter that keyed
//! that one frame.

use vstd::prelude::*;
use crate::bytes::{
    spec_u128_from_be_bytes, spec_u128_to_be_bytes, subvec, u128_from_be_bytes, u128_to_be_bytes,
    lemma_u128_be_bytes_roundtrip,
};
use vstd::bytes::{spec_u128_to_le_bytes, u128_to_le_bytes};
use ring::aead::{Aad, LessSafeKey, Nonce, UnboundKey, CHACHA20_POLY1305};

verus! {

/// The largest nonce counter value: `2^96 - 1`, the greatest value whose low
/// 96 bits fill the AEAD nonce without loss.
pub const NONCE_MAX: u128 = 0xFFFF_FFFF_FFFF_FFFF_FFFF_FFFF;

/// The longest plaintext one ChaCha20-Poly1305 frame accepts: the cipher's
/// documented input limit of `(2^32 - 1) * 64` bytes. Sealing a plaintext
/// no longer than this cannot fail.
pub const SEAL_MAX_LEN: u64 = 274_877_906_880;

/// Errors surfaced by the envelope and by the record codec driving it.
#[derive(Clone, Copy, Debug, PartialEq, Eq, Structural)]
pub enum CryptoError {
    /// AEAD open failed: a wrong passphrase and a tampered file are
    /// indistinguishable by design.
    WrongPassphrase,
    /// The AEAD refused the derived key; unreachable given the length-fit.
    CouldNotCreateKey,
    /// Sealing itself failed.
    CouldNotEncrypt,
    /// An envelope file shorter than its 16-byte nonce suffix.
    EncryptedDataTooShort,
    /// Recovering the nonce from an existing target failed, so overwriting
    /// it would risk nonce reuse.
    CannotGetNonceFromExistingFile,
    /// Record serialization failed.
    EncodeError,
    /// The opened plaintext did not decode as the expected record.
    DecodeError,
    /// A filesystem failure on the envelope file itself.
    IoError,
}

/// The passphrase length-fit to the 32-byte key: a passphrase shorter than
/// the key length is repeated cyclically, a longer one is truncated. This is
/// a deterministic length-fit, not a key-derivation function.
pub open spec fn spec_key_fit(s: Seq<u8>) -> Seq<u8>
    recommends
        s.len() > 0,
{
    Seq::new(32, |i: int| s[i % (s.len() as int)])
}

/// Fits passphrase bytes to the AEAD key length.
///
/// The result must match the on-disk format bit-for-bit: a passphrase is
/// repeated by appending prefixes of itself until it reaches 32 bytes, which
/// is the same as reading it cyclically.
pub fn get_compatible_passphrase(passphrase: &Vec<u8>) -> (key: Vec<u8>)
    requires
        passphrase@.len() > 0,
    ensures
        key@ == spec_key_fit(passphrase@),
        key@.len() == 32,
{
    let mut key: Vec<u8> = Vec::new();
    let mut i: usize = 0;
    while i < 32
        invariant
            0 <= i <= 32,
            passphrase@.len() > 0,
            key@.len() == i,
            forall|j: int| 0 <= j < i ==> key@[j] == passphrase@[j % (passphrase@.len() as int)],
        decreases 32 - i,
    {
        key.push(passphrase[i % passphrase.len()]);
        i += 1;
    }
    proof {
        assert(key@ =~= spec_key_fit(passphrase@));
    }
    key
}

/// The successor of a nonce counter: one more, except that a value that
/// would equal or exceed `2^96` wraps back to 1 (0 is never reused).
pub open spec fn spec_advance(c: u128) -> u128 {
    if c >= NONCE_MAX {
        1
    } else {
        (c + 1) as u128
    }
}

/// The 96-bit AEAD nonce for a counter value: the low 12 bytes of the
/// counter serialized little-endian.
pub open spec fn spec_nonce_bytes(c: u128) -> Seq<u8> {
    spec_u128_to_le_bytes(c).take(12)
}

/// Below the wrap point the counter strictly increases, one step at a time;
/// the first counter a fresh file uses is the successor of 0, which is 1.
pub proof fn lemma_nonce_monotonic(c: u128)
    requires
        c < NONCE_MAX,
    ensures
        spec_advance(c) == c + 1,
        spec_advance(c) > c,
        spec_advance(0) == 1,
{
}

/// The nonce counter of one envelope file, advanced once per sealed frame.
pub struct FixedNonceSequence {
    pub counter: u128,
}

impl FixedNonceSequence {
    /// Starts the sequence at a recovered (or zero) counter value.
    pub fn new(counter: u128) -> (s: Self)
        ensures
            s.counter == counter,
    {
        Self { counter }
    }

    /// Steps the counter to the value the next frame will use.
    pub fn advance(&mut self)
        ensures
            final(self).counter == spec_advance(old(self).counter),
    {
        if self.counter >= NONCE_MAX {
            self.counter = 1;
        } else {
            self.counter = self.counter + 1;
        }
    }

    /// The AEAD nonce bytes of the current counter value.
    pub fn nonce_bytes(&self) -> (r: Vec<u8>)
        ensures
            r@ == spec_nonce_bytes(self.counter),
            r@.len() == 12,
    {
        let mut le = u128_to_le_bytes(self.counter);
        le.truncate(12);
        le
    }
}

/// What sealing a plaintext under a key and nonce with ChaCha20-Poly1305
/// returns: the ciphertext with its 16-byte tag appended. The result is a
/// function of the three arguments alone.
pub uninterp spec fn chacha_seal(key: Seq<u8>, nonce: Seq<u8>, plain: Seq<u8>) -> Seq<u8>;

/// Relies on ring's `LessSafeKey::seal_in_place_append_tag` with
/// `CHACHA20_POLY1305`: encryption is deterministic in key, nonce and
/// plaintext, and appends the 16-byte tag to the ciphertext, which is as
/// long as the plaintext. With a 32-byte key the key construction cannot
/// fail, and sealing fails only for a plaintext over the cipher's input
/// limit, so success is owed below it.
#[verifier::external_body]
fn aead_seal(key: &Vec<u8>, nonce: &Vec<u8>, plain: &Vec<u8>) -> (r: Result<Vec<u8>, ()>)
    requires
        key@.len() == 32,
        nonce@.len() == 12,
    ensures
        r matches Ok(sealed) ==> sealed@ == chacha_seal(key@, nonce@, plain@)
            && sealed@.len() == plain@.len() + 16,
        plain@.len() <= SEAL_MAX_LEN ==> r is Ok,
{
    let unbound = match UnboundKey::new(&CHACHA20_POLY1305, key.as_slice()) {
        Ok(k) => k,
        Err(_) => return Err(()),
    };
    let sealing = LessSafeKey::new(unbound);
    let mut nb = [0u8; 12];
    nb.copy_from_slice(nonce.as_slice());
    let mut buf = plain.clone();
    match sealing.seal_in_place_append_tag(Nonce::assume_unique_for_key(nb), Aad::empty(), &mut buf) {
        Ok(()) => Ok(buf),
        Err(_) => Err(()),
    }
}

/// Relies on ring's `LessSafeKey::open_in_place` with `CHACHA20_POLY1305`:
/// opening returns the unique plaintext whose sealing under the same key and
/// nonce is the input, and fails exactly when the input is no such sealing
/// (the tag does not verify).
#[verifier::external_body]
fn aead_open(key: &Vec<u8>, nonce: &Vec<u8>, data: &Vec<u8>) -> (r: Result<Vec<u8>, ()>)
    requires
        key@.len() == 32,
        nonce@.len() == 12,
    ensures
        r matches Ok(plain) ==> data@ == chacha_seal(key@, nonce@, plain@),
        (exists|p: Seq<u8>| data@ == chacha_seal(key@, nonce@, p)) ==> r is Ok,
        r matches Ok(plain) ==> forall|p: Seq<u8>|
            data@ == chacha_seal(key@, nonce@, p) ==> plain@ == p,
{
    let unbound = match UnboundKey::new(&CHACHA20_POLY1305, key.as_slice()) {
        Ok(k) => k,
        Err(_) => return Err(()),
    };
    let opening = LessSafeKey::new(unbound);
    let mut nb = [0u8; 12];
    nb.copy_from_slice(nonce.as_slice());
    let mut buf = data.clone();
    let n = match opening.open_in_place(Nonce::assume_unique_for_key(nb), Aad::empty(), &mut buf) {
        Ok(plain) => plain.len(),
        Err(_) => return Err(()),
    };
    buf.truncate(n);
    Ok(buf)
}

/// The full envelope file for a plaintext sealed under a key with nonce
/// counter `n`: the sealing, then the counter as a 16-byte big-endian suffix.
pub open spec fn spec_envelope(key: Seq<u8>, n: u128, plain: Seq<u8>) -> Seq<u8> {
    chacha_seal(key, spec_nonce_bytes(n), plain) + spec_u128_to_be_bytes(n)
}

/// The nonce counter an envelope file records in its trailing 16 bytes.
pub open spec fn envelope_nonce(data: Seq<u8>) -> u128
    recommends
        data.len() >= 16,
{
    spec_u128_from_be_bytes(data.skip(data.len() - 16))
}

/// An envelope file without its trailing 16 nonce bytes.
pub open spec fn envelope_body(data: Seq<u8>) -> Seq<u8>
    recommends
        data.len() >= 16,
{
    data.take(data.len() - 16)
}

/// Whether a file is a well-formed envelope under a key: long enough to
/// carry its nonce suffix, with a body that is the sealing of some plaintext
/// under that key and its own recorded nonce.
pub open spec fn envelope_valid(key: Seq<u8>, data: Seq<u8>) -> bool {
    data.len() >= 16 && exists|p: Seq<u8>|
        envelope_body(data) == chacha_seal(key, spec_nonce_bytes(envelope_nonce(data)), p)
}

/// Parsing an envelope built from a key, counter and plaintext recovers the
/// counter and the sealed body exactly, whatever length the sealing has.
pub proof fn lemma_envelope_parse(key: Seq<u8>, n: u128, plain: Seq<u8>)
    ensures
        spec_envelope(key, n, plain).len() >= 16,
        envelope_nonce(spec_envelope(key, n, plain)) == n,
        envelope_body(spec_envelope(key, n, plain)) == chacha_seal(key, spec_nonce_bytes(n), plain),
        envelope_valid(key, spec_envelope(key, n, plain)),
{
    let sealed = chacha_seal(key, spec_nonce_bytes(n), plain);
    let file = spec_envelope(key, n, plain);
    lemma_u128_be_bytes_roundtrip(n);
    assert(file.skip(file.len() - 16) =~= spec_u128_to_be_bytes(n));
    assert(file.take(file.len() - 16) =~= sealed);
    assert(envelope_body(file) == chacha_seal(key, spec_nonce_bytes(envelope_nonce(file)), plain));
}

/// The counter that the `k`-th save to one target uses, starting from a
/// fresh target: save 0 uses 1, and each following save advances once.
pub open spec fn nth_save_nonce(k: nat) -> u128
    decreases k,
{
    if k == 0 {
        1
    } else {
        spec_advance(nth_save_nonce((k - 1) as nat))
    }
}

/// Nonce monotonicity over a whole chain of saves: as long as the wrap
/// point is not reached, the `k`-th save to one target uses counter
/// `k + 1`, strictly greater than every counter before it.
pub proof fn lemma_nonce_chain(k: nat)
    requires
        k < NONCE_MAX,
    ensures
        nth_save_nonce(k) == k + 1,
        k > 0 ==> nth_save_nonce(k) > nth_save_nonce((k - 1) as nat),
    decreases k,
{
    if k > 0 {
        lemma_nonce_chain((k - 1) as nat);
    }
}

/// Nonce monotonicity across overwrites: a file sealed under counter `n`
/// records `n` in its trailing bytes, and the counter that the next save
/// over that file uses is exactly one more, strictly greater, until the
/// wrap point.
pub proof fn lemma_overwrite_nonce_monotonic(key: Seq<u8>, n: u128, plain: Seq<u8>)
    requires
        1 <= n < NONCE_MAX,
    ensures
        envelope_nonce(spec_envelope(key, n, plain)) == n,
        spec_advance(envelope_nonce(spec_envelope(key, n, plain))) == n + 1,
{
    lemma_envelope_parse(key, n, plain);
    lemma_nonce_monotonic(n);
}

/// Recovers the nonce counter the next frame for this target must use.
///
/// With no existing file the counter starts at 0 and is advanced to 1. With
/// an existing file its recorded counter is recovered and its body must open
/// under that counter, proving the caller knows the passphrase and the file
/// is intact; the recovered counter is then advanced once.
fn next_nonce(existing: Option<&Vec<u8>>, passphrase: &Vec<u8>) -> (r: Result<u128, CryptoError>)
    requires
        passphrase@.len() > 0,
    ensures
        existing is None ==> r == Ok::<u128, CryptoError>(1u128),
        existing matches Some(d) ==> (d@.len() < 16 ==> r == Err::<u128, CryptoError>(
            CryptoError::CannotGetNonceFromExistingFile,
        )),
        existing matches Some(d) ==> (d@.len() >= 16 && envelope_valid(
            spec_key_fit(passphrase@),
            d@,
        ) ==> r == Ok::<u128, CryptoError>(spec_advance(envelope_nonce(d@)))),
        existing matches Some(d) ==> (d@.len() >= 16 && !envelope_valid(
            spec_key_fit(passphrase@),
            d@,
        ) ==> r == Err::<u128, CryptoError>(CryptoError::CannotGetNonceFromExistingFile)),
{
    let data = match existing {
        None => {
            let mut seq = FixedNonceSequence::new(0);
            seq.advance();
            return Ok(seq.counter);
        },
        Some(d) => d,
    };
    if data.len() < 16 {
        return Err(CryptoError::CannotGetNonceFromExistingFile);
    }
    let suffix = subvec(data, data.len() - 16, data.len());
    let prev = u128_from_be_bytes(&suffix);
    let body = subvec(data, 0, data.len() - 16);
    let key = get_compatible_passphrase(passphrase);
    let prev_seq = FixedNonceSequence::new(prev);
    let nb = prev_seq.nonce_bytes();
    proof {
        assert(suffix@ =~= data@.skip(data@.len() - 16));
        assert(body@ =~= envelope_body(data@));
        assert(prev == envelope_nonce(data@));
    }
    match aead_open(&key, &nb, &body) {
        Ok(plain) => {
            proof {
                assert(envelope_body(data@) == chacha_seal(
                    spec_key_fit(passphrase@),
                    spec_nonce_bytes(envelope_nonce(data@)),
                    plain@,
                ));
            }
            let mut seq = FixedNonceSequence::new(prev);
            seq.advance();
            Ok(seq.counter)
        },
        Err(_) => {
            proof {
                if envelope_valid(spec_key_fit(passphrase@), data@) {
                    let p = choose|p: Seq<u8>|
                        envelope_body(data@) == chacha_seal(
                            spec_key_fit(passphrase@),
                            spec_nonce_bytes(envelope_nonce(data@)),
                            p,
                        );
                    assert(body@ == chacha_seal(key@, nb@, p));
                }
            }
            Err(CryptoError::CannotGetNonceFromExistingFile)
        },
    }
}

/// Seals a serialized record for a target path.
///
/// `existing` carries the target's current content, or `None` if the target
/// does not exist yet. A fresh target is sealed under counter 1; overwriting
/// requires recovering and advancing the existing file's counter, and fails
/// rather than risk nonce reuse when the existing file does not open.
pub fn save_encrypted(plain: &Vec<u8>, existing: Option<&Vec<u8>>, passphrase: &Vec<u8>) -> (r:
    Result<Vec<u8>, CryptoError>)
    requires
        passphrase@.len() > 0,
    ensures
        existing is None ==> (r matches Ok(out) ==> out@ == spec_envelope(
            spec_key_fit(passphrase@),
            1,
            plain@,
        )),
        existing matches Some(d) ==> (r matches Ok(out) ==> d@.len() >= 16 && envelope_valid(
            spec_key_fit(passphrase@),
            d@,
        ) && out@ == spec_envelope(
            spec_key_fit(passphrase@),
            spec_advance(envelope_nonce(d@)),
            plain@,
        )),
        existing matches Some(d) ==> ((d@.len() < 16 || !envelope_valid(
            spec_key_fit(passphrase@),
            d@,
        )) ==> r == Err::<Vec<u8>, CryptoError>(CryptoError::CannotGetNonceFromExistingFile)),
        existing matches Some(d) ==> ((d@.len() >= 16 && envelope_valid(
            spec_key_fit(passphrase@),
            d@,
        )) ==> r != Err::<Vec<u8>, CryptoError>(CryptoError::CannotGetNonceFromExistingFile)),
        existing is None && plain@.len() <= SEAL_MAX_LEN ==> r is Ok,
        existing matches Some(d) ==> ((d@.len() >= 16 && envelope_valid(
            spec_key_fit(passphrase@),
            d@,
        ) && plain@.len() <= SEAL_MAX_LEN) ==> r is Ok),
        r matches Ok(out) ==> out@.len() == plain@.len() + 32,
        r matches Err(e) ==> e == CryptoError::CannotGetNonceFromExistingFile || e
            == CryptoError::CouldNotEncrypt,
        existing is None ==> (r matches Err(e) ==> e == CryptoError::CouldNotEncrypt),
        r matches Err(e) ==> (e == CryptoError::CouldNotEncrypt ==> plain@.len() > SEAL_MAX_LEN),
{
    let n = match next_nonce(existing, passphrase) {
        Ok(n) => n,
        Err(e) => return Err(e),
    };
    let key = get_compatible_passphrase(passphrase);
    let seq = FixedNonceSequence::new(n);
    let nb = seq.nonce_bytes();
    let mut out = match aead_seal(&key, &nb, plain) {
        Ok(sealed) => sealed,
        Err(_) => return Err(CryptoError::CouldNotEncrypt),
    };
    let mut suffix = u128_to_be_bytes(n);
    out.append(&mut suffix);
    Ok(out)
}

/// Opens an envelope file and returns the serialized record inside.
///
/// A file shorter than its nonce suffix is rejected as truncated; a body
/// that does not open under the recorded nonce and the derived key surfaces
/// as a wrong passphrase, indistinguishable from tampering by design. When
/// the body is the sealing of some plaintext under that key and nonce, that
/// plaintext is returned.
pub fn read_decrypted(data: &Vec<u8>, passphrase: &Vec<u8>) -> (r: Result<Vec<u8>, CryptoError>)
    requires
        passphrase@.len() > 0,
    ensures
        data@.len() < 16 <==> r == Err::<Vec<u8>, CryptoError>(CryptoError::EncryptedDataTooShort),
        r matches Ok(plain) ==> data@.len() >= 16 && envelope_body(data@) == chacha_seal(
            spec_key_fit(passphrase@),
            spec_nonce_bytes(envelope_nonce(data@)),
            plain@,
        ),
        forall|p: Seq<u8>|
            (data@.len() >= 16 && envelope_body(data@) == chacha_seal(
                spec_key_fit(passphrase@),
                spec_nonce_bytes(envelope_nonce(data@)),
                p,
            )) ==> (r matches Ok(plain) && plain@ == p),
        r matches Err(e) ==> e == CryptoError::EncryptedDataTooShort || e
            == CryptoError::WrongPassphrase,
{
    if data.len() < 16 {
        return Err(CryptoError::EncryptedDataTooShort);
    }
    let suffix = subvec(data, data.len() - 16, data.len());
    let n = u128_from_be_bytes(&suffix);
    let body = subvec(data, 0, data.len() - 16);
    let key = get_compatible_passphrase(passphrase);
    let seq = FixedNonceSequence::new(n);
    let nb = seq.nonce_bytes();
    proof {
        assert(suffix@ =~= data@.skip(data@.len() - 16));
        assert(body@ =~= envelope_body(data@));
        assert(n == envelope_nonce(data@));
    }
    match aead_open(&key, &nb, &body) {
        Ok(plain) => Ok(plain),
        Err(_) => {
            proof {
                assert forall|p: Seq<u8>|
                    !(envelope_body(data@) == chacha_seal(
                        spec_key_fit(passphrase@),
                        spec_nonce_bytes(envelope_nonce(data@)),
                        p,
                    )) by {
                    if envelope_body(data@) == chacha_seal(
                        spec_key_fit(passphrase@),
                        spec_nonce_bytes(envelope_nonce(data@)),
                        p,
                    ) {
                        assert(body@ == chacha_seal(key@, nb@, p));
                    }
                }
            }
            Err(CryptoError::WrongPassphrase)
        },
    }
}

} // verus!
