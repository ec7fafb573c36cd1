//! Envelope codec and key hierarchy.
//!
//! An envelope is `nonce(12) ‖ info(16) ‖ ciphertext ‖ tag(16)`. The nonce and
//! the info are fresh random bytes; the info is the HKDF context from which
//! the envelope's own sub-key is derived, the nonce is the AES-256-GCM nonce.

use vstd::prelude::*;
use crate::error::Error;

verus! {

pub const SALT_SIZE: usize = 16;

pub const INFO_SIZE: usize = 16;

pub const KEY_SIZE: usize = 32;

pub const NONCE_SIZE: usize = 12;

pub const TAG_SIZE: usize = 16;

/// Bytes that an envelope adds to its plaintext: nonce, info and tag.
pub const ENVELOPE_OVERHEAD: usize = 44;

/// `ring::error::Unspecified`, carried through as an opaque value.
#[verifier::external_type_specification]
#[verifier::external_body]
pub struct ExUnspecified(ring::error::Unspecified);

/// `std::string::FromUtf8Error`, carried through as an opaque value.
#[verifier::external_type_specification]
#[verifier::external_body]
pub struct ExFromUtf8Error(std::string::FromUtf8Error);

/// What Argon2id with the `argon2` crate's default parameters writes into an
/// output buffer of `out_len` bytes, or `None` where it rejects the inputs.
pub uninterp spec fn argon2id(password: Seq<u8>, salt: Seq<u8>, out_len: nat) -> Option<Seq<u8>>;

/// The 32 bytes of HKDF-SHA-256 with an empty salt.
pub uninterp spec fn hkdf_sha256(ikm: Seq<u8>, info: Seq<u8>) -> Seq<u8>;

/// Ciphertext followed by tag, as AES-256-GCM with empty associated data
/// gives it, or `None` where the key, the nonce or the length is refused.
pub uninterp spec fn aes_256_gcm_seal(key: Seq<u8>, nonce: Seq<u8>, plaintext: Seq<u8>) -> Option<
    Seq<u8>,
>;

/// The plaintext that AES-256-GCM with empty associated data recovers from
/// ciphertext and tag, or `None` where it does not authenticate.
pub uninterp spec fn aes_256_gcm_open(key: Seq<u8>, nonce: Seq<u8>, sealed: Seq<u8>) -> Option<
    Seq<u8>,
>;

/// The lengths that Argon2id with the default parameters accepts: a
/// password of at most 2^32 - 1 bytes, a salt of 8 to 2^32 - 1 bytes, and an
/// output of 4 to 2^32 - 1 bytes.
pub open spec fn argon2_accepts(password_len: nat, salt_len: nat, out_len: nat) -> bool {
    &&& password_len <= 0xFFFF_FFFF
    &&& 8 <= salt_len <= 0xFFFF_FFFF
    &&& 4 <= out_len <= 0xFFFF_FFFF
}

/// The longest plaintext that AES-256-GCM seals: 2^36 - 32 bytes.
pub open spec fn sealable(len: nat) -> bool {
    len <= 0xF_FFFF_FFE0
}

/// The lengths that AES-256-GCM accepts for sealing: a key of 32 bytes, a
/// nonce of 12 bytes and data that is not too long.
pub open spec fn seal_accepts(key_len: nat, nonce_len: nat, data_len: nat) -> bool {
    key_len == KEY_SIZE && nonce_len == NONCE_SIZE && sealable(data_len)
}

/// `argon2::Argon2::default().hash_password_into`. Trusted: the call fills
/// the whole buffer with a value that depends on password, salt and buffer
/// length alone; it fails exactly where that value is `None`, and that is
/// exactly where one of the three lengths is out of range.
#[verifier::external_body]
fn argon2_hash_into(password: &[u8], salt: &[u8], key: &mut [u8]) -> (ok: bool)
    ensures
        final(key)@.len() == old(key)@.len(),
        ok <==> argon2id(password@, salt@, old(key)@.len()) is Some,
        ok <==> argon2_accepts(password@.len(), salt@.len(), old(key)@.len()),
        ok ==> argon2id(password@, salt@, old(key)@.len()) == Some(final(key)@),
{
    argon2::Argon2::default().hash_password_into(password, salt, key).is_ok()
}

/// `ring::hkdf`: extract with an empty salt, expand with `info` to the length
/// of a SHA-256 key, fill `key`. Trusted: `fill` fails if and only if the
/// buffer is not 32 bytes long, and the bytes depend on the inputs alone.
#[verifier::external_body]
fn hkdf_derive_key(master_key: &[u8], info: &[u8], key: &mut [u8]) -> (r: Result<
    (),
    ring::error::Unspecified,
>)
    ensures
        final(key)@.len() == old(key)@.len(),
        r is Ok <==> old(key)@.len() == KEY_SIZE,
        r is Ok ==> final(key)@ == hkdf_sha256(master_key@, info@),
{
    let salt = ring::hkdf::Salt::new(ring::hkdf::HKDF_SHA256, &[]);
    let prk = salt.extract(master_key);
    prk.expand(&[info], ring::hkdf::HKDF_SHA256)?.fill(key)?;
    Ok(())
}

/// `ring::rand::SystemRandom::fill`. Trusted: only that the buffer keeps its
/// length; nothing is said of the bytes nor of success.
#[verifier::external_body]
pub(crate) fn fill_random(dest: &mut [u8]) -> (r: Result<(), ring::error::Unspecified>)
    ensures
        final(dest)@.len() == old(dest)@.len(),
{
    ring::rand::SecureRandom::fill(&ring::rand::SystemRandom::new(), dest)
}

/// `ring::aead::LessSafeKey::seal_in_place_append_tag` under AES-256-GCM with
/// empty associated data. Trusted: the result depends on key, nonce and data
/// alone; the call is refused exactly where the key is not 32 bytes, the
/// nonce is not 12 bytes or the data is longer than 2^36 - 32 bytes; the
/// output is the data's length plus the tag; and opening the output under
/// the same key and nonce gives the data back.
#[verifier::external_body]
fn seal(data: &[u8], key: &[u8], nonce: &[u8]) -> (r: Result<Vec<u8>, ring::error::Unspecified>)
    ensures
        r is Ok <==> aes_256_gcm_seal(key@, nonce@, data@) is Some,
        r is Ok <==> seal_accepts(key@.len(), nonce@.len(), data@.len()),
        r matches Ok(sealed) ==> {
            &&& aes_256_gcm_seal(key@, nonce@, data@) == Some(sealed@)
            &&& sealed@.len() == data@.len() + TAG_SIZE
            &&& aes_256_gcm_open(key@, nonce@, sealed@) == Some(data@)
        },
{
    let unbound_key = ring::aead::UnboundKey::new(&ring::aead::AES_256_GCM, key)?;
    let aead_key = ring::aead::LessSafeKey::new(unbound_key);
    let mut in_out = data.to_vec();
    let nonce = ring::aead::Nonce::try_assume_unique_for_key(nonce)?;
    aead_key.seal_in_place_append_tag(nonce, ring::aead::Aad::empty(), &mut in_out)?;
    Ok(in_out)
}

/// `ring::aead::LessSafeKey::open_in_place` under AES-256-GCM with empty
/// associated data. Trusted: the result depends on key, nonce and data alone,
/// and a plaintext is the data's length less the tag.
#[verifier::external_body]
fn open(data: &[u8], key: &[u8], nonce: &[u8]) -> (r: Result<Vec<u8>, ring::error::Unspecified>)
    ensures
        r is Ok <==> aes_256_gcm_open(key@, nonce@, data@) is Some,
        r matches Ok(plain) ==> {
            &&& aes_256_gcm_open(key@, nonce@, data@) == Some(plain@)
            &&& plain@.len() + TAG_SIZE == data@.len()
        },
{
    let unbound_key = ring::aead::UnboundKey::new(&ring::aead::AES_256_GCM, key)?;
    let aead_key = ring::aead::LessSafeKey::new(unbound_key);
    let mut in_out = data.to_vec();
    let nonce = ring::aead::Nonce::try_assume_unique_for_key(nonce)?;
    let plain_len = aead_key.open_in_place(nonce, ring::aead::Aad::empty(), &mut in_out)?.len();
    in_out.truncate(plain_len);
    Ok(in_out)
}

/// `String::from_utf8`. Trusted: it succeeds exactly on valid UTF-8 and then
/// holds the characters that the bytes encode.
#[verifier::external_body]
fn string_from_utf8(bytes: Vec<u8>) -> (r: Result<String, std::string::FromUtf8Error>)
    ensures
        r is Ok <==> vstd::utf8::valid_utf8(bytes@),
        r matches Ok(s) ==> s@ == vstd::utf8::decode_utf8(bytes@),
{
    String::from_utf8(bytes)
}

/// Derives a key from a password and a salt with Argon2id, into `key`. It
/// succeeds exactly where the three lengths are ones that Argon2id accepts.
pub fn derive_key(password: &[u8], salt: &[u8], key: &mut [u8]) -> (r: Result<(), Error>)
    ensures
        final(key)@.len() == old(key)@.len(),
        r is Ok <==> argon2_accepts(password@.len(), salt@.len(), old(key)@.len()),
        match r {
            Ok(()) => argon2id(password@, salt@, old(key)@.len()) == Some(final(key)@),
            Err(e) => e == Error::CryptoFailure && argon2id(password@, salt@, old(key)@.len())
                is None,
        },
{
    if argon2_hash_into(password, salt, key) {
        Ok(())
    } else {
        Err(Error::CryptoFailure)
    }
}

/// Draws a fresh master-key salt from the system's random source.
pub fn generate_salt() -> (r: Result<[u8; SALT_SIZE], Error>)
    ensures
        r matches Err(e) ==> e == Error::CryptoFailure,
{
    let mut salt = [0u8; SALT_SIZE];
    match fill_random(&mut salt) {
        Ok(_) => Ok(salt),
        Err(_) => Err(Error::CryptoFailure),
    }
}

/// The nonce of an envelope: its first 12 bytes.
pub open spec fn envelope_nonce(envelope: Seq<u8>) -> Seq<u8> {
    envelope.subrange(0, NONCE_SIZE as int)
}

/// The info of an envelope: the 16 bytes after the nonce.
pub open spec fn envelope_info(envelope: Seq<u8>) -> Seq<u8> {
    envelope.subrange(NONCE_SIZE as int, NONCE_SIZE + INFO_SIZE)
}

/// What follows nonce and info: ciphertext and tag.
pub open spec fn envelope_body(envelope: Seq<u8>) -> Seq<u8> {
    envelope.subrange(NONCE_SIZE + INFO_SIZE, envelope.len() as int)
}

/// `envelope` holds `plaintext` under `master_key`: its body is what
/// AES-256-GCM makes of the plaintext under the sub-key that the envelope's
/// info selects and under the envelope's nonce, and opens to it again.
pub open spec fn seals(envelope: Seq<u8>, plaintext: Seq<u8>, master_key: Seq<u8>) -> bool {
    let sub_key = hkdf_sha256(master_key, envelope_info(envelope));
    &&& envelope.len() == plaintext.len() + ENVELOPE_OVERHEAD
    &&& aes_256_gcm_seal(sub_key, envelope_nonce(envelope), plaintext) == Some(
        envelope_body(envelope),
    )
    &&& aes_256_gcm_open(sub_key, envelope_nonce(envelope), envelope_body(envelope)) == Some(
        plaintext,
    )
}

/// What opening `envelope` under `master_key` gives.
pub open spec fn opened(envelope: Seq<u8>, master_key: Seq<u8>) -> Result<Seq<u8>, Error> {
    if envelope.len() < ENVELOPE_OVERHEAD {
        Err(Error::CryptoFailure)
    } else {
        match aes_256_gcm_open(
            hkdf_sha256(master_key, envelope_info(envelope)),
            envelope_nonce(envelope),
            envelope_body(envelope),
        ) {
            Some(plaintext) => Ok(plaintext),
            None => Err(Error::CryptoFailure),
        }
    }
}

/// What opening `envelope` as text gives: the plaintext must be UTF-8.
pub open spec fn opened_as_string(envelope: Seq<u8>, master_key: Seq<u8>) -> Result<
    Seq<char>,
    Error,
> {
    match opened(envelope, master_key) {
        Ok(plaintext) => if vstd::utf8::valid_utf8(plaintext) {
            Ok(vstd::utf8::decode_utf8(plaintext))
        } else {
            Err(Error::CryptoFailure)
        },
        Err(e) => Err(e),
    }
}

/// Round trip: an envelope that holds `plaintext` under a key opens to that
/// plaintext under the same key.
pub proof fn lemma_open_after_seal(envelope: Seq<u8>, plaintext: Seq<u8>, master_key: Seq<u8>)
    requires
        seals(envelope, plaintext, master_key),
    ensures
        opened(envelope, master_key) == Ok::<Seq<u8>, Error>(plaintext),
{
}

/// Draws a fresh nonce and a fresh info from the system's random source.
fn generate_nonce_and_info() -> (r: Result<
    ([u8; NONCE_SIZE], [u8; INFO_SIZE]),
    ring::error::Unspecified,
>) {
    let mut nonce = [0u8; NONCE_SIZE];
    match fill_random(&mut nonce) {
        Ok(_) => {},
        Err(e) => {
            return Err(e);
        },
    }
    let mut info = [0u8; INFO_SIZE];
    match fill_random(&mut info) {
        Ok(_) => Ok((nonce, info)),
        Err(e) => Err(e),
    }
}

/// Lays out an envelope: nonce, then info, then ciphertext and tag.
pub fn merge_nonce_info_and_encrypted_data(nonce: &[u8], info: &[u8], encrypted_data: &[u8]) -> (r:
    Vec<u8>)
    ensures
        r@ == nonce@ + info@ + encrypted_data@,
{
    let mut merged_data: Vec<u8> = Vec::new();
    merged_data.extend_from_slice(nonce);
    merged_data.extend_from_slice(info);
    merged_data.extend_from_slice(encrypted_data);
    assert(merged_data@ =~= nonce@ + info@ + encrypted_data@);
    merged_data
}

/// Takes an envelope apart into nonce, info and what follows them. It fails
/// exactly where the input is too short to hold a nonce and an info.
pub fn split_nonce_info_and_encrypted_data(merged_data: &[u8]) -> (r: Result<
    (Vec<u8>, Vec<u8>, Vec<u8>),
    Error,
>)
    ensures
        match r {
            Ok((nonce, info, encrypted_data)) => {
                &&& merged_data@.len() >= NONCE_SIZE + INFO_SIZE
                &&& nonce@ == envelope_nonce(merged_data@)
                &&& info@ == envelope_info(merged_data@)
                &&& encrypted_data@ == envelope_body(merged_data@)
            },
            Err(e) => e == Error::CryptoFailure && merged_data@.len() < NONCE_SIZE + INFO_SIZE,
        },
{
    let nonce_end = NONCE_SIZE;
    let info_end = NONCE_SIZE + INFO_SIZE;
    if merged_data.len() < info_end {
        return Err(Error::CryptoFailure);
    }
    let nonce = vstd::slice::slice_to_vec(vstd::slice::slice_subrange(merged_data, 0, nonce_end));
    let info = vstd::slice::slice_to_vec(
        vstd::slice::slice_subrange(merged_data, nonce_end, info_end),
    );
    let encrypted_data = vstd::slice::slice_to_vec(
        vstd::slice::slice_subrange(merged_data, info_end, merged_data.len()),
    );
    Ok((nonce, info, encrypted_data))
}

/// The envelope of `plaintext` under `master_key` with the given nonce and
/// info: nonce, info, then what AES-256-GCM makes of the plaintext under
/// the sub-key that the info selects.
pub open spec fn sealed_with(
    plaintext: Seq<u8>,
    master_key: Seq<u8>,
    nonce: Seq<u8>,
    info: Seq<u8>,
) -> Result<Seq<u8>, Error> {
    match aes_256_gcm_seal(hkdf_sha256(master_key, info), nonce, plaintext) {
        Some(body) => Ok(nonce + info + body),
        None => Err(Error::CryptoFailure),
    }
}

/// Seals `data` under a sub-key of `master_key` with a nonce and an info
/// that the caller has drawn. The envelope depends on the arguments alone.
///
/// It succeeds on all data but what is too long for AES-256-GCM to seal.
///
/// A pair of nonce and info must never serve twice under one master key:
/// `encrypt` draws both afresh and is the function to call.
pub fn encrypt_with(
    data: &[u8],
    master_key: &[u8],
    nonce: &[u8; NONCE_SIZE],
    info: &[u8; INFO_SIZE],
) -> (r: Result<Vec<u8>, Error>)
    ensures
        r is Ok <==> sealable(data@.len()),
        match r {
            Ok(envelope) => {
                &&& sealed_with(data@, master_key@, nonce@, info@) == Ok::<Seq<u8>, Error>(
                    envelope@,
                )
                &&& envelope_nonce(envelope@) == nonce@
                &&& envelope_info(envelope@) == info@
                &&& seals(envelope@, data@, master_key@)
            },
            Err(e) => sealed_with(data@, master_key@, nonce@, info@) == Err::<Seq<u8>, Error>(e),
        },
{
    let mut key = [0u8; KEY_SIZE];
    if hkdf_derive_key(master_key, info, &mut key).is_err() {
        return Err(Error::CryptoFailure);
    }
    match seal(data, &key, nonce) {
        Ok(encrypted_data) => {
            let envelope = merge_nonce_info_and_encrypted_data(
                nonce,
                info,
                encrypted_data.as_slice(),
            );
            proof {
                assert(envelope_nonce(envelope@) =~= nonce@);
                assert(envelope_info(envelope@) =~= info@);
                assert(envelope_body(envelope@) =~= encrypted_data@);
            }
            Ok(envelope)
        },
        Err(_) => Err(Error::CryptoFailure),
    }
}

/// Seals `data` under a sub-key of `master_key` into a fresh envelope.
///
/// The nonce and the info come from the system's random source, so two calls
/// on one input give different envelopes; whatever comes back holds `data`
/// under `master_key`. The only error is `CryptoFailure`.
pub fn encrypt(data: &[u8], master_key: &[u8]) -> (r: Result<Vec<u8>, Error>)
    ensures
        match r {
            Ok(envelope) => {
                &&& seals(envelope@, data@, master_key@)
                &&& sealed_with(
                    data@,
                    master_key@,
                    envelope_nonce(envelope@),
                    envelope_info(envelope@),
                ) == Ok::<Seq<u8>, Error>(envelope@)
            },
            Err(e) => e == Error::CryptoFailure,
        },
{
    match generate_nonce_and_info() {
        Ok((nonce, info)) => encrypt_with(data, master_key, &nonce, &info),
        Err(_) => Err(Error::CryptoFailure),
    }
}

/// Opens an envelope under `master_key`. Every failure, whether the envelope
/// is too short or does not authenticate, is the same `CryptoFailure`.
pub fn decrypt(data: &[u8], master_key: &[u8]) -> (r: Result<Vec<u8>, Error>)
    ensures
        match r {
            Ok(plaintext) => opened(data@, master_key@) == Ok::<Seq<u8>, Error>(plaintext@)
                && plaintext@.len() + ENVELOPE_OVERHEAD == data@.len(),
            Err(e) => opened(data@, master_key@) == Err::<Seq<u8>, Error>(e),
        },
{
    if data.len() < ENVELOPE_OVERHEAD {
        return Err(Error::CryptoFailure);
    }
    match split_nonce_info_and_encrypted_data(data) {
        Ok((nonce, info, encrypted_data)) => {
            let mut key = [0u8; KEY_SIZE];
            if hkdf_derive_key(master_key, info.as_slice(), &mut key).is_err() {
                return Err(Error::CryptoFailure);
            }
            match open(encrypted_data.as_slice(), &key, nonce.as_slice()) {
                Ok(decrypted_data) => Ok(decrypted_data),
                Err(_) => Err(Error::CryptoFailure),
            }
        },
        Err(e) => Err(e),
    }
}

/// Opens an envelope whose plaintext is text.
pub fn decrypt_as_string(data: &[u8], master_key: &[u8]) -> (r: Result<String, Error>)
    ensures
        match r {
            Ok(text) => opened_as_string(data@, master_key@) == Ok::<Seq<char>, Error>(text@),
            Err(e) => opened_as_string(data@, master_key@) == Err::<Seq<char>, Error>(e),
        },
{
    match decrypt(data, master_key) {
        Ok(decrypted_data) => match string_from_utf8(decrypted_data) {
            Ok(text) => Ok(text),
            Err(_) => Err(Error::CryptoFailure),
        },
        Err(e) => Err(e),
    }
}

} // verus!
