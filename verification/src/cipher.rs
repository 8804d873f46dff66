//! AES-256-GCM and the system's random source, as the `aes_gcm` and `getrandom` crates give them.
//!
//! Nothing in this file is proved. Each function states what the crate's source
//! shows of the call in its body, and the rest of the library is proved from
//! these statements.

use aes_gcm::aead::generic_array::GenericArray;
use aes_gcm::aead::AeadMutInPlace;
use aes_gcm::{Aes256Gcm, KeyInit};
use vstd::prelude::*;

verus! {

/// The most bytes that AES-GCM encrypts under one nonce: two to the power of 36.
pub const PLAINTEXT_MAX: u64 = 0x10_0000_0000;

/// The number of bytes of a key-encryption-key.
pub const KEK_LEN: usize = 32;

/// The number of bytes of a nonce.
pub const NONCE_LEN: usize = 12;

/// The number of bytes of an authentication tag.
pub const MAC_LEN: usize = 16;

/// The failure of `aes_gcm`, which says nothing of its cause.
#[verifier::external_type_specification]
#[verifier::external_body]
pub struct ExCipherError(aes_gcm::Error);

/// The failure of `getrandom`.
#[verifier::external_type_specification]
#[verifier::external_body]
pub struct ExEntropyError(getrandom::Error);

/// The ciphertext and the authentication tag that AES-256-GCM gives for a
/// plaintext under a key and a nonce, with no associated data.
pub uninterp spec fn aes256_gcm_sealed(kek: Seq<u8>, nonce: Seq<u8>, plaintext: Seq<u8>) -> (
    Seq<u8>,
    Seq<u8>,
);

/// The plaintext that AES-256-GCM gives back for a ciphertext and an
/// authentication tag under a key and a nonce, with no associated data, or
/// `None` where it refuses them.
pub uninterp spec fn aes256_gcm_opened(
    kek: Seq<u8>,
    nonce: Seq<u8>,
    ciphertext: Seq<u8>,
    mac: Seq<u8>,
) -> Option<Seq<u8>>;

/// `Aes256Gcm::encrypt_in_place_detached` on a copy of `plaintext`, with no associated data.
///
/// It fails exactly on a plaintext of more than `PLAINTEXT_MAX` bytes. Otherwise
/// the ciphertext is as long as the plaintext; decryption of the ciphertext with
/// the tag that came out, under the same key and nonce, gives the plaintext
/// back; and with any other tag of that length decryption refuses, since it
/// recomputes the tag from key, nonce and ciphertext and compares.
#[verifier::external_body]
pub(crate) fn aes256_gcm_encrypt(kek: &[u8; 32], nonce: &[u8; 12], plaintext: &[u8]) -> (sealed:
    Result<(Vec<u8>, [u8; 16]), aes_gcm::Error>)
    ensures
        sealed is Ok <==> plaintext@.len() <= PLAINTEXT_MAX,
        sealed matches Ok((ciphertext, mac)) ==> {
            &&& (ciphertext@, mac@) == aes256_gcm_sealed(kek@, nonce@, plaintext@)
            &&& ciphertext@.len() == plaintext@.len()
            &&& aes256_gcm_opened(kek@, nonce@, ciphertext@, mac@) == Some(plaintext@)
            &&& forall|other: Seq<u8>|
                other.len() == MAC_LEN && other != mac@ ==> (#[trigger] aes256_gcm_opened(
                    kek@,
                    nonce@,
                    ciphertext@,
                    other,
                )) is None
        },
{
    let mut cipher = Aes256Gcm::new(GenericArray::from_slice(kek));
    let mut buffer = plaintext.to_vec();
    let mac =
        cipher.encrypt_in_place_detached(GenericArray::from_slice(nonce), b"", &mut buffer)?;
    Ok((buffer, mac.into()))
}

/// `Aes256Gcm::decrypt_in_place_detached` on a copy of `ciphertext`, with no associated data.
///
/// It gives the plaintext only where the tag belongs to the ciphertext, and
/// nothing of the plaintext where it does not.
#[verifier::external_body]
pub(crate) fn aes256_gcm_decrypt(
    kek: &[u8; 32],
    nonce: &[u8; 12],
    ciphertext: &[u8],
    mac: &[u8; 16],
) -> (opened: Result<Vec<u8>, aes_gcm::Error>)
    ensures
        match opened {
            Ok(plaintext) => aes256_gcm_opened(kek@, nonce@, ciphertext@, mac@) == Some(
                plaintext@,
            ),
            Err(_) => aes256_gcm_opened(kek@, nonce@, ciphertext@, mac@) is None,
        },
{
    let mut cipher = Aes256Gcm::new(GenericArray::from_slice(kek));
    let mut buffer = ciphertext.to_vec();
    cipher.decrypt_in_place_detached(
        GenericArray::from_slice(nonce),
        b"",
        &mut buffer,
        GenericArray::from_slice(mac),
    )?;
    Ok(buffer)
}

/// `getrandom::fill` on twelve bytes: a nonce from the system's random source.
/// Nothing is known of the bytes, nor of when the source fails.
#[verifier::external_body]
pub(crate) fn random_nonce() -> (nonce: Result<[u8; 12], getrandom::Error>) {
    let mut nonce = [0u8; 12];
    getrandom::fill(&mut nonce)?;
    Ok(nonce)
}

} // verus!
