//! The key-encryption-key of a secure element, and the wrapping of a key under it.

use crate::cipher::{
    aes256_gcm_decrypt, aes256_gcm_encrypt, aes256_gcm_opened, aes256_gcm_sealed, random_nonce,
    MAC_LEN, NONCE_LEN, PLAINTEXT_MAX,
};
use crate::der::lemma_length_field_len;
use crate::error::KeycacheError;
use crate::record::{
    encode_record, encode_sequence, framable, frames, lemma_frames_push, lemma_record_len,
    lemma_record_round_trip, lemma_record_truncated, parse_record, payload_len,
    push_octet_string, read_record,
};
use crate::text::str_equal;
use vstd::prelude::*;

verus! {

/// What the secure element asks for before it unlocks a key. The level is fixed
/// when the key is made and is part of the key's metadata.
#[derive(Debug, Clone, Copy, PartialEq, Eq, Structural)]
#[non_exhaustive]
pub enum AuthLevel {
    /// Whoever holds the sealed file can unlock the key, if the secure element cooperates.
    Unauthenticated,
    /// The user must also give a token, such as a PIN, at every unlock.
    Interactive,
    /// The user must also pass a biometric challenge, to show that they are present.
    Biometry,
}

impl AuthLevel {
    /// The level that a name stands for.
    pub open spec fn named(name: Seq<char>) -> Option<AuthLevel> {
        if name == "unauthenticated"@ {
            Some(AuthLevel::Unauthenticated)
        } else if name == "interactive"@ {
            Some(AuthLevel::Interactive)
        } else if name == "biometry"@ {
            Some(AuthLevel::Biometry)
        } else {
            None
        }
    }

    /// Reads a level from its name; any other text is invalid input.
    pub fn try_from(value: &str) -> (level: Result<AuthLevel, KeycacheError>)
        ensures
            level == match AuthLevel::named(value@) {
                Some(found) => Ok::<AuthLevel, KeycacheError>(found),
                None => Err(KeycacheError::InvalidInput),
            },
    {
        if str_equal(value, "unauthenticated") {
            Ok(AuthLevel::Unauthenticated)
        } else if str_equal(value, "interactive") {
            Ok(AuthLevel::Interactive)
        } else if str_equal(value, "biometry") {
            Ok(AuthLevel::Biometry)
        } else {
            Err(KeycacheError::InvalidInput)
        }
    }
}

/// A key under AES-256-GCM: what is stored in place of the key.
pub struct SealedKey {
    /// The nonce that the key was sealed with.
    pub nonce: [u8; 12],
    /// The encrypted key.
    pub ciphertext: Vec<u8>,
    /// The authentication tag over the ciphertext.
    pub mac: [u8; 16],
}

/// What a sealed key holds.
pub struct SealedKeyView {
    /// The nonce, twelve bytes.
    pub nonce: Seq<u8>,
    /// The encrypted key.
    pub ciphertext: Seq<u8>,
    /// The authentication tag, sixteen bytes.
    pub mac: Seq<u8>,
}

impl View for SealedKey {
    type V = SealedKeyView;

    open spec fn view(&self) -> SealedKeyView {
        SealedKeyView { nonce: self.nonce@, ciphertext: self.ciphertext@, mac: self.mac@ }
    }
}

impl SealedKeyView {
    /// Whether nonce and tag have their lengths and the ciphertext is no longer
    /// than the cipher encrypts.
    pub open spec fn wf(self) -> bool {
        &&& self.nonce.len() == NONCE_LEN
        &&& self.mac.len() == MAC_LEN
        &&& self.ciphertext.len() <= PLAINTEXT_MAX
    }

    /// The members of the stored record, in its order.
    pub open spec fn fields(self) -> Seq<Seq<u8>> {
        seq![self.nonce, self.ciphertext, self.mac]
    }

    /// The stored record.
    pub open spec fn encode(self) -> Seq<u8> {
        encode_record(self.fields())
    }

    /// The sealed key that a stored record holds, or `None` where the bytes do not
    /// begin with a record of three byte strings of which the first has twelve
    /// bytes and the third sixteen.
    pub open spec fn decode(bytes: Seq<u8>) -> Option<SealedKeyView> {
        match parse_record(bytes, 3) {
            None => None,
            Some(fields) => if fields[0].len() == NONCE_LEN && fields[2].len() == MAC_LEN {
                Some(SealedKeyView { nonce: fields[0], ciphertext: fields[1], mac: fields[2] })
            } else {
                None
            },
        }
    }
}

/// The fewest bytes that hold a sealed key: those of the record of an empty key.
pub const SEALED_KEY_LEN_MIN: usize = 36;

/// The members of a well-formed sealed key can be framed, and take 34 bytes and the ciphertext.
pub proof fn lemma_sealed_key_framable(sealed: SealedKeyView)
    requires
        sealed.wf(),
    ensures
        framable(sealed.fields()),
        payload_len(sealed.fields()) == 34 + sealed.ciphertext.len(),
{
    let fields = sealed.fields();
    let empty = Seq::<Seq<u8>>::empty();
    lemma_frames_push(empty, sealed.nonce);
    lemma_frames_push(empty.push(sealed.nonce), sealed.ciphertext);
    lemma_frames_push(empty.push(sealed.nonce).push(sealed.ciphertext), sealed.mac);
    assert(fields =~= empty.push(sealed.nonce).push(sealed.ciphertext).push(sealed.mac));
    lemma_length_field_len(sealed.nonce.len());
    lemma_length_field_len(sealed.ciphertext.len());
    lemma_length_field_len(sealed.mac.len());
    assert(fields.drop_last() =~= seq![sealed.nonce, sealed.ciphertext]);
    assert(fields.drop_last().drop_last() =~= seq![sealed.nonce]);
    assert(fields.drop_last().drop_last().drop_last() =~= empty);
    reveal_with_fuel(payload_len, 4);
}

/// A stored sealed key is read back as it was written, whatever follows it.
pub proof fn lemma_sealed_key_round_trip(sealed: SealedKeyView, trailing: Seq<u8>)
    requires
        sealed.wf(),
    ensures
        SealedKeyView::decode(sealed.encode() + trailing) == Some(sealed),
{
    lemma_sealed_key_framable(sealed);
    lemma_record_round_trip(sealed.fields(), trailing);
}

/// A stored sealed key that was cut short is not read as a sealed key.
pub proof fn lemma_sealed_key_truncated(sealed: SealedKeyView, n: nat)
    requires
        sealed.wf(),
        n < sealed.encode().len(),
    ensures
        SealedKeyView::decode(sealed.encode().take(n as int)) is None,
{
    lemma_sealed_key_framable(sealed);
    lemma_record_truncated(sealed.fields(), n, 3);
}

/// Nothing shorter than the record of an empty key is read as a sealed key.
pub proof fn lemma_sealed_key_len(bytes: Seq<u8>)
    requires
        SealedKeyView::decode(bytes) is Some,
    ensures
        bytes.len() >= SEALED_KEY_LEN_MIN + SealedKeyView::decode(bytes).unwrap().ciphertext.len(),
{
    let fields = parse_record(bytes, 3).unwrap();
    lemma_record_len(bytes, 3);
    assert(fields.drop_last().drop_last().drop_last() =~= Seq::<Seq<u8>>::empty());
    reveal_with_fuel(payload_len, 4);
}

/// The bytes as an array of their number.
fn to_array<const N: usize>(bytes: &[u8]) -> (array: [u8; N])
    requires
        bytes@.len() == N,
    ensures
        array@ == bytes@,
{
    let mut array = [0u8; N];
    let mut i: usize = 0;
    while i < N
        invariant
            i <= N,
            bytes@.len() == N,
            array@.len() == N,
            forall|j: int| 0 <= j < i ==> array@[j] == bytes@[j],
        decreases N - i,
    {
        array[i] = bytes[i];
        i = i + 1;
    }
    assert(array@ =~= bytes@);
    array
}

impl SealedKey {
    /// Writes the stored record, which is read back as the sealed key.
    pub fn to_bytes(&self) -> (bytes: Vec<u8>)
        ensures
            bytes@ == self@.encode(),
            SealedKeyView::decode(bytes@) == Some(self@),
    {
        let ghost empty = Seq::<Seq<u8>>::empty();
        let mut content: Vec<u8> = Vec::new();
        assert(content@ =~= frames(empty));
        proof {
            lemma_frames_push(empty, self.nonce@);
            lemma_frames_push(empty.push(self.nonce@), self.ciphertext@);
            lemma_frames_push(empty.push(self.nonce@).push(self.ciphertext@), self.mac@);
            assert(self@.fields() =~= empty.push(self.nonce@).push(self.ciphertext@).push(
                self.mac@,
            ));
        }
        push_octet_string(&mut content, self.nonce.as_slice());
        push_octet_string(&mut content, self.ciphertext.as_slice());
        push_octet_string(&mut content, self.mac.as_slice());
        let content_len: usize = content.len();
        let bytes = encode_sequence(content.as_slice());
        proof {
            let fields = self@.fields();
            assert(content@.len() == content_len);
            assert(fields[0].len() <= usize::MAX && fields[1].len() <= usize::MAX
                && fields[2].len() <= usize::MAX);
            assert(bytes@ + Seq::<u8>::empty() =~= bytes@);
            lemma_record_round_trip(fields, Seq::empty());
        }
        bytes
    }

    /// Reads a stored record.
    pub fn from_bytes(bytes: &[u8]) -> (sealed: Result<SealedKey, KeycacheError>)
        ensures
            match sealed {
                Ok(found) => SealedKeyView::decode(bytes@) == Some(found@),
                Err(error) => error == KeycacheError::MalformedRecord && SealedKeyView::decode(
                    bytes@,
                ) is None,
            },
    {
        let mut fields = match read_record(bytes, 3) {
            None => {
                return Err(KeycacheError::MalformedRecord);
            },
            Some(fields) => fields,
        };
        let ghost parsed = parse_record(bytes@, 3).unwrap();
        assert(parsed[0] == fields@[0]@ && parsed[1] == fields@[1]@ && parsed[2] == fields@[2]@);
        if fields[0].len() != NONCE_LEN || fields[2].len() != MAC_LEN {
            return Err(KeycacheError::MalformedRecord);
        }
        let nonce: [u8; 12] = to_array(fields[0].as_slice());
        let mac: [u8; 16] = to_array(fields[2].as_slice());
        let ciphertext = fields.swap_remove(1);
        Ok(SealedKey { nonce, ciphertext, mac })
    }
}

/// The platform's secure element, which makes keys that never leave it and
/// derives a key-encryption-key from one of them on request.
///
/// Nothing is promised of what an element answers: it may fail at any call.
pub trait SecureElement {
    /// Makes a new key bound to `auth_level` and returns the metadata that refers to it.
    fn create(&self, auth_level: AuthLevel) -> Result<Vec<u8>, KeycacheError>;

    /// Gives the key-encryption-key of the key that `metadata` refers to.
    fn unlock(&self, metadata: &[u8], user_auth: Option<&[u8]>) -> Result<
        [u8; 32],
        KeycacheError,
    >;
}

/// Creates a new hardware-backed key-encryption-key and returns the metadata to
/// use the key later: what the element answers when it is asked for a key of
/// `auth_level`, metadata or failure, as the element gave it.
pub fn create<E: SecureElement>(element: &E, auth_level: AuthLevel) -> (created: Result<
    Vec<u8>,
    KeycacheError,
>)
    ensures
        call_ensures(E::create, (element, auth_level), created),
{
    element.create(auth_level)
}

/// Unlocks a key-encryption-key through its metadata: what the element answers
/// when it is asked to unlock the key behind `metadata` with `user_auth`, the
/// key-encryption-key or failure, as the element gave it.
pub fn unlock<E: SecureElement>(element: &E, metadata: &[u8], user_auth: Option<&[u8]>) -> (unlocked:
    Result<[u8; 32], KeycacheError>)
    ensures
        call_ensures(E::unlock, (element, metadata, user_auth), unlocked),
{
    element.unlock(metadata, user_auth)
}

/// Overwrites a key-encryption-key with zeros, once it has served.
pub fn erase(key_encryption_key: &mut [u8; 32])
    ensures
        forall|i: int| 0 <= i < 32 ==> final(key_encryption_key)@[i] == 0,
{
    *key_encryption_key = [0u8; 32];
}

/// The stored record of `key` sealed under `kek` with `nonce`.
pub open spec fn wrapped_key(key: Seq<u8>, kek: Seq<u8>, nonce: Seq<u8>) -> Seq<u8> {
    let sealed = aes256_gcm_sealed(kek, nonce, key);
    SealedKeyView { nonce, ciphertext: sealed.0, mac: sealed.1 }.encode()
}

/// What opening the stored record `sealed` under `kek` gives: the key, or the
/// failure of the first step that fails.
pub open spec fn unwrapped_key(sealed: Seq<u8>, kek: Seq<u8>) -> Result<Seq<u8>, KeycacheError> {
    match SealedKeyView::decode(sealed) {
        None => Err(KeycacheError::MalformedRecord),
        Some(found) => match aes256_gcm_opened(kek, found.nonce, found.ciphertext, found.mac) {
            Some(key) => Ok(key),
            None => Err(KeycacheError::AuthenticationFailed),
        },
    }
}

/// The stored record `sealed` with another authentication tag in place of its own.
pub open spec fn with_mac(sealed: Seq<u8>, mac: Seq<u8>) -> Seq<u8> {
    match SealedKeyView::decode(sealed) {
        None => sealed,
        Some(found) => SealedKeyView { mac, ..found }.encode(),
    }
}

/// Whether `sealed` is a stored record of `key` under `kek`: it opens to `key`
/// under `kek`, and with any other authentication tag in place of its own it
/// fails to authenticate.
pub open spec fn seals(sealed: Seq<u8>, key: Seq<u8>, kek: Seq<u8>) -> bool {
    &&& SealedKeyView::decode(sealed) is Some
    &&& SealedKeyView::decode(sealed).unwrap().wf()
    &&& SealedKeyView::decode(sealed).unwrap().ciphertext.len() == key.len()
    &&& unwrapped_key(sealed, kek) == Ok::<Seq<u8>, KeycacheError>(key)
    &&& forall|mac: Seq<u8>|
        mac.len() == MAC_LEN && mac != SealedKeyView::decode(sealed).unwrap().mac
            ==> unwrapped_key(#[trigger] with_mac(sealed, mac), kek) == Err::<
            Seq<u8>,
            KeycacheError,
        >(KeycacheError::AuthenticationFailed)
}

/// The bytes with one bit turned over, counting bits from the lowest of the first byte.
pub open spec fn flip_bit(bytes: Seq<u8>, bit: nat) -> Seq<u8> {
    bytes.update((bit / 8) as int, bytes[(bit / 8) as int] ^ (1u8 << ((bit % 8) as u8)))
}

/// Turning one bit over gives other bytes, as many as before.
pub proof fn lemma_flip_bit_differs(bytes: Seq<u8>, bit: nat)
    requires
        bit < 8 * bytes.len(),
    ensures
        flip_bit(bytes, bit).len() == bytes.len(),
        flip_bit(bytes, bit) != bytes,
{
    let index = (bit / 8) as int;
    let byte = bytes[index];
    let shift = (bit % 8) as u8;
    assert(byte ^ (1u8 << shift) != byte) by (bit_vector)
        requires
            shift < 8,
    ;
    assert(flip_bit(bytes, bit)[index] != bytes[index]);
}

/// A sealed key with one bit of its authentication tag turned over does not open.
pub proof fn lemma_tampered_mac_rejected(sealed: Seq<u8>, key: Seq<u8>, kek: Seq<u8>, bit: nat)
    requires
        seals(sealed, key, kek),
        bit < 8 * MAC_LEN,
    ensures
        unwrapped_key(
            with_mac(sealed, flip_bit(SealedKeyView::decode(sealed).unwrap().mac, bit)),
            kek,
        ) == Err::<Seq<u8>, KeycacheError>(KeycacheError::AuthenticationFailed),
{
    lemma_flip_bit_differs(SealedKeyView::decode(sealed).unwrap().mac, bit);
}

/// Wraps a key under the key-encryption-key with AES-256-GCM and the given nonce.
///
/// A key of more than `PLAINTEXT_MAX` bytes is invalid input. Any other key
/// gives its stored record.
pub fn wrap_with_nonce(key: &[u8], key_encryption_key: &[u8; 32], nonce: [u8; 12]) -> (wrapped:
    Result<Vec<u8>, KeycacheError>)
    ensures
        match wrapped {
            Ok(sealed) => {
                &&& key@.len() <= PLAINTEXT_MAX
                &&& sealed@ == wrapped_key(key@, key_encryption_key@, nonce@)
                &&& SealedKeyView::decode(sealed@).unwrap().nonce == nonce@
                &&& seals(sealed@, key@, key_encryption_key@)
            },
            Err(error) => key@.len() > PLAINTEXT_MAX && error == KeycacheError::InvalidInput,
        },
{
    match aes256_gcm_encrypt(key_encryption_key, &nonce, key) {
        Err(_) => Err(KeycacheError::InvalidInput),
        Ok((ciphertext, mac)) => {
            let sealed_key = SealedKey { nonce, ciphertext, mac };
            let sealed = sealed_key.to_bytes();
            proof {
                let view = sealed_key@;
                let kek = key_encryption_key@;
                assert(sealed@ + Seq::<u8>::empty() =~= sealed@);
                lemma_sealed_key_round_trip(view, Seq::empty());
                assert forall|other: Seq<u8>|
                    other.len() == MAC_LEN && other != view.mac implies unwrapped_key(
                    #[trigger] with_mac(sealed@, other),
                    kek,
                ) == Err::<Seq<u8>, KeycacheError>(KeycacheError::AuthenticationFailed) by {
                    let changed = SealedKeyView { mac: other, ..view };
                    assert(changed.encode() + Seq::<u8>::empty() =~= changed.encode());
                    lemma_sealed_key_round_trip(changed, Seq::empty());
                    assert(aes256_gcm_opened(kek, view.nonce, view.ciphertext, other) is None);
                }
            }
            Ok(sealed)
        },
    }
}

/// Wraps a key under the key-encryption-key with AES-256-GCM and a fresh random nonce.
///
/// Fails with `EntropyUnavailable` where the random source gives no nonce, and
/// else with `InvalidInput` on a key of more than `PLAINTEXT_MAX` bytes.
pub fn wrap(key: &[u8], key_encryption_key: &[u8; 32]) -> (wrapped: Result<
    Vec<u8>,
    KeycacheError,
>)
    ensures
        match wrapped {
            Ok(sealed) => {
                &&& key@.len() <= PLAINTEXT_MAX
                &&& sealed@ == wrapped_key(
                    key@,
                    key_encryption_key@,
                    SealedKeyView::decode(sealed@).unwrap().nonce,
                )
                &&& seals(sealed@, key@, key_encryption_key@)
            },
            Err(error) => error == KeycacheError::EntropyUnavailable || (key@.len()
                > PLAINTEXT_MAX && error == KeycacheError::InvalidInput),
        },
{
    match random_nonce() {
        Err(_) => Err(KeycacheError::EntropyUnavailable),
        Ok(nonce) => wrap_with_nonce(key, key_encryption_key, nonce),
    }
}

/// Unwraps a key with the key-encryption-key: reads the stored record, checks
/// the authentication tag and only then decrypts.
pub fn unwrap(sealed_key: &[u8], key_encryption_key: &[u8; 32]) -> (key: Result<
    Vec<u8>,
    KeycacheError,
>)
    ensures
        match key {
            Ok(found) => unwrapped_key(sealed_key@, key_encryption_key@) == Ok::<
                Seq<u8>,
                KeycacheError,
            >(found@),
            Err(error) => unwrapped_key(sealed_key@, key_encryption_key@) == Err::<
                Seq<u8>,
                KeycacheError,
            >(error),
        },
{
    let sealed = match SealedKey::from_bytes(sealed_key) {
        Err(error) => {
            return Err(error);
        },
        Ok(sealed) => sealed,
    };
    match aes256_gcm_decrypt(
        key_encryption_key,
        &sealed.nonce,
        sealed.ciphertext.as_slice(),
        &sealed.mac,
    ) {
        Err(_) => Err(KeycacheError::AuthenticationFailed),
        Ok(key) => Ok(key),
    }
}

} // verus!
