//! Seals a secret key in a file behind a key that only a secure element can unlock.
//!
//! A cache entry holds the metadata of a key that lives in the secure element,
//! and the caller's key encrypted under a key-encryption-key that the element
//! derives from its own. To open the entry takes the file and the element, and
//! whatever the element asks of the user.

use crate::cipher::PLAINTEXT_MAX;
use crate::error::KeycacheError;
use crate::keywrap::{
    create, erase, lemma_sealed_key_len, seals, unlock, unwrap,
    unwrapped_key, wrap, AuthLevel, SealedKeyView, SecureElement,
};
use crate::record::{
    encode_record, encode_sequence, framable, frames, lemma_frames_push, lemma_record_len,
    lemma_record_round_trip, lemma_record_truncated, parse_record, payload_len,
    push_octet_string, read_record,
};
use vstd::prelude::*;

pub mod bootstrap;
pub mod cipher;
pub mod cli;
pub mod der;
pub mod error;
pub mod keywrap;
pub mod record;
pub mod text;

verus! {

/// A sealed cache entry: what the file holds.
pub struct CacheEntry {
    /// The metadata that the secure element needs to find its key again.
    pub metadata: Vec<u8>,
    /// The stored record of the sealed key.
    pub sealed_key: Vec<u8>,
}

/// What a cache entry holds.
pub struct CacheEntryView {
    /// The metadata of the element's key.
    pub metadata: Seq<u8>,
    /// The stored record of the sealed key.
    pub sealed_key: Seq<u8>,
}

impl View for CacheEntry {
    type V = CacheEntryView;

    open spec fn view(&self) -> CacheEntryView {
        CacheEntryView { metadata: self.metadata@, sealed_key: self.sealed_key@ }
    }
}

impl CacheEntryView {
    /// Whether metadata and sealed key are short enough to be framed.
    pub open spec fn wf(self) -> bool {
        self.metadata.len() + self.sealed_key.len() + 64 <= u64::MAX
    }

    /// The members of the stored record, in its order.
    pub open spec fn fields(self) -> Seq<Seq<u8>> {
        seq![self.metadata, self.sealed_key]
    }

    /// The bytes of the file.
    pub open spec fn encode(self) -> Seq<u8> {
        encode_record(self.fields())
    }

    /// The cache entry that a file holds, or `None` where the bytes do not begin
    /// with a record of two byte strings.
    pub open spec fn decode(bytes: Seq<u8>) -> Option<CacheEntryView> {
        match parse_record(bytes, 2) {
            None => None,
            Some(fields) => Some(CacheEntryView { metadata: fields[0], sealed_key: fields[1] }),
        }
    }
}

/// The fewest bytes of a file that opens: an entry without metadata around the
/// record of an empty key.
pub const CACHE_ENTRY_LEN_MIN: usize = 42;

/// The members of a well-formed cache entry can be framed.
pub proof fn lemma_cache_entry_framable(entry: CacheEntryView)
    requires
        entry.wf(),
    ensures
        framable(entry.fields()),
{
    let empty = Seq::<Seq<u8>>::empty();
    lemma_frames_push(empty, entry.metadata);
    lemma_frames_push(empty.push(entry.metadata), entry.sealed_key);
    assert(entry.fields() =~= empty.push(entry.metadata).push(entry.sealed_key));
    crate::der::lemma_length_field_len(entry.metadata.len());
    crate::der::lemma_length_field_len(entry.sealed_key.len());
}

/// A file is read back as the cache entry it was written from, whatever follows
/// the entry: the metadata comes back unchanged.
pub proof fn lemma_cache_entry_round_trip(entry: CacheEntryView, trailing: Seq<u8>)
    requires
        entry.wf(),
    ensures
        CacheEntryView::decode(entry.encode() + trailing) == Some(entry),
{
    lemma_cache_entry_framable(entry);
    lemma_record_round_trip(entry.fields(), trailing);
}

/// A file that was cut short is not read as a cache entry.
pub proof fn lemma_cache_entry_truncated(entry: CacheEntryView, n: nat)
    requires
        entry.wf(),
        n < entry.encode().len(),
    ensures
        CacheEntryView::decode(entry.encode().take(n as int)) is None,
{
    lemma_cache_entry_framable(entry);
    lemma_record_truncated(entry.fields(), n, 2);
}

impl CacheEntry {
    /// Writes the bytes of the file, which are read back as the entry.
    pub fn to_bytes(&self) -> (bytes: Vec<u8>)
        ensures
            bytes@ == self@.encode(),
            framable(self@.fields()),
            CacheEntryView::decode(bytes@) == Some(self@),
    {
        let ghost empty = Seq::<Seq<u8>>::empty();
        let mut content: Vec<u8> = Vec::new();
        assert(content@ =~= frames(empty));
        proof {
            lemma_frames_push(empty, self.metadata@);
            lemma_frames_push(empty.push(self.metadata@), self.sealed_key@);
            assert(self@.fields() =~= empty.push(self.metadata@).push(self.sealed_key@));
        }
        push_octet_string(&mut content, self.metadata.as_slice());
        push_octet_string(&mut content, self.sealed_key.as_slice());
        let content_len: usize = content.len();
        let bytes = encode_sequence(content.as_slice());
        proof {
            assert(content@.len() == content_len);
            assert(self@.fields()[0].len() <= usize::MAX && self@.fields()[1].len() <= usize::MAX);
            assert(bytes@ + Seq::<u8>::empty() =~= bytes@);
            lemma_record_round_trip(self@.fields(), Seq::empty());
        }
        bytes
    }

    /// Reads the bytes of a file.
    pub fn from_bytes(bytes: &[u8]) -> (entry: Result<CacheEntry, KeycacheError>)
        ensures
            match entry {
                Ok(found) => CacheEntryView::decode(bytes@) == Some(found@),
                Err(error) => error == KeycacheError::MalformedRecord && CacheEntryView::decode(
                    bytes@,
                ) is None,
            },
    {
        let mut fields = match read_record(bytes, 2) {
            None => {
                return Err(KeycacheError::MalformedRecord);
            },
            Some(fields) => fields,
        };
        let ghost parsed = parse_record(bytes@, 2).unwrap();
        assert(parsed[0] == fields@[0]@ && parsed[1] == fields@[1]@);
        let sealed_key = fields.swap_remove(1);
        let metadata = fields.swap_remove(0);
        Ok(CacheEntry { metadata, sealed_key })
    }
}

/// What a result holds, as a contract sees it.
pub open spec fn bytes_view(result: Result<Vec<u8>, KeycacheError>) -> Result<
    Seq<u8>,
    KeycacheError,
> {
    match result {
        Ok(bytes) => Ok(bytes@),
        Err(error) => Err(error),
    }
}

/// What the secure element answered to an unlock, as a contract sees it.
pub open spec fn kek_view(unlocked: Result<[u8; 32], KeycacheError>) -> Result<
    Seq<u8>,
    KeycacheError,
> {
    match unlocked {
        Ok(kek) => Ok(kek@),
        Err(error) => Err(error),
    }
}

/// Whether `record` is a file that holds `key` for the element's key behind
/// `metadata`: the entry names that key, and its sealed key is a stored record
/// of `key` under `kek`.
pub open spec fn sealed_entry(
    record: Seq<u8>,
    metadata: Seq<u8>,
    key: Seq<u8>,
    kek: Seq<u8>,
) -> bool {
    &&& CacheEntryView::decode(record) is Some
    &&& CacheEntryView::decode(record).unwrap().metadata == metadata
    &&& seals(CacheEntryView::decode(record).unwrap().sealed_key, key, kek)
}

/// What opening a file gives once the secure element has answered the unlock
/// of the entry's key. A file that holds no entry is malformed whatever the
/// element would answer; the element's failure is handed on as it is; and under
/// its key-encryption-key the result is that of unwrapping the sealed key.
pub open spec fn open_outcome(record: Seq<u8>, unlocked: Result<Seq<u8>, KeycacheError>) -> Result<
    Seq<u8>,
    KeycacheError,
> {
    match CacheEntryView::decode(record) {
        None => Err(KeycacheError::MalformedRecord),
        Some(entry) => match unlocked {
            Err(error) => Err(error),
            Ok(kek) => unwrapped_key(entry.sealed_key, kek),
        },
    }
}

/// Sealing, then opening with the key-encryption-key that sealed, gives the key back.
pub proof fn lemma_seal_then_open(record: Seq<u8>, metadata: Seq<u8>, key: Seq<u8>, kek: Seq<u8>)
    requires
        sealed_entry(record, metadata, key, kek),
    ensures
        open_outcome(record, Ok(kek)) == Ok::<Seq<u8>, KeycacheError>(key),
{
}

/// Whatever failure the secure element answers to the unlock of a file's key
/// is the failure of opening that file.
pub proof fn lemma_open_hands_on_failure(record: Seq<u8>, error: KeycacheError)
    requires
        CacheEntryView::decode(record) is Some,
    ensures
        open_outcome(record, Err(error)) == Err::<Seq<u8>, KeycacheError>(error),
{
}

/// No file of fewer than `CACHE_ENTRY_LEN_MIN` bytes opens, and one that fails
/// although the secure element unlocked its key is malformed.
pub proof fn lemma_short_file_rejected(record: Seq<u8>, unlocked: Result<Seq<u8>, KeycacheError>)
    requires
        record.len() < CACHE_ENTRY_LEN_MIN,
    ensures
        open_outcome(record, unlocked) is Err,
        unlocked is Ok ==> open_outcome(record, unlocked) == Err::<Seq<u8>, KeycacheError>(
            KeycacheError::MalformedRecord,
        ),
{
    if CacheEntryView::decode(record) is Some {
        let entry = CacheEntryView::decode(record).unwrap();
        let fields = parse_record(record, 2).unwrap();
        lemma_record_len(record, 2);
        assert(fields.drop_last().drop_last() =~= Seq::<Seq<u8>>::empty());
        reveal_with_fuel(payload_len, 3);
        if SealedKeyView::decode(entry.sealed_key) is Some {
            lemma_sealed_key_len(entry.sealed_key);
        }
    }
}

/// A file that was cut short does not open, whatever the secure element would answer.
pub proof fn lemma_truncated_file_rejected(
    entry: CacheEntryView,
    n: nat,
    unlocked: Result<Seq<u8>, KeycacheError>,
)
    requires
        entry.wf(),
        n < entry.encode().len(),
    ensures
        open_outcome(entry.encode().take(n as int), unlocked) == Err::<Seq<u8>, KeycacheError>(
            KeycacheError::MalformedRecord,
        ),
{
    lemma_cache_entry_truncated(entry, n);
}

/// Whether `sealed` is a result of sealing `key` for the element's key behind
/// `metadata` under `kek`: a file that holds `key` for that key, where `key` is
/// no longer than the cipher encrypts; else the failure of the random source,
/// or invalid input for a key that is longer.
pub open spec fn sealed_with(
    sealed: Result<Vec<u8>, KeycacheError>,
    key: Seq<u8>,
    metadata: Seq<u8>,
    kek: Seq<u8>,
) -> bool {
    match sealed {
        Ok(record) => key.len() <= PLAINTEXT_MAX && sealed_entry(record@, metadata, key, kek),
        Err(error) => error == KeycacheError::EntropyUnavailable || (key.len() > PLAINTEXT_MAX
            && error == KeycacheError::InvalidInput),
    }
}

/// Whether `sealed` is a result of sealing `key` once the element has made the
/// key behind `metadata`: the element was asked to unlock that key with
/// `user_auth`; its failure is the result as it is, and under the
/// key-encryption-key that it gave the result is one of sealing with it.
pub open spec fn sealed_after_create<E: SecureElement>(
    element: &E,
    key: Seq<u8>,
    user_auth: Option<&[u8]>,
    metadata: Seq<u8>,
    sealed: Result<Vec<u8>, KeycacheError>,
) -> bool {
    exists|named: &[u8], unlocked: Result<[u8; 32], KeycacheError>|
        named@ == metadata && #[trigger] call_ensures(
            E::unlock,
            (element, named, user_auth),
            unlocked,
        ) && match unlocked {
            Err(error) => sealed == Err::<Vec<u8>, KeycacheError>(error),
            Ok(kek) => sealed_with(sealed, key, metadata, kek@),
        }
}

/// Whether `sealed` is a result of sealing `key` at `auth_level` with this
/// element: the element was asked for a key of `auth_level`; its failure is the
/// result as it is, and with the metadata that it gave the result is one of
/// sealing after that.
pub open spec fn sealed_by<E: SecureElement>(
    element: &E,
    key: Seq<u8>,
    auth_level: AuthLevel,
    user_auth: Option<&[u8]>,
    sealed: Result<Vec<u8>, KeycacheError>,
) -> bool {
    exists|created: Result<Vec<u8>, KeycacheError>| #[trigger]
        call_ensures(E::create, (element, auth_level), created) && match created {
            Err(error) => sealed == Err::<Vec<u8>, KeycacheError>(error),
            Ok(metadata) => sealed_after_create(element, key, user_auth, metadata@, sealed),
        }
}

/// Seals `key` for the element's key behind `metadata`, under the
/// key-encryption-key that the element gave for it.
pub fn seal_with(key: &[u8], metadata: Vec<u8>, key_encryption_key: &[u8; 32]) -> (sealed: Result<
    Vec<u8>,
    KeycacheError,
>)
    ensures
        sealed_with(sealed, key@, metadata@, key_encryption_key@),
{
    let sealed_key = match wrap(key, key_encryption_key) {
        Err(error) => {
            return Err(error);
        },
        Ok(sealed_key) => sealed_key,
    };
    let entry = CacheEntry { metadata, sealed_key };
    let record = entry.to_bytes();
    Ok(record)
}

/// Opens the sealed key of a file's entry with what the secure element answered
/// to the unlock of the entry's key. The key-encryption-key is overwritten once
/// it has served.
pub fn open_with(sealed_key: &[u8], unlocked: Result<[u8; 32], KeycacheError>) -> (key: Result<
    Vec<u8>,
    KeycacheError,
>)
    ensures
        bytes_view(key) == match kek_view(unlocked) {
            Err(error) => Err(error),
            Ok(kek) => unwrapped_key(sealed_key@, kek),
        },
{
    match unlocked {
        Err(error) => Err(error),
        Ok(unlocked_key) => {
            let mut key_encryption_key = unlocked_key;
            let key = unwrap(sealed_key, &key_encryption_key);
            erase(&mut key_encryption_key);
            key
        },
    }
}

/// Seals a key with the given authentication level: has the secure element
/// make a key of that level, unlocks its key-encryption-key, wraps `key` under
/// it and writes the cache entry. The key-encryption-key is held for this
/// call only and overwritten at its end.
///
/// The element is asked for a key of `auth_level`, and then to unlock the key
/// that it made with `user_auth`. A failure of the element or of the wrapping
/// is handed on as it is. What comes back otherwise is a complete file: it
/// names the element's key, and it opens to `key` under the key-encryption-key
/// that the element gave.
pub fn seal<E: SecureElement>(
    element: &E,
    key: &[u8],
    auth_level: AuthLevel,
    user_auth: Option<&[u8]>,
) -> (sealed: Result<Vec<u8>, KeycacheError>)
    ensures
        sealed_by(element, key@, auth_level, user_auth, sealed),
        sealed matches Ok(record) ==> key@.len() <= PLAINTEXT_MAX && exists|
            metadata: Seq<u8>,
            kek: Seq<u8>,
        |
            kek.len() == 32 && #[trigger] sealed_entry(record@, metadata, key@, kek),
{
    let created = create(element, auth_level);
    let ghost answered = created;
    let metadata = match created {
        Err(error) => {
            return Err(error);
        },
        Ok(metadata) => metadata,
    };
    let named = metadata.as_slice();
    let unlocked = unlock(element, named, user_auth);
    let ghost asked = named;
    let mut key_encryption_key = match unlocked {
        Err(error) => {
            assert(sealed_after_create(
                element,
                key@,
                user_auth,
                metadata@,
                Err::<Vec<u8>, KeycacheError>(error),
            ));
            return Err(error);
        },
        Ok(key_encryption_key) => key_encryption_key,
    };
    let ghost made = metadata@;
    let ghost kek = key_encryption_key@;
    let sealed = seal_with(key, metadata, &key_encryption_key);
    erase(&mut key_encryption_key);
    proof {
        assert(asked@ == made && call_ensures(E::unlock, (element, asked, user_auth), unlocked));
        assert(sealed_after_create(element, key@, user_auth, made, sealed));
        assert(call_ensures(E::create, (element, auth_level), answered));
        if sealed is Ok {
            assert(sealed_entry(sealed.unwrap()@, made, key@, kek));
        }
    }
    sealed
}

/// Whether `key` is a result of opening the file `record` with this element:
/// a file that holds no entry is malformed; for any other the element was asked
/// to unlock the key behind the entry's metadata with `user_auth`, and `key`
/// is the outcome of opening for what it answered.
pub open spec fn opened_by<E: SecureElement>(
    element: &E,
    record: Seq<u8>,
    user_auth: Option<&[u8]>,
    key: Result<Vec<u8>, KeycacheError>,
) -> bool {
    match CacheEntryView::decode(record) {
        None => key == Err::<Vec<u8>, KeycacheError>(KeycacheError::MalformedRecord),
        Some(entry) => exists|named: &[u8], unlocked: Result<[u8; 32], KeycacheError>|
            named@ == entry.metadata && #[trigger] call_ensures(
                E::unlock,
                (element, named, user_auth),
                unlocked,
            ) && bytes_view(key) == open_outcome(record, kek_view(unlocked)),
    }
}

/// Opens a sealed key: reads the cache entry, has the secure element unlock
/// the key-encryption-key of the entry's key, and unwraps the sealed key.
///
/// A file that holds no entry is malformed, and the element is not asked. Any
/// other result is the outcome of opening for what the element answered.
pub fn open<E: SecureElement>(element: &E, sealed_key: &[u8], user_auth: Option<&[u8]>) -> (key:
    Result<Vec<u8>, KeycacheError>)
    ensures
        opened_by(element, sealed_key@, user_auth, key),
        exists|unlocked: Result<Seq<u8>, KeycacheError>|
            bytes_view(key) == #[trigger] open_outcome(sealed_key@, unlocked),
        CacheEntryView::decode(sealed_key@) is None ==> key == Err::<Vec<u8>, KeycacheError>(
            KeycacheError::MalformedRecord,
        ),
{
    let entry = match CacheEntry::from_bytes(sealed_key) {
        Err(error) => {
            assert(bytes_view(Err(error)) == open_outcome(sealed_key@, Ok(Seq::empty())));
            return Err(error);
        },
        Ok(entry) => entry,
    };
    let named = entry.metadata.as_slice();
    let unlocked = unlock(element, named, user_auth);
    let key = open_with(entry.sealed_key.as_slice(), unlocked);
    assert(bytes_view(key) == open_outcome(sealed_key@, kek_view(unlocked)));
    assert(named@ == entry@.metadata && call_ensures(
        E::unlock,
        (element, named, user_auth),
        unlocked,
    ));
    key
}

} // verus!
