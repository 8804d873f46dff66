use keycache::error::KeycacheError;
use keycache::keywrap::{create, unlock, AuthLevel, SealedKey, SecureElement};
use keycache::{open, open_with, seal, seal_with, CacheEntry};

/// A secure element in software: the metadata holds the level and a seed.
struct SoftElement {
    reachable: bool,
    denies_biometry: bool,
    token: Vec<u8>,
    present: bool,
}

impl SoftElement {
    fn new() -> Self {
        SoftElement { reachable: true, denies_biometry: false, token: b"1234".to_vec(), present: true }
    }
}

fn level_byte(level: AuthLevel) -> u8 {
    match level {
        AuthLevel::Unauthenticated => 0,
        AuthLevel::Interactive => 1,
        AuthLevel::Biometry => 2,
        _ => unreachable!(),
    }
}

fn level_of(metadata: &[u8]) -> Option<AuthLevel> {
    match metadata.first() {
        Some(0) => Some(AuthLevel::Unauthenticated),
        Some(1) => Some(AuthLevel::Interactive),
        Some(2) => Some(AuthLevel::Biometry),
        _ => None,
    }
}

impl SecureElement for SoftElement {
    fn create(&self, auth_level: AuthLevel) -> Result<Vec<u8>, KeycacheError> {
        if !self.reachable {
            return Err(KeycacheError::BackendUnavailable);
        }
        if self.denies_biometry && auth_level == AuthLevel::Biometry {
            return Err(KeycacheError::CreationDenied);
        }
        let mut metadata = vec![level_byte(auth_level)];
        metadata.extend_from_slice(b"seed of the element's key");
        Ok(metadata)
    }

    fn unlock(&self, metadata: &[u8], user_auth: Option<&[u8]>) -> Result<[u8; 32], KeycacheError> {
        if !self.reachable {
            return Err(KeycacheError::BackendUnavailable);
        }
        match level_of(metadata) {
            Some(AuthLevel::Interactive) => match user_auth {
                None => return Err(KeycacheError::AuthRequired),
                Some(token) if token != self.token.as_slice() => {
                    return Err(KeycacheError::AuthRejected)
                }
                Some(_) => {}
            },
            Some(AuthLevel::Biometry) if !self.present => {
                return Err(KeycacheError::ChallengeDenied)
            }
            Some(_) => {}
            None => return Err(KeycacheError::InvalidInput),
        }
        let mut kek = [0u8; 32];
        for (i, byte) in kek.iter_mut().enumerate() {
            *byte = metadata[i % metadata.len()] ^ (i as u8).wrapping_mul(29);
        }
        Ok(kek)
    }
}

#[test]
fn the_bridge_functions_hand_on_what_the_element_answers() {
    let element = SoftElement::new();
    let metadata = create(&element, AuthLevel::Interactive).expect("creates");
    assert_eq!(level_of(&metadata), Some(AuthLevel::Interactive));
    assert_eq!(unlock(&element, &metadata, None), Err(KeycacheError::AuthRequired));
    assert_eq!(unlock(&element, &metadata, Some(b"0000")), Err(KeycacheError::AuthRejected));
    assert_eq!(
        unlock(&element, &metadata, Some(b"1234")),
        element.unlock(&metadata, Some(b"1234"))
    );

    let unreachable = SoftElement { reachable: false, ..SoftElement::new() };
    assert_eq!(create(&unreachable, AuthLevel::Unauthenticated), Err(KeycacheError::BackendUnavailable));
    let strict = SoftElement { denies_biometry: true, ..SoftElement::new() };
    assert_eq!(create(&strict, AuthLevel::Biometry), Err(KeycacheError::CreationDenied));
}

#[test]
fn an_unauthenticated_key_is_sealed_and_opened() {
    let element = SoftElement::new();
    let key: Vec<u8> = (0x00u8..0x20).collect();
    let record = seal(&element, &key, AuthLevel::Unauthenticated, None).expect("seals");
    let entry = CacheEntry::from_bytes(&record).expect("a cache entry");
    assert_eq!(level_of(&entry.metadata), Some(AuthLevel::Unauthenticated));
    assert_eq!(open(&element, &record, None), Ok(key));
}

#[test]
fn opening_what_was_sealed_gives_the_key_back() {
    let element = SoftElement::new();
    let levels = [
        (AuthLevel::Unauthenticated, None),
        (AuthLevel::Interactive, Some(b"1234".as_slice())),
        (AuthLevel::Biometry, None),
    ];
    for (level, auth) in levels {
        for len in [0usize, 1, 16, 32, 33, 100, 4096] {
            let key: Vec<u8> = (0..len).map(|i| (i ^ 0x5c) as u8).collect();
            let record = seal(&element, &key, level, auth).expect("seals");
            assert_eq!(open(&element, &record, auth), Ok(key), "{level:?}, length {len}");
        }
    }
}

#[test]
fn an_interactive_key_asks_for_its_token() {
    let element = SoftElement::new();
    let record = seal(&element, b"key", AuthLevel::Interactive, Some(b"1234")).expect("seals");
    assert_eq!(open(&element, &record, None), Err(KeycacheError::AuthRequired));
    assert_eq!(open(&element, &record, Some(b"4321")), Err(KeycacheError::AuthRejected));
    assert_eq!(open(&element, &record, Some(b"1234")), Ok(b"key".to_vec()));
}

#[test]
fn sealing_an_interactive_key_needs_the_token_too() {
    let element = SoftElement::new();
    assert_eq!(seal(&element, b"key", AuthLevel::Interactive, None), Err(KeycacheError::AuthRequired));
    assert_eq!(
        seal(&element, b"key", AuthLevel::Interactive, Some(b"nope")),
        Err(KeycacheError::AuthRejected)
    );
}

#[test]
fn a_failure_of_the_element_is_handed_on_unchanged() {
    let element = SoftElement::new();
    let record = seal(&element, b"key", AuthLevel::Biometry, None).expect("seals");
    let absent = SoftElement { present: false, ..SoftElement::new() };
    assert_eq!(open(&absent, &record, None), Err(KeycacheError::ChallengeDenied));
    let unreachable = SoftElement { reachable: false, ..SoftElement::new() };
    assert_eq!(open(&unreachable, &record, None), Err(KeycacheError::BackendUnavailable));
    assert_eq!(
        seal(&unreachable, b"key", AuthLevel::Unauthenticated, None),
        Err(KeycacheError::BackendUnavailable)
    );
    let strict = SoftElement { denies_biometry: true, ..SoftElement::new() };
    assert_eq!(seal(&strict, b"key", AuthLevel::Biometry, None), Err(KeycacheError::CreationDenied));
    for error in [
        KeycacheError::ChallengeTimeout,
        KeycacheError::AuthRequired,
        KeycacheError::BridgeLoadFailed { os_error: 5 },
    ] {
        assert_eq!(open_with(b"anything", Err(error)), Err(error));
    }
}

#[test]
fn a_cache_entry_is_stored_in_its_order() {
    let entry = CacheEntry { metadata: vec![1, 2, 3], sealed_key: vec![4, 5] };
    assert_eq!(entry.to_bytes(), vec![0x30, 9, 0x04, 3, 1, 2, 3, 0x04, 2, 4, 5]);
    let found = CacheEntry::from_bytes(&[0x30, 9, 0x04, 3, 1, 2, 3, 0x04, 2, 4, 5]).expect("an entry");
    assert_eq!(found.metadata, vec![1, 2, 3]);
    assert_eq!(found.sealed_key, vec![4, 5]);
}

#[test]
fn metadata_comes_back_unchanged() {
    for len in [0usize, 1, 127, 128, 300, 70_000] {
        let metadata: Vec<u8> = (0..len).map(|i| (i * 11) as u8).collect();
        let entry = CacheEntry { metadata: metadata.clone(), sealed_key: vec![0xcc; 50] };
        let found = CacheEntry::from_bytes(&entry.to_bytes()).expect("an entry");
        assert_eq!(found.metadata, metadata);
        assert_eq!(found.sealed_key, vec![0xcc; 50]);
    }
}

#[test]
fn sealing_with_a_given_key_encryption_key_names_the_elements_key() {
    let kek = [0x42u8; 32];
    let record = seal_with(b"key material", b"metadata".to_vec(), &kek).expect("seals");
    let entry = CacheEntry::from_bytes(&record).expect("an entry");
    assert_eq!(entry.metadata, b"metadata".to_vec());
    let sealed = SealedKey::from_bytes(&entry.sealed_key).expect("a sealed key");
    assert_eq!(sealed.ciphertext.len(), 12);
    assert_eq!(open_with(&entry.sealed_key, Ok(kek)), Ok(b"key material".to_vec()));
    assert_eq!(open_with(&entry.sealed_key, Ok([0x43; 32])), Err(KeycacheError::AuthenticationFailed));
}

#[test]
fn a_truncated_file_is_malformed() {
    let element = SoftElement::new();
    let record = seal(&element, &[0x77; 32], AuthLevel::Unauthenticated, None).expect("seals");
    for cut in 0..record.len() {
        assert_eq!(open(&element, &record[..cut], None), Err(KeycacheError::MalformedRecord), "{cut}");
    }
    assert_eq!(open(&element, &record, None), Ok(vec![0x77; 32]));
}

#[test]
fn no_file_under_the_shortest_opens() {
    let element = SoftElement::new();
    let shortest = seal(&element, &[], AuthLevel::Unauthenticated, None).expect("seals");
    let entry = CacheEntry::from_bytes(&shortest).expect("an entry");
    let bare = CacheEntry { metadata: vec![], sealed_key: entry.sealed_key.clone() }.to_bytes();
    assert_eq!(bare.len(), 42);
    assert_eq!(open_with(&entry.sealed_key, element.unlock(&entry.metadata, None)), Ok(vec![]));
    for len in 0..42usize {
        let file = vec![0x30u8; len];
        assert!(open(&element, &file, None).is_err());
    }
    // An entry whose sealed key is no record: the element unlocks, the key is malformed.
    let hollow = CacheEntry { metadata: vec![0], sealed_key: vec![] }.to_bytes();
    assert_eq!(open(&element, &hollow, None), Err(KeycacheError::MalformedRecord));
}

#[test]
fn a_tampered_file_fails_to_authenticate() {
    let element = SoftElement::new();
    let key: Vec<u8> = (0u8..32).collect();
    let record = seal(&element, &key, AuthLevel::Unauthenticated, None).expect("seals");
    let entry = CacheEntry::from_bytes(&record).expect("an entry");
    let sealed = SealedKey::from_bytes(&entry.sealed_key).expect("a sealed key");
    for bit in 0..(8 * (32 + 16)) {
        let mut ciphertext = sealed.ciphertext.clone();
        let mut mac = sealed.mac;
        if bit < 256 {
            ciphertext[bit / 8] ^= 1 << (bit % 8);
        } else {
            mac[(bit - 256) / 8] ^= 1 << (bit % 8);
        }
        let tampered = CacheEntry {
            metadata: entry.metadata.clone(),
            sealed_key: SealedKey { nonce: sealed.nonce, ciphertext, mac }.to_bytes(),
        };
        assert_eq!(
            open(&element, &tampered.to_bytes(), None),
            Err(KeycacheError::AuthenticationFailed),
            "bit {bit}"
        );
    }
}

#[test]
fn every_seal_takes_a_fresh_nonce() {
    let element = SoftElement::new();
    let mut nonces = Vec::new();
    for _ in 0..200 {
        let record = seal(&element, b"the same key", AuthLevel::Unauthenticated, None).expect("seals");
        let entry = CacheEntry::from_bytes(&record).expect("an entry");
        let sealed = SealedKey::from_bytes(&entry.sealed_key).expect("a sealed key");
        assert!(!nonces.contains(&sealed.nonce));
        nonces.push(sealed.nonce);
    }
}
