use agent_keystore::KeystoreError;
use agent_keystore::keygen::{keygen, PRIMARY_KEYBUNDLE_ID, SEED_SIZE};
use agent_keystore::keystore::{
    Keystore, SeedContext, mock_passphrase_manager, AGENT_ID_CTX,
};

#[test]
fn keygen_roundtrip() {
    let passphrase = String::from("secret");

    let (_pub_key, bytes) = keygen(passphrase.clone()).expect("Keygen should work");

    let keystore =
        Keystore::new_from_file(&bytes, mock_passphrase_manager(passphrase)).unwrap();

    let keybundle = keystore.get_keybundle(PRIMARY_KEYBUNDLE_ID);

    assert!(keybundle.is_ok());
}

#[test]
fn scenario_create_derive_save_load() {
    let mut keystore = Keystore::new(mock_passphrase_manager(String::from("secret")));
    keystore.add_random_seed("root_seed", 32).unwrap();

    let context = SeedContext::new("agent-id");
    let (pub_key, bundle) = keystore
        .add_keybundle_from_seed("root_seed", "primary_keybundle", &context, 1)
        .unwrap();
    assert!(!pub_key.is_empty());
    assert_eq!(bundle.public_identifier(), pub_key);

    let file = keystore.save().unwrap();

    let loaded =
        Keystore::new_from_file(&file, mock_passphrase_manager(String::from("secret"))).unwrap();
    let keybundle = loaded.get_keybundle("primary_keybundle").unwrap();
    assert_eq!(keybundle.public_identifier(), pub_key);
}

#[test]
fn scenario_wrong_passphrase_fails() {
    let mut keystore = Keystore::new(mock_passphrase_manager(String::from("secret")));
    keystore.add_random_seed("root_seed", 32).unwrap();
    let context = SeedContext::new("agent-id");
    keystore
        .add_keybundle_from_seed("root_seed", "primary_keybundle", &context, 1)
        .unwrap();
    let file = keystore.save().unwrap();

    let loaded = Keystore::new_from_file(&file, mock_passphrase_manager(String::from("wrong")));
    assert!(matches!(loaded, Err(KeystoreError::DecryptionError)));
}

#[test]
fn wrong_passphrases_always_rejected() {
    let (_pub_key, file) = keygen(String::from("secret")).unwrap();
    let wrong = ["", "Secret", "secret ", " secret", "secres", "secrett"];
    for w in wrong {
        let loaded = Keystore::new_from_file(&file, mock_passphrase_manager(String::from(w)));
        assert!(matches!(loaded, Err(KeystoreError::DecryptionError)));
    }
}

#[test]
fn tampered_payload_rejected() {
    let (_pub_key, file) = keygen(String::from("secret")).unwrap();
    // One position inside each region (salt, nonce, ciphertext, tag), plus a
    // spread of further positions; the key derivation is deliberately slow,
    // so flipping every single byte would not fit a test's time budget.
    let mut positions = vec![0, 15, 16, 27, 28, file.len() - 16, file.len() - 1];
    let mut p = 31;
    while p < file.len() {
        positions.push(p);
        p += file.len() / 8;
    }
    for i in positions {
        let mut tampered = file.clone();
        tampered[i] ^= 0x01;
        let loaded =
            Keystore::new_from_file(&tampered, mock_passphrase_manager(String::from("secret")));
        assert!(matches!(loaded, Err(KeystoreError::DecryptionError)));
    }
    let truncated: Vec<u8> = file[..27].to_vec();
    let loaded =
        Keystore::new_from_file(&truncated, mock_passphrase_manager(String::from("secret")));
    assert!(matches!(loaded, Err(KeystoreError::DecryptionError)));
}

#[test]
fn duplicate_seed_name_rejected_and_keystore_unchanged() {
    let mut keystore = Keystore::new(mock_passphrase_manager(String::from("pw")));
    keystore.add_random_seed("root_seed", 32).unwrap();
    let context = SeedContext::new(AGENT_ID_CTX);
    let (pub_key, _) = keystore
        .add_keybundle_from_seed("root_seed", "kb", &context, 1)
        .unwrap();

    let r = keystore.add_random_seed("root_seed", 32);
    assert!(matches!(r, Err(KeystoreError::DuplicateName)));

    // The keystore still holds exactly what it held before: the same
    // keybundle is found, and deriving again from the untouched root seed
    // yields the identical public identifier.
    let again = keystore.get_keybundle("kb").unwrap();
    assert_eq!(again.public_identifier(), pub_key);
    let (pub_key2, _) = keystore
        .add_keybundle_from_seed("root_seed", "kb2", &context, 1)
        .unwrap();
    assert_eq!(pub_key2, pub_key);
}

#[test]
fn duplicate_keybundle_id_rejected() {
    let mut keystore = Keystore::new(mock_passphrase_manager(String::from("pw")));
    keystore.add_random_seed("root_seed", 32).unwrap();
    let context = SeedContext::new(AGENT_ID_CTX);
    let (pub_key, _) = keystore
        .add_keybundle_from_seed("root_seed", "kb", &context, 1)
        .unwrap();

    let r = keystore.add_keybundle_from_seed("root_seed", "kb", &context, 2);
    assert!(matches!(r, Err(KeystoreError::DuplicateName)));

    let again = keystore.get_keybundle("kb").unwrap();
    assert_eq!(again.public_identifier(), pub_key);
}

#[test]
fn missing_seed_and_missing_keybundle() {
    let mut keystore = Keystore::new(mock_passphrase_manager(String::from("pw")));
    let context = SeedContext::new(AGENT_ID_CTX);
    let r = keystore.add_keybundle_from_seed("no_such_seed", "kb", &context, 1);
    assert!(matches!(r, Err(KeystoreError::SeedNotFound)));
    let g = keystore.get_keybundle("no_such_bundle");
    assert!(matches!(g, Err(KeystoreError::NotFound)));
}

#[test]
fn derivation_is_deterministic() {
    let mut keystore = Keystore::new(mock_passphrase_manager(String::from("pw")));
    keystore.add_random_seed("root_seed", 32).unwrap();
    let context = SeedContext::new(AGENT_ID_CTX);

    let (p1, b1) = keystore
        .add_keybundle_from_seed("root_seed", "first", &context, 7)
        .unwrap();
    let (p2, b2) = keystore
        .add_keybundle_from_seed("root_seed", "second", &context, 7)
        .unwrap();
    assert_eq!(p1, p2);
    assert_eq!(b1.public_identifier(), b2.public_identifier());

    // Recovery from the seed alone: after a save/load round trip the same
    // derivation still yields the same identity.
    let file = keystore.save().unwrap();
    let mut loaded =
        Keystore::new_from_file(&file, mock_passphrase_manager(String::from("pw"))).unwrap();
    let (p3, _) = loaded
        .add_keybundle_from_seed("root_seed", "third", &context, 7)
        .unwrap();
    assert_eq!(p3, p1);
}

#[test]
fn different_context_or_index_changes_identity() {
    let mut keystore = Keystore::new(mock_passphrase_manager(String::from("pw")));
    keystore.add_random_seed("root_seed", 32).unwrap();
    let agent = SeedContext::new("agent-id");
    let transport = SeedContext::new("transport");

    let (p_agent_1, _) = keystore
        .add_keybundle_from_seed("root_seed", "a1", &agent, 1)
        .unwrap();
    let (p_agent_2, _) = keystore
        .add_keybundle_from_seed("root_seed", "a2", &agent, 2)
        .unwrap();
    let (p_transport_1, _) = keystore
        .add_keybundle_from_seed("root_seed", "t1", &transport, 1)
        .unwrap();

    assert_ne!(p_agent_1, p_agent_2);
    assert_ne!(p_agent_1, p_transport_1);
    assert_ne!(p_agent_2, p_transport_1);
}

#[test]
fn keygen_payload_has_expected_shape() {
    let (pub_key, file) = keygen(String::from("secret")).unwrap();

    // A base58 encoding of a 32-byte public key is 43 or 44 characters.
    assert!(pub_key.len() == 43 || pub_key.len() == 44);
    assert_eq!(SEED_SIZE, 32);

    // salt (16) + nonce (12) + ciphertext, where the ciphertext is the
    // canonical encoding plus a 16-byte authentication tag. The encoding is
    // a seed count, one seed ("root_seed" + 32 bytes), a bundle count and
    // one bundle ("primary_keybundle", two 32-byte keys, the identifier).
    let seed_part = 8 + "root_seed".len() + 8 + 32;
    let bundle_part = 8 + "primary_keybundle".len() + 8 + 32 + 8 + 32 + 8 + pub_key.len();
    let plaintext = 8 + seed_part + 8 + bundle_part;
    assert_eq!(file.len(), 16 + 12 + plaintext + 16);
}

#[test]
fn multiple_seeds_and_bundles_roundtrip() {
    let mut keystore = Keystore::new(mock_passphrase_manager(String::from("pw")));
    keystore.add_random_seed("root_seed", 32).unwrap();
    keystore.add_random_seed("other_seed", 48).unwrap();
    let context = SeedContext::new(AGENT_ID_CTX);
    let (p1, _) = keystore
        .add_keybundle_from_seed("root_seed", "kb1", &context, 1)
        .unwrap();
    let (p2, _) = keystore
        .add_keybundle_from_seed("other_seed", "kb2", &context, 1)
        .unwrap();
    assert_ne!(p1, p2);

    let file = keystore.save().unwrap();
    let loaded =
        Keystore::new_from_file(&file, mock_passphrase_manager(String::from("pw"))).unwrap();
    assert_eq!(loaded.get_keybundle("kb1").unwrap().public_identifier(), p1);
    assert_eq!(loaded.get_keybundle("kb2").unwrap().public_identifier(), p2);
}

#[test]
fn empty_keystore_roundtrip() {
    let keystore = Keystore::new(mock_passphrase_manager(String::from("")));
    let file = keystore.save().unwrap();
    let loaded = Keystore::new_from_file(&file, mock_passphrase_manager(String::from("")));
    assert!(loaded.is_ok());
    assert!(matches!(
        loaded.unwrap().get_keybundle("anything"),
        Err(KeystoreError::NotFound)
    ));
}
