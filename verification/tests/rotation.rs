use pwmgr::{
    derive_master_key, rotate, verify_master_password, Credential, CredentialStore, CryptoError,
    RotationError, StoreError,
};

fn sorted_list(store: &CredentialStore) -> Vec<(String, String, Credential)> {
    let mut items = store.list();
    items.sort_by(|a, b| (&a.0, &a.1).cmp(&(&b.0, &b.1)));
    items
}

fn sample(key: &[u8; 32]) -> CredentialStore {
    let mut store = CredentialStore::new();
    store.add("s1", "u1", "n1", "pw1", key).unwrap();
    store.add("s1", "u2", "n2", "pw2", key).unwrap();
    store.add("s2", "u1", "n3", "", key).unwrap();
    store
}

#[test]
fn rotation_rekeys_every_credential() {
    let old_key = derive_master_key("old");
    let mut store = sample(&old_key);
    let fingerprint = rotate(&mut store, &old_key, "new").unwrap();
    assert_eq!(fingerprint, derive_master_key("new"));
    assert_eq!(verify_master_password("new", &fingerprint), Ok(fingerprint));
    assert_eq!(store.list().len(), 3);
    let a = store.get("s1", "u1", &fingerprint).unwrap();
    assert_eq!((a.username.as_str(), a.password.as_str()), ("n1", "pw1"));
    let b = store.get("s1", "u2", &fingerprint).unwrap();
    assert_eq!((b.username.as_str(), b.password.as_str()), ("n2", "pw2"));
    let c = store.get("s2", "u1", &fingerprint).unwrap();
    assert_eq!((c.username.as_str(), c.password.as_str()), ("n3", ""));
    assert_eq!(
        store.get("s1", "u1", &old_key),
        Err(StoreError::Crypto(CryptoError::AuthenticationFailed))
    );
}

#[test]
fn rotation_of_an_empty_store_returns_the_new_key() {
    let old_key = derive_master_key("old");
    let mut store = CredentialStore::new();
    assert_eq!(rotate(&mut store, &old_key, "new"), Ok(derive_master_key("new")));
    assert!(store.list().is_empty());
}

#[test]
fn rotation_with_the_wrong_old_key_changes_nothing() {
    let old_key = derive_master_key("old");
    let wrong = derive_master_key("wrong");
    let mut store = sample(&old_key);
    let before = sorted_list(&store);
    assert_eq!(
        rotate(&mut store, &wrong, "new"),
        Err(RotationError::RotationAborted { cause: CryptoError::AuthenticationFailed })
    );
    assert_eq!(sorted_list(&store), before);
    assert_eq!(store.get("s1", "u1", &old_key).unwrap().password, "pw1");
}

#[test]
fn rotation_stops_at_one_damaged_envelope() {
    let old_key = derive_master_key("old");
    let mut store = sample(&old_key);
    store.put(
        "s3".to_string(),
        "u9".to_string(),
        Credential { username: "n9".to_string(), password: "@@@".to_string() },
    );
    let before = sorted_list(&store);
    assert_eq!(
        rotate(&mut store, &old_key, "new"),
        Err(RotationError::RotationAborted { cause: CryptoError::MalformedEnvelope })
    );
    assert_eq!(sorted_list(&store), before);
    assert_eq!(store.get("s1", "u2", &old_key).unwrap().password, "pw2");
}

#[test]
fn rotation_stops_at_one_credential_under_another_key() {
    let old_key = derive_master_key("old");
    let stray = derive_master_key("stray");
    let mut store = sample(&old_key);
    store.add("s0", "u0", "n0", "pw0", &stray).unwrap();
    let before = sorted_list(&store);
    assert_eq!(
        rotate(&mut store, &old_key, "new"),
        Err(RotationError::RotationAborted { cause: CryptoError::AuthenticationFailed })
    );
    assert_eq!(sorted_list(&store), before);
}

#[test]
fn rotation_to_the_same_password_still_seals_afresh() {
    let key = derive_master_key("same");
    let mut store = sample(&key);
    let before = sorted_list(&store);
    assert_eq!(rotate(&mut store, &key, "same"), Ok(key));
    let after = sorted_list(&store);
    assert_eq!(after.len(), before.len());
    for (old, new) in before.iter().zip(after.iter()) {
        assert_eq!((&old.0, &old.1, &old.2.username), (&new.0, &new.1, &new.2.username));
        assert_ne!(old.2.password, new.2.password);
    }
    assert_eq!(store.get("s1", "u1", &key).unwrap().password, "pw1");
}
