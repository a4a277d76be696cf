use pwmgr::{decrypt, derive_master_key, Credential, CredentialStore, CryptoError, StoreError};

fn sorted_list(store: &CredentialStore) -> Vec<(String, String, Credential)> {
    let mut items = store.list();
    items.sort_by(|a, b| (&a.0, &a.1).cmp(&(&b.0, &b.1)));
    items
}

#[test]
fn new_store_is_empty() {
    let store = CredentialStore::new();
    assert!(store.list().is_empty());
    assert!(!store.has_site("example.com"));
    assert!(!store.contains("example.com", "alice"));
}

#[test]
fn add_get_update_delete_scenario() {
    let key = derive_master_key("correct horse");
    let mut store = CredentialStore::new();
    assert_eq!(store.add("example.com", "alice", "alice@example.com", "p@ss1", &key), Ok(()));
    let shown = store.get("example.com", "alice", &key).unwrap();
    assert_eq!(shown.username, "alice@example.com");
    assert_eq!(shown.password, "p@ss1");

    assert_eq!(store.update("example.com", "alice", "new username", "p@ss2", &key), Ok(()));
    let shown = store.get("example.com", "alice", &key).unwrap();
    assert_eq!(shown.username, "new username");
    assert_eq!(shown.password, "p@ss2");

    assert_eq!(store.delete("example.com", "alice"), Ok(()));
    assert_eq!(store.get("example.com", "alice", &key), Err(StoreError::NotFound));
    assert!(!store.has_site("example.com"));
    assert!(store.list().is_empty());
}

#[test]
fn add_on_existing_credential_fails_and_changes_nothing() {
    let key = derive_master_key("k");
    let mut store = CredentialStore::new();
    store.add("site", "user", "name", "first", &key).unwrap();
    let before = sorted_list(&store);
    assert_eq!(
        store.add("site", "user", "other", "second", &key),
        Err(StoreError::AlreadyExists)
    );
    assert_eq!(sorted_list(&store), before);
    assert_eq!(store.get("site", "user", &key).unwrap().password, "first");
}

#[test]
fn operations_on_absent_credential_fail_with_not_found() {
    let key = derive_master_key("k");
    let mut store = CredentialStore::new();
    store.add("site", "user", "name", "pw", &key).unwrap();
    let before = sorted_list(&store);
    assert_eq!(store.get("site", "nobody", &key), Err(StoreError::NotFound));
    assert_eq!(store.get("nowhere", "user", &key), Err(StoreError::NotFound));
    assert_eq!(store.update("site", "nobody", "n", "p", &key), Err(StoreError::NotFound));
    assert_eq!(store.update("nowhere", "user", "n", "p", &key), Err(StoreError::NotFound));
    assert_eq!(store.delete("site", "nobody"), Err(StoreError::NotFound));
    assert_eq!(store.delete("nowhere", "user"), Err(StoreError::NotFound));
    assert_eq!(sorted_list(&store), before);
}

#[test]
fn deleting_one_of_two_users_keeps_the_site() {
    let key = derive_master_key("k");
    let mut store = CredentialStore::new();
    store.add("site", "a", "name-a", "pw-a", &key).unwrap();
    store.add("site", "b", "name-b", "pw-b", &key).unwrap();
    store.add("other", "a", "name-o", "pw-o", &key).unwrap();
    assert_eq!(store.delete("site", "a"), Ok(()));
    assert!(store.has_site("site"));
    assert!(!store.contains("site", "a"));
    assert_eq!(store.get("site", "b", &key).unwrap().password, "pw-b");
    assert_eq!(store.get("other", "a", &key).unwrap().password, "pw-o");
    assert_eq!(store.delete("site", "b"), Ok(()));
    assert!(!store.has_site("site"));
    assert!(store.has_site("other"));
    assert_eq!(store.list().len(), 1);
}

#[test]
fn same_user_on_two_sites_is_two_credentials() {
    let key = derive_master_key("k");
    let mut store = CredentialStore::new();
    store.add("one", "alice", "a1", "pw1", &key).unwrap();
    store.add("two", "alice", "a2", "pw2", &key).unwrap();
    assert_eq!(store.get("one", "alice", &key).unwrap().password, "pw1");
    assert_eq!(store.get("two", "alice", &key).unwrap().password, "pw2");
    assert_eq!(store.list().len(), 2);
}

#[test]
fn get_with_the_wrong_key_reports_the_cause() {
    let key = derive_master_key("k");
    let other = derive_master_key("other");
    let mut store = CredentialStore::new();
    store.add("site", "user", "name", "pw", &key).unwrap();
    assert_eq!(
        store.get("site", "user", &other),
        Err(StoreError::Crypto(CryptoError::AuthenticationFailed))
    );
}

#[test]
fn get_of_a_damaged_envelope_reports_the_cause() {
    let key = derive_master_key("k");
    let mut store = CredentialStore::new();
    store.put(
        "site".to_string(),
        "user".to_string(),
        Credential { username: "name".to_string(), password: "???".to_string() },
    );
    assert_eq!(
        store.get("site", "user", &key),
        Err(StoreError::Crypto(CryptoError::MalformedEnvelope))
    );
}

#[test]
fn list_gives_envelopes_not_passwords() {
    let key = derive_master_key("k");
    let mut store = CredentialStore::new();
    store.add("s1", "u1", "n1", "pw1", &key).unwrap();
    store.add("s1", "u2", "n2", "pw2", &key).unwrap();
    store.add("s2", "u1", "n3", "pw3", &key).unwrap();
    let items = sorted_list(&store);
    let keys: Vec<(&str, &str, &str)> = items
        .iter()
        .map(|item| (item.0.as_str(), item.1.as_str(), item.2.username.as_str()))
        .collect();
    assert_eq!(keys, vec![("s1", "u1", "n1"), ("s1", "u2", "n2"), ("s2", "u1", "n3")]);
    assert_ne!(items[0].2.password, "pw1");
    assert_eq!(decrypt(&items[0].2.password, &key), Ok("pw1".to_string()));
    assert_eq!(decrypt(&items[1].2.password, &key), Ok("pw2".to_string()));
    assert_eq!(decrypt(&items[2].2.password, &key), Ok("pw3".to_string()));
    // Listing again gives the same.
    assert_eq!(sorted_list(&store), items);
}

#[test]
fn put_overwrites_and_lookup_returns_what_is_kept() {
    let mut store = CredentialStore::new();
    let first = Credential { username: "n1".to_string(), password: "e1".to_string() };
    let second = Credential { username: "n2".to_string(), password: "e2".to_string() };
    store.put("site".to_string(), "user".to_string(), first.clone());
    assert_eq!(store.lookup("site", "user"), Some(&first));
    store.put("site".to_string(), "user".to_string(), second.clone());
    assert_eq!(store.lookup("site", "user"), Some(&second));
    assert_eq!(store.lookup("site", "other"), None);
    assert_eq!(store.lookup("other", "user"), None);
    assert_eq!(store.list().len(), 1);
}

#[test]
fn update_replaces_the_envelope() {
    let key = derive_master_key("k");
    let mut store = CredentialStore::new();
    store.add("site", "user", "name", "pw", &key).unwrap();
    let before = store.lookup("site", "user").unwrap().password.clone();
    store.update("site", "user", "name", "pw", &key).unwrap();
    let after = store.lookup("site", "user").unwrap().password.clone();
    assert_ne!(before, after);
    assert_eq!(decrypt(&after, &key), Ok("pw".to_string()));
}

#[test]
fn empty_names_are_ordinary_keys() {
    let key = derive_master_key("k");
    let mut store = CredentialStore::new();
    assert_eq!(store.add("", "", "", "", &key), Ok(()));
    assert!(store.contains("", ""));
    assert_eq!(store.get("", "", &key).unwrap().password, "");
    assert_eq!(store.delete("", ""), Ok(()));
    assert!(!store.has_site(""));
}
