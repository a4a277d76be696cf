//! Re-keying: sealing every password of a store afresh under the key of a new
//! master password.
//!
//! The rotation is all or nothing. It works on a copy and replaces the store
//! only once every password has been opened under the old key and sealed
//! under the new one; the first password that cannot be stops it and leaves
//! the store as it was. The new fingerprint to persist is the new key.

use crate::envelope::{decrypt, encrypt, fits_envelope, open_envelope, CryptoError};
use crate::keys::{derive_master_key, master_key_of};
use crate::store::{holds, lemma_with_credential, listed_at, CredentialStore, StoreView};
use crate::structs::{Credential, CredentialView};
use vstd::prelude::*;

verus! {

/// Why a rotation changed nothing.
#[derive(Debug, Clone, Copy, PartialEq, Eq, Structural)]
pub enum RotationError {
    /// A stored password could not be carried over; `cause` says why.
    RotationAborted { cause: CryptoError },
}

/// What keeps the password in `envelope` from being carried over from
/// `old_key`, if anything: it does not open, or what it opens to is too long
/// to seal again.
pub open spec fn rotation_obstacle(envelope: Seq<char>, old_key: Seq<u8>) -> Option<CryptoError> {
    match open_envelope(envelope, old_key) {
        Err(cause) => Some(cause),
        Ok(plaintext) => if fits_envelope(plaintext) {
            None
        } else {
            Some(CryptoError::PlaintextTooLong)
        },
    }
}

/// Some credential of `store` has the obstacle `cause`.
pub open spec fn aborted_by(store: StoreView, old_key: Seq<u8>, cause: CryptoError) -> bool {
    exists|site: Seq<char>, user: Seq<char>|
        holds(store, site, user) && #[trigger] rotation_obstacle(
            store[site][user].password,
            old_key,
        ) == Some(cause)
}

/// No credential of `store` has an obstacle.
pub open spec fn rotatable(store: StoreView, old_key: Seq<u8>) -> bool {
    forall|site: Seq<char>, user: Seq<char>| #[trigger]
        holds(store, site, user) ==> rotation_obstacle(store[site][user].password, old_key)
            is None
}

/// `after` is `before` re-keyed: the same sites, users and usernames, and
/// each password opens under `new_key` to what it opened to under `old_key`.
pub open spec fn rotated(
    before: StoreView,
    after: StoreView,
    old_key: Seq<u8>,
    new_key: Seq<u8>,
) -> bool {
    &&& forall|site: Seq<char>, user: Seq<char>| #[trigger]
        holds(after, site, user) <==> holds(before, site, user)
    &&& forall|site: Seq<char>, user: Seq<char>| #[trigger]
        holds(before, site, user) ==> {
            &&& after[site][user].username == before[site][user].username
            &&& open_envelope(before[site][user].password, old_key) is Ok
            &&& open_envelope(after[site][user].password, new_key) == open_envelope(
                before[site][user].password,
                old_key,
            )
        }
}

/// `kept` is `stored` re-keyed: same username, and the password opens under
/// `new_key` to what it opened to under `old_key`, which fits an envelope.
pub open spec fn carried_over(
    stored: CredentialView,
    kept: CredentialView,
    old_key: Seq<u8>,
    new_key: Seq<u8>,
) -> bool {
    &&& kept.username == stored.username
    &&& rotation_obstacle(stored.password, old_key) is None
    &&& open_envelope(kept.password, new_key) == open_envelope(stored.password, old_key)
}

/// Some item among the first `n` is the credential of `user` on `site`.
pub open spec fn listed_before(
    items: Seq<(String, String, Credential)>,
    n: int,
    site: Seq<char>,
    user: Seq<char>,
) -> bool {
    exists|j: int| j < n && listed_at(items, site, user, j)
}

/// Re-keys `store` from `old_key` to the key of `new_password` and returns
/// that key, which is also the new fingerprint. Where any password cannot be
/// carried over, nothing is changed.
pub fn rotate(store: &mut CredentialStore, old_key: &[u8; 32], new_password: &str) -> (outcome:
    Result<[u8; 32], RotationError>)
    requires
        old(store).wf(),
    ensures
        final(store).wf(),
        outcome is Ok <==> rotatable(old(store)@, old_key@),
        outcome is Ok ==> outcome->Ok_0@ == master_key_of(new_password@),
        outcome is Ok ==> rotated(old(store)@, final(store)@, old_key@, outcome->Ok_0@),
        outcome is Ok ==> final(store)@.dom() == old(store)@.dom(),
        outcome is Err ==> *final(store) == *old(store),
        outcome is Err ==> aborted_by(old(store)@, old_key@, outcome->Err_0->cause),
{
    let new_key = derive_master_key(new_password);
    let items = store.list();
    let mut fresh = CredentialStore::new();
    let ghost before = store@;
    let mut k: usize = 0;
    while k < items.len()
        invariant
            k <= items@.len(),
            fresh.wf(),
            store.wf(),
            before == store@,
            *store == *old(store),
            forall|j: int|
                0 <= j < items@.len() ==> holds(before, (#[trigger] items@[j]).0@, items@[j].1@)
                    && before[items@[j].0@][items@[j].1@] == items@[j].2@,
            forall|a: int, b: int|
                0 <= a < b < items@.len() ==> !(items@[a].0@ == items@[b].0@ && items@[a].1@
                    == items@[b].1@),
            forall|site: Seq<char>, user: Seq<char>| #[trigger]
                holds(fresh@, site, user) <==> listed_before(items@, k as int, site, user),
            forall|j: int|
                0 <= j < k ==> carried_over(
                    (#[trigger] items@[j]).2@,
                    fresh@[items@[j].0@][items@[j].1@],
                    old_key@,
                    new_key@,
                ),
        decreases items@.len() - k,
    {
        let item = &items[k];
        let opened = decrypt(item.2.password.as_str(), old_key);
        if opened.is_err() {
            let cause = opened.unwrap_err();
            assert(rotation_obstacle(before[item.0@][item.1@].password, old_key@) == Some(cause));
            assert(aborted_by(before, old_key@, cause));
            return Err(RotationError::RotationAborted { cause });
        }
        let plaintext = opened.unwrap();
        let sealed = encrypt(plaintext.as_str(), &new_key);
        if sealed.is_err() {
            let cause = sealed.unwrap_err();
            assert(rotation_obstacle(before[item.0@][item.1@].password, old_key@) == Some(cause));
            assert(aborted_by(before, old_key@, cause));
            return Err(RotationError::RotationAborted { cause });
        }
        let credential = Credential {
            username: item.2.username.clone(),
            password: sealed.unwrap(),
        };
        let ghost earlier = fresh@;
        proof {
            lemma_with_credential(earlier, item.0@, item.1@, credential@);
        }
        fresh.put(item.0.clone(), item.1.clone(), credential);
        proof {
            assert forall|site: Seq<char>, user: Seq<char>| #[trigger]
                holds(fresh@, site, user) <==> listed_before(items@, k + 1, site, user) by {
                if holds(fresh@, site, user) {
                    if site == item.0@ && user == item.1@ {
                        assert(listed_at(items@, site, user, k as int));
                    } else {
                        assert(holds(earlier, site, user));
                        assert(listed_before(items@, k as int, site, user));
                        let j = choose|j: int| j < k && listed_at(items@, site, user, j);
                        assert(j < k + 1 && listed_at(items@, site, user, j));
                    }
                }
                if listed_before(items@, k + 1, site, user) {
                    let j = choose|j: int| j < k + 1 && listed_at(items@, site, user, j);
                    if j < k {
                        assert(listed_before(items@, k as int, site, user));
                        assert(holds(earlier, site, user));
                    }
                }
            }
            assert forall|j: int| 0 <= j < k + 1 implies carried_over(
                (#[trigger] items@[j]).2@,
                fresh@[items@[j].0@][items@[j].1@],
                old_key@,
                new_key@,
            ) by {
                if j < k {
                    assert(listed_at(items@, items@[j].0@, items@[j].1@, j));
                    assert(listed_before(items@, k as int, items@[j].0@, items@[j].1@));
                    assert(holds(earlier, items@[j].0@, items@[j].1@));
                }
            }
        }
        k = k + 1;
    }
    proof {
        assert forall|site: Seq<char>, user: Seq<char>| #[trigger]
            holds(fresh@, site, user) <==> holds(before, site, user) by {
            if holds(fresh@, site, user) {
                assert(listed_before(items@, k as int, site, user));
                let j = choose|j: int| j < k && listed_at(items@, site, user, j);
                assert(holds(before, items@[j].0@, items@[j].1@));
            }
            if holds(before, site, user) {
                let j = choose|j: int| listed_at(items@, site, user, j);
                assert(j < k && listed_at(items@, site, user, j));
            }
        }
        assert forall|site: Seq<char>, user: Seq<char>| #[trigger]
            holds(before, site, user) implies rotation_obstacle(
            before[site][user].password,
            old_key@,
        ) is None && fresh@[site][user].username == before[site][user].username && open_envelope(
            before[site][user].password,
            old_key@,
        ) is Ok && open_envelope(fresh@[site][user].password, new_key@) == open_envelope(
            before[site][user].password,
            old_key@,
        ) by {
            let j = choose|j: int| listed_at(items@, site, user, j);
            assert(carried_over(
                items@[j].2@,
                fresh@[items@[j].0@][items@[j].1@],
                old_key@,
                new_key@,
            ));
        }
    }
    proof {
        fresh.lemma_same_sites(&*store);
    }
    *store = fresh;
    Ok(new_key)
}

} // verus!
