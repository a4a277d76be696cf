//! The credential store: sites, the users of each site, and one credential
//! per user.
//!
//! The store stands for a map from site to a map from user to credential.
//! Sites are pairwise distinct, as are the users of one site, and no site is
//! kept without a user.

use crate::assoc::{
    distinct_keys, key_at, lemma_absent, lemma_lookup, lemma_position, lemma_push, lemma_remove,
    lemma_replace, pairs_map,
};
use crate::envelope::{decrypt, encrypt, fits_envelope, open_envelope, CryptoError};
use crate::structs::{Credential, CredentialView};
use vstd::prelude::*;

verus! {

/// The users of one site, each with a credential.
pub type SiteView = Map<Seq<char>, CredentialView>;

/// The whole store: the sites, each with its users.
pub type StoreView = Map<Seq<char>, SiteView>;

/// Why a store operation did nothing.
#[derive(Debug, Clone, Copy, PartialEq, Eq, Structural)]
pub enum StoreError {
    /// No credential is kept for that site and user.
    NotFound,
    /// A credential is already kept for that site and user.
    AlreadyExists,
    /// The envelope could not be produced or opened.
    Crypto(CryptoError),
}

/// A credential with its password in clear, as `get` hands it out.
#[derive(Debug, Clone, PartialEq, Eq)]
pub struct PlaintextView {
    /// The account's login name.
    pub username: String,
    /// The password, decrypted.
    pub password: String,
}

/// `store` keeps a credential for `user` on `site`.
pub open spec fn holds(store: StoreView, site: Seq<char>, user: Seq<char>) -> bool {
    store.contains_key(site) && store[site].contains_key(user)
}

/// `store` after the credential of `user` on `site` is set to `credential`,
/// the site being created where it was absent.
pub open spec fn with_credential(
    store: StoreView,
    site: Seq<char>,
    user: Seq<char>,
    credential: CredentialView,
) -> StoreView {
    let users = if store.contains_key(site) {
        store[site]
    } else {
        Map::empty()
    };
    store.insert(site, users.insert(user, credential))
}

/// `store` after the credential of `user` on `site` is dropped, and the site
/// with it where no other user is left.
pub open spec fn without_credential(
    store: StoreView,
    site: Seq<char>,
    user: Seq<char>,
) -> StoreView {
    let users = store[site].remove(user);
    if users =~= Map::empty() {
        store.remove(site)
    } else {
        store.insert(site, users)
    }
}

/// Item `k` of `items` is the credential of `user` on `site`.
pub open spec fn listed_at(
    items: Seq<(String, String, Credential)>,
    site: Seq<char>,
    user: Seq<char>,
    k: int,
) -> bool {
    0 <= k < items.len() && items[k].0@ == site && items[k].1@ == user
}

#[derive(Debug, Clone)]
struct UserEntry {
    user: String,
    credential: Credential,
}

#[derive(Debug, Clone)]
struct SiteEntry {
    site: String,
    users: Vec<UserEntry>,
}

/// The credential store.
#[derive(Debug, Clone)]
pub struct CredentialStore {
    sites: Vec<SiteEntry>,
}

/// The users of one site as keyed pairs.
spec fn user_pairs(users: Seq<UserEntry>) -> Seq<(Seq<char>, CredentialView)> {
    users.map_values(|entry: UserEntry| (entry.user@, entry.credential@))
}

/// The sites as keyed pairs, each with the map of its users.
spec fn site_pairs(sites: Seq<SiteEntry>) -> Seq<(Seq<char>, SiteView)> {
    sites.map_values(|entry: SiteEntry| (entry.site@, pairs_map(user_pairs(entry.users@))))
}

/// A site has at least one user, and no user twice.
spec fn site_wf(entry: SiteEntry) -> bool {
    entry.users@.len() > 0 && distinct_keys(user_pairs(entry.users@))
}

/// `item` is a copy of user `at.1` of site `at.0`.
spec fn taken_from(
    sites: Seq<SiteEntry>,
    item: (String, String, Credential),
    at: (int, int),
) -> bool {
    &&& 0 <= at.0 < sites.len()
    &&& 0 <= at.1 < sites[at.0].users@.len()
    &&& item.0@ == sites[at.0].site@
    &&& item.1@ == sites[at.0].users@[at.1].user@
    &&& item.2@ == sites[at.0].users@[at.1].credential@
}

/// Some listed item comes from user `q` of site `p`.
spec fn covered(origin: Seq<(int, int)>, p: int, q: int) -> bool {
    exists|k: int| origin_at(origin, k, p, q)
}

/// Listed item `k` comes from user `q` of site `p`.
spec fn origin_at(origin: Seq<(int, int)>, k: int, p: int, q: int) -> bool {
    0 <= k < origin.len() && origin[k] == (p, q)
}

impl View for CredentialStore {
    type V = StoreView;

    closed spec fn view(&self) -> StoreView {
        pairs_map(site_pairs(self.sites@))
    }
}

/// The position of `user` among `users`, if it is there.
fn find_user(users: &Vec<UserEntry>, user: &String) -> (found: Option<usize>)
    ensures
        found is Some ==> key_at(user_pairs(users@), user@, found->0 as int),
        found is None ==> !pairs_map(user_pairs(users@)).contains_key(user@),
{
    let mut i: usize = 0;
    while i < users.len()
        invariant
            i <= users@.len(),
            forall|k: int| 0 <= k < i ==> user_pairs(users@)[k].0 != user@,
        decreases users@.len() - i,
    {
        if users[i].user == *user {
            return Some(i);
        }
        i = i + 1;
    }
    proof {
        lemma_absent(user_pairs(users@), user@);
    }
    None
}

impl CredentialStore {
    /// The store's invariant: distinct sites, distinct users within each
    /// site, and no site without a user.
    pub closed spec fn wf(&self) -> bool {
        &&& distinct_keys(site_pairs(self.sites@))
        &&& forall|i: int| 0 <= i < self.sites@.len() ==> site_wf(#[trigger] self.sites@[i])
    }

    /// No site of a well-formed store is without a user.
    pub proof fn lemma_no_empty_site(&self, site: Seq<char>)
        requires
            self.wf(),
            self@.contains_key(site),
        ensures
            exists|user: Seq<char>| self@[site].contains_key(user),
    {
        let pairs = site_pairs(self.sites@);
        let i = lemma_position(pairs, site);
        lemma_lookup(pairs, i);
        let entry = self.sites@[i];
        assert(site_wf(entry));
        let inner = user_pairs(entry.users@);
        lemma_lookup(inner, 0);
        assert(self@[site].contains_key(inner[0].0));
    }

    /// Two well-formed stores that keep credentials for the same sites and
    /// users have the same sites.
    pub proof fn lemma_same_sites(&self, other: &CredentialStore)
        requires
            self.wf(),
            other.wf(),
            forall|site: Seq<char>, user: Seq<char>| #[trigger]
                holds(self@, site, user) <==> holds(other@, site, user),
        ensures
            self@.dom() == other@.dom(),
    {
        assert forall|site: Seq<char>| self@.contains_key(site) <==> other@.contains_key(
            site,
        ) by {
            if self@.contains_key(site) {
                self.lemma_no_empty_site(site);
                let user = choose|user: Seq<char>| self@[site].contains_key(user);
                assert(holds(self@, site, user));
                assert(holds(other@, site, user));
            }
            if other@.contains_key(site) {
                other.lemma_no_empty_site(site);
                let user = choose|user: Seq<char>| other@[site].contains_key(user);
                assert(holds(other@, site, user));
                assert(holds(self@, site, user));
            }
        }
        assert(self@.dom() =~= other@.dom());
    }

    /// An empty store.
    pub fn new() -> (store: CredentialStore)
        ensures
            store.wf(),
            store@ == Map::<Seq<char>, SiteView>::empty(),
    {
        let store = CredentialStore { sites: Vec::new() };
        proof {
            assert(store@ =~= Map::<Seq<char>, SiteView>::empty()) by {
                lemma_absent_all(site_pairs(store.sites@));
            }
        }
        store
    }

    /// The position of `site` among the sites, if it is there.
    fn find_site(&self, site: &String) -> (found: Option<usize>)
        ensures
            found is Some ==> key_at(site_pairs(self.sites@), site@, found->0 as int),
            found is None ==> !self@.contains_key(site@),
    {
        let mut i: usize = 0;
        while i < self.sites.len()
            invariant
                i <= self.sites@.len(),
                forall|k: int| 0 <= k < i ==> site_pairs(self.sites@)[k].0 != site@,
            decreases self.sites@.len() - i,
        {
            if self.sites[i].site == *site {
                return Some(i);
            }
            i = i + 1;
        }
        proof {
            lemma_absent(site_pairs(self.sites@), site@);
        }
        None
    }

    /// Whether any credential is kept for `site`.
    pub fn has_site(&self, site: &str) -> (present: bool)
        ensures
            present == self@.contains_key(site@),
    {
        let site_key = site.to_owned();
        match self.find_site(&site_key) {
            None => false,
            Some(i) => {
                proof {
                    assert(self@.contains_key(site_pairs(self.sites@)[i as int].0));
                }
                true
            },
        }
    }

    /// Whether a credential is kept for `user` on `site`.
    pub fn contains(&self, site: &str, user: &str) -> (present: bool)
        requires
            self.wf(),
        ensures
            present == holds(self@, site@, user@),
    {
        let site_key = site.to_owned();
        let user_key = user.to_owned();
        match self.find_site(&site_key) {
            None => false,
            Some(i) => {
                proof {
                    lemma_lookup(site_pairs(self.sites@), i as int);
                }
                match find_user(&self.sites[i].users, &user_key) {
                    None => false,
                    Some(j) => {
                        proof {
                            lemma_lookup(user_pairs(self.sites@[i as int].users@), j as int);
                        }
                        true
                    },
                }
            },
        }
    }

    /// Sets the credential of `user` on `site`, whether or not one was kept,
    /// creating the site where it was absent.
    pub fn put(&mut self, site: String, user: String, credential: Credential)
        requires
            old(self).wf(),
        ensures
            final(self).wf(),
            final(self)@ == with_credential(old(self)@, site@, user@, credential@),
    {
        let ghost before = self.sites@;
        let ghost entry = (user@, credential@);
        match self.find_site(&site) {
            None => {
                let mut users: Vec<UserEntry> = Vec::new();
                users.push(UserEntry { user, credential });
                let fresh = SiteEntry { site, users };
                proof {
                    let inner = user_pairs(fresh.users@);
                    assert(inner =~= Seq::<(Seq<char>, CredentialView)>::empty().push(entry));
                    lemma_absent_all(Seq::<(Seq<char>, CredentialView)>::empty());
                    lemma_push(Seq::<(Seq<char>, CredentialView)>::empty(), entry);
                    assert(pairs_map(inner) == Map::<Seq<char>, CredentialView>::empty().insert(
                        entry.0,
                        entry.1,
                    ));
                    lemma_push(site_pairs(before), (fresh.site@, pairs_map(inner)));
                    assert(site_pairs(before.push(fresh)) =~= site_pairs(before).push(
                        (fresh.site@, pairs_map(inner)),
                    ));
                }
                self.sites.push(fresh);
            },
            Some(i) => {
                let ghost old_users = before[i as int].users@;
                let ghost old_inner = user_pairs(old_users);
                proof {
                    lemma_lookup(site_pairs(before), i as int);
                    assert(site_wf(before[i as int]));
                }
                match find_user(&self.sites[i].users, &user) {
                    None => {
                        self.sites[i].users.push(UserEntry { user, credential });
                        proof {
                            let new_users = self.sites@[i as int].users@;
                            assert(user_pairs(new_users) =~= old_inner.push(entry));
                            lemma_push(old_inner, entry);
                        }
                    },
                    Some(j) => {
                        self.sites[i].users[j].credential = credential;
                        proof {
                            let new_users = self.sites@[i as int].users@;
                            assert(user_pairs(new_users) =~= old_inner.update(j as int, entry));
                            lemma_replace(old_inner, j as int, entry);
                        }
                    },
                }
                proof {
                    let new_inner = user_pairs(self.sites@[i as int].users@);
                    let replaced = (site@, pairs_map(new_inner));
                    assert(site_pairs(self.sites@) =~= site_pairs(before).update(
                        i as int,
                        replaced,
                    ));
                    lemma_replace(site_pairs(before), i as int, replaced);
                    assert forall|k: int| 0 <= k < self.sites@.len() implies site_wf(
                        #[trigger] self.sites@[k],
                    ) by {
                        if k != i {
                            assert(self.sites@[k] == before[k]);
                            assert(site_wf(before[k]));
                        }
                    }
                }
            },
        }
    }

    /// Adds a credential for a site and user that have none yet, with the
    /// password sealed under `key`. An existing credential is left as it is:
    /// changing one is `update`'s work.
    pub fn add(
        &mut self,
        site: &str,
        user: &str,
        username: &str,
        password: &str,
        key: &[u8; 32],
    ) -> (outcome: Result<(), StoreError>)
        requires
            old(self).wf(),
        ensures
            final(self).wf(),
            holds(old(self)@, site@, user@) ==> outcome == Err::<(), StoreError>(
                StoreError::AlreadyExists,
            ),
            !holds(old(self)@, site@, user@) && !fits_envelope(password@) ==> outcome == Err::<
                (),
                StoreError,
            >(StoreError::Crypto(CryptoError::PlaintextTooLong)),
            !holds(old(self)@, site@, user@) && fits_envelope(password@) ==> outcome is Ok,
            outcome is Err ==> *final(self) == *old(self),
            outcome is Ok ==> {
                let stored = final(self)@[site@][user@];
                &&& final(self)@ == with_credential(old(self)@, site@, user@, stored)
                &&& stored.username == username@
                &&& open_envelope(stored.password, key@) == Ok::<Seq<char>, CryptoError>(password@)
            },
    {
        if self.contains(site, user) {
            return Err(StoreError::AlreadyExists);
        }
        match encrypt(password, key) {
            Err(cause) => Err(StoreError::Crypto(cause)),
            Ok(envelope) => {
                let credential = Credential { username: username.to_owned(), password: envelope };
                self.put(site.to_owned(), user.to_owned(), credential);
                Ok(())
            },
        }
    }

    /// Replaces the credential of a site and user that have one: the
    /// username is overwritten and the password sealed afresh under `key`.
    pub fn update(
        &mut self,
        site: &str,
        user: &str,
        username: &str,
        password: &str,
        key: &[u8; 32],
    ) -> (outcome: Result<(), StoreError>)
        requires
            old(self).wf(),
        ensures
            final(self).wf(),
            !holds(old(self)@, site@, user@) ==> outcome == Err::<(), StoreError>(
                StoreError::NotFound,
            ),
            holds(old(self)@, site@, user@) && !fits_envelope(password@) ==> outcome == Err::<
                (),
                StoreError,
            >(StoreError::Crypto(CryptoError::PlaintextTooLong)),
            holds(old(self)@, site@, user@) && fits_envelope(password@) ==> outcome is Ok,
            outcome is Err ==> *final(self) == *old(self),
            outcome is Ok ==> {
                let stored = final(self)@[site@][user@];
                &&& final(self)@ == with_credential(old(self)@, site@, user@, stored)
                &&& stored.username == username@
                &&& open_envelope(stored.password, key@) == Ok::<Seq<char>, CryptoError>(password@)
            },
    {
        if !self.contains(site, user) {
            return Err(StoreError::NotFound);
        }
        match encrypt(password, key) {
            Err(cause) => Err(StoreError::Crypto(cause)),
            Ok(envelope) => {
                let credential = Credential { username: username.to_owned(), password: envelope };
                self.put(site.to_owned(), user.to_owned(), credential);
                Ok(())
            },
        }
    }

    /// The credential of `user` on `site` as it is kept, password still
    /// sealed, or `None` where there is none.
    pub fn lookup(&self, site: &str, user: &str) -> (found: Option<&Credential>)
        requires
            self.wf(),
        ensures
            found is Some <==> holds(self@, site@, user@),
            found is Some ==> found->0@ == self@[site@][user@],
    {
        let site_key = site.to_owned();
        let user_key = user.to_owned();
        match self.find_site(&site_key) {
            None => None,
            Some(i) => {
                proof {
                    lemma_lookup(site_pairs(self.sites@), i as int);
                }
                match find_user(&self.sites[i].users, &user_key) {
                    None => None,
                    Some(j) => {
                        proof {
                            lemma_lookup(user_pairs(self.sites@[i as int].users@), j as int);
                        }
                        Some(&self.sites[i].users[j].credential)
                    },
                }
            },
        }
    }

    /// The username and the decrypted password of `user` on `site`. Only
    /// this one password is decrypted, and the store keeps no copy of it.
    pub fn get(&self, site: &str, user: &str, key: &[u8; 32]) -> (outcome: Result<
        PlaintextView,
        StoreError,
    >)
        requires
            self.wf(),
        ensures
            !holds(self@, site@, user@) ==> outcome is Err && outcome->Err_0
                == StoreError::NotFound,
            holds(self@, site@, user@) ==> match open_envelope(
                self@[site@][user@].password,
                key@,
            ) {
                Ok(password) => outcome is Ok && outcome->Ok_0.username@
                    == self@[site@][user@].username && outcome->Ok_0.password@ == password,
                Err(cause) => outcome is Err && outcome->Err_0 == StoreError::Crypto(cause),
            },
    {
        match self.lookup(site, user) {
            None => Err(StoreError::NotFound),
            Some(credential) => match decrypt(credential.password.as_str(), key) {
                Err(cause) => Err(StoreError::Crypto(cause)),
                Ok(password) => Ok(
                    PlaintextView { username: credential.username.clone(), password },
                ),
            },
        }
    }

    /// Drops the credential of `user` on `site`, and the site with it where
    /// that was its last user.
    pub fn delete(&mut self, site: &str, user: &str) -> (outcome: Result<(), StoreError>)
        requires
            old(self).wf(),
        ensures
            final(self).wf(),
            outcome is Ok <==> holds(old(self)@, site@, user@),
            outcome is Err ==> outcome->Err_0 == StoreError::NotFound && *final(self) == *old(
                self,
            ),
            outcome is Ok ==> final(self)@ == without_credential(old(self)@, site@, user@),
            outcome is Ok ==> !holds(final(self)@, site@, user@),
    {
        let ghost before = self.sites@;
        let site_key = site.to_owned();
        let user_key = user.to_owned();
        let i = match self.find_site(&site_key) {
            None => { return Err(StoreError::NotFound); },
            Some(i) => i,
        };
        proof {
            lemma_lookup(site_pairs(before), i as int);
            assert(site_wf(before[i as int]));
        }
        let j = match find_user(&self.sites[i].users, &user_key) {
            None => { return Err(StoreError::NotFound); },
            Some(j) => j,
        };
        let ghost old_inner = user_pairs(before[i as int].users@);
        self.sites[i].users.remove(j);
        let ghost middle = self.sites@;
        proof {
            lemma_lookup(old_inner, j as int);
            assert(user_pairs(middle[i as int].users@) =~= old_inner.remove(j as int));
            lemma_remove(old_inner, j as int);
        }
        if self.sites[i].users.len() == 0 {
            self.sites.remove(i);
            proof {
                lemma_absent_all(old_inner.remove(j as int));
                assert(self.sites@ =~= before.remove(i as int));
                assert(site_pairs(self.sites@) =~= site_pairs(before).remove(i as int));
                lemma_remove(site_pairs(before), i as int);
                assert forall|k: int| 0 <= k < self.sites@.len() implies site_wf(
                    #[trigger] self.sites@[k],
                ) by {
                    let k0 = if k < i { k } else { k + 1 };
                    assert(self.sites@[k] == before[k0]);
                    assert(site_wf(before[k0]));
                }
            }
        } else {
            proof {
                let new_inner = old_inner.remove(j as int);
                lemma_lookup(new_inner, 0);
                assert(pairs_map(new_inner).contains_key(new_inner[0].0));
                let replaced = (site@, pairs_map(new_inner));
                assert(site_pairs(self.sites@) =~= site_pairs(before).update(i as int, replaced));
                lemma_replace(site_pairs(before), i as int, replaced);
                assert forall|k: int| 0 <= k < self.sites@.len() implies site_wf(
                    #[trigger] self.sites@[k],
                ) by {
                    if k != i {
                        assert(self.sites@[k] == before[k]);
                        assert(site_wf(before[k]));
                    }
                }
            }
        }
        Ok(())
    }

    /// Every credential of the store with its site and user, passwords still
    /// sealed: each kept credential once, in no particular order.
    pub fn list(&self) -> (items: Vec<(String, String, Credential)>)
        requires
            self.wf(),
        ensures
            forall|k: int|
                0 <= k < items@.len() ==> holds(self@, (#[trigger] items@[k]).0@, items@[k].1@)
                    && self@[items@[k].0@][items@[k].1@] == items@[k].2@,
            forall|site: Seq<char>, user: Seq<char>| #[trigger]
                holds(self@, site, user) ==> exists|k: int| listed_at(items@, site, user, k),
            forall|a: int, b: int|
                0 <= a < b < items@.len() ==> !(items@[a].0@ == items@[b].0@ && items@[a].1@
                    == items@[b].1@),
    {
        let mut items: Vec<(String, String, Credential)> = Vec::new();
        let ghost mut origin: Seq<(int, int)> = Seq::empty();
        let mut i: usize = 0;
        while i < self.sites.len()
            invariant
                i <= self.sites@.len(),
                origin.len() == items@.len(),
                forall|k: int|
                    0 <= k < origin.len() ==> taken_from(
                        self.sites@,
                        items@[k],
                        #[trigger] origin[k],
                    )
                        && origin[k].0 < i,
                forall|a: int, b: int| 0 <= a < b < origin.len() ==> origin[a] != origin[b],
                forall|p: int, q: int|
                    0 <= p < i && 0 <= q < self.sites@[p].users@.len() ==> #[trigger] covered(
                        origin,
                        p,
                        q,
                    ),
            decreases self.sites@.len() - i,
        {
            let entry = &self.sites[i];
            let mut j: usize = 0;
            while j < entry.users.len()
                invariant
                    i < self.sites@.len(),
                    *entry == self.sites@[i as int],
                    j <= entry.users@.len(),
                    origin.len() == items@.len(),
                    forall|k: int|
                        0 <= k < origin.len() ==> taken_from(
                            self.sites@,
                            items@[k],
                            #[trigger] origin[k],
                        ) && (origin[k].0 < i || (origin[k].0 == i && origin[k].1 < j)),
                    forall|a: int, b: int| 0 <= a < b < origin.len() ==> origin[a] != origin[b],
                    forall|p: int, q: int|
                        0 <= p < i && 0 <= q < self.sites@[p].users@.len() ==> #[trigger] covered(
                            origin,
                            p,
                            q,
                        ),
                    forall|q: int| 0 <= q < j ==> #[trigger] covered(origin, i as int, q),
                decreases entry.users@.len() - j,
            {
                let kept = &entry.users[j];
                let credential = Credential {
                    username: kept.credential.username.clone(),
                    password: kept.credential.password.clone(),
                };
                let ghost earlier = origin;
                items.push((entry.site.clone(), kept.user.clone(), credential));
                proof {
                    origin = origin.push((i as int, j as int));
                    assert forall|p: int, q: int|
                        0 <= p < i && 0 <= q < self.sites@[p].users@.len() implies covered(
                        origin,
                        p,
                        q,
                    ) by {
                        assert(covered(earlier, p, q));
                        let k = choose|k: int| origin_at(earlier, k, p, q);
                        assert(origin_at(origin, k, p, q));
                    }
                    assert forall|q: int| 0 <= q < j + 1 implies #[trigger] covered(
                        origin,
                        i as int,
                        q,
                    ) by {
                        if q < j {
                            assert(covered(earlier, i as int, q));
                            let k = choose|k: int| origin_at(earlier, k, i as int, q);
                            assert(origin_at(origin, k, i as int, q));
                        } else {
                            assert(origin_at(origin, earlier.len() as int, i as int, q));
                        }
                    }
                }
                j = j + 1;
            }
            i = i + 1;
        }
        proof {
            let pairs = site_pairs(self.sites@);
            assert forall|k: int| 0 <= k < items@.len() implies holds(
                self@,
                (#[trigger] items@[k]).0@,
                items@[k].1@,
            ) && self@[items@[k].0@][items@[k].1@] == items@[k].2@ by {
                assert(taken_from(self.sites@, items@[k], origin[k]));
                let p = origin[k].0;
                let q = origin[k].1;
                lemma_lookup(pairs, p);
                assert(site_wf(self.sites@[p]));
                lemma_lookup(user_pairs(self.sites@[p].users@), q);
            }
            assert forall|site: Seq<char>, user: Seq<char>| #[trigger]
                holds(self@, site, user) implies exists|k: int|
                listed_at(items@, site, user, k) by {
                let p = lemma_position(pairs, site);
                lemma_lookup(pairs, p);
                let q = lemma_position(user_pairs(self.sites@[p].users@), user);
                assert(covered(origin, p, q));
                let k = choose|k: int| origin_at(origin, k, p, q);
                assert(taken_from(self.sites@, items@[k], origin[k]));
                assert(listed_at(items@, site, user, k));
            }
            assert forall|a: int, b: int| 0 <= a < b < items@.len() implies !(items@[a].0@
                == items@[b].0@ && items@[a].1@ == items@[b].1@) by {
                assert(taken_from(self.sites@, items@[a], origin[a]));
                assert(taken_from(self.sites@, items@[b], origin[b]));
                if items@[a].0@ == items@[b].0@ && items@[a].1@ == items@[b].1@ {
                    let pa = origin[a].0;
                    let pb = origin[b].0;
                    assert(pairs[pa].0 == pairs[pb].0);
                    assert(pa == pb);
                    assert(site_wf(self.sites@[pa]));
                    let inner = user_pairs(self.sites@[pa].users@);
                    assert(inner[origin[a].1].0 == inner[origin[b].1].0);
                    assert(origin[a].1 == origin[b].1);
                }
            }
        }
        items
    }
}

/// Setting one credential changes which credentials are kept, and what
/// they are, for that site and user alone.
pub proof fn lemma_with_credential(
    store: StoreView,
    site: Seq<char>,
    user: Seq<char>,
    credential: CredentialView,
)
    ensures
        with_credential(store, site, user, credential)[site][user] == credential,
        forall|s: Seq<char>, u: Seq<char>| #[trigger]
            holds(with_credential(store, site, user, credential), s, u) <==> holds(store, s, u)
                || (s == site && u == user),
        forall|s: Seq<char>, u: Seq<char>|
            holds(store, s, u) && !(s == site && u == user) ==> #[trigger] with_credential(
                store,
                site,
                user,
                credential,
            )[s][u] == store[s][u],
{
}

/// Dropping one credential leaves every other credential as it was, and
/// keeps the site exactly where another user is left on it.
pub proof fn lemma_without_credential(store: StoreView, site: Seq<char>, user: Seq<char>)
    requires
        holds(store, site, user),
    ensures
        forall|s: Seq<char>, u: Seq<char>| #[trigger]
            holds(without_credential(store, site, user), s, u) <==> holds(store, s, u) && !(s
                == site && u == user),
        forall|s: Seq<char>, u: Seq<char>|
            holds(store, s, u) && !(s == site && u == user) ==> #[trigger] without_credential(
                store,
                site,
                user,
            )[s][u] == store[s][u],
        forall|s: Seq<char>|
            s != site ==> (#[trigger] without_credential(store, site, user).contains_key(s)
                <==> store.contains_key(s)),
        without_credential(store, site, user).contains_key(site) <==> exists|u: Seq<char>|
            u != user && #[trigger] store[site].contains_key(u),
{
    let rest = store[site].remove(user);
    if rest =~= Map::<Seq<char>, CredentialView>::empty() {
        assert forall|u: Seq<char>| u != user implies !#[trigger] store[site].contains_key(u) by {
            assert(!rest.contains_key(u));
        }
    } else {
        let u = choose|u: Seq<char>| rest.contains_key(u);
        assert(u != user && store[site].contains_key(u));
    }
}

/// Once the last user of a site is dropped, the site is gone from the store.
pub proof fn lemma_last_user_takes_site(store: StoreView, site: Seq<char>, user: Seq<char>)
    requires
        holds(store, site, user),
        forall|u: Seq<char>| #[trigger] store[site].contains_key(u) ==> u == user,
    ensures
        !without_credential(store, site, user).contains_key(site),
{
    lemma_without_credential(store, site, user);
}

/// An empty list stands for the empty map.
proof fn lemma_absent_all<W>(pairs: Seq<(Seq<char>, W)>)
    requires
        pairs.len() == 0,
    ensures
        pairs_map(pairs) =~= Map::<Seq<char>, W>::empty(),
{
    assert forall|key: Seq<char>| !pairs_map(pairs).contains_key(key) by {
        lemma_absent(pairs, key);
    }
}

} // verus!
