//! The stored credential record.

use vstd::prelude::*;

verus! {

/// One credential as it is kept at rest: the username in clear, the password
/// as an envelope.
#[derive(Debug, Clone, PartialEq, Eq)]
pub struct Credential {
    /// The account's login name. It is not secret.
    pub username: String,
    /// The envelope that holds the password.
    pub password: String,
}

/// What a `Credential` holds, as plain text values.
pub ghost struct CredentialView {
    pub username: Seq<char>,
    pub password: Seq<char>,
}

impl View for Credential {
    type V = CredentialView;

    open spec fn view(&self) -> CredentialView {
        CredentialView { username: self.username@, password: self.password@ }
    }
}

} // verus!
