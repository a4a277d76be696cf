//! A local secrets vault: per-site, per-user credentials whose passwords are
//! kept encrypted under a key derived from one master password.
//!
//! The modules, leaves first:
//! - `primitives`: the cryptographic and encoding primitives the vault builds on;
//! - `keys`: master-key derivation and master-password verification;
//! - `envelope`: the authenticated-encryption envelope around one secret;
//! - `structs`: the stored credential record;
//! - `assoc`: the association lists the store is made of;
//! - `store`: the credential store and its operations;
//! - `import`: the bulk-import feed;
//! - `rotation`: re-keying a whole store under a new master password.
//!
//! The master key is never ambient: every operation that needs it takes it
//! as an argument.

pub mod primitives;
pub mod keys;
pub mod envelope;
pub mod structs;
pub mod assoc;
pub mod store;
pub mod import;
pub mod rotation;

pub use crate::envelope::{decrypt, encrypt, encrypt_with_nonce, CryptoError};
pub use crate::import::{parse_line, populate_db, ImportError, ImportRecord};
pub use crate::keys::{constant_time_eq, derive_master_key, verify_master_password, AuthError};
pub use crate::primitives::generate_nonce;
pub use crate::rotation::{rotate, RotationError};
pub use crate::store::{CredentialStore, PlaintextView, StoreError};
pub use crate::structs::Credential;
