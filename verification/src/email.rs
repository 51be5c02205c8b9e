//! The email app: the format of messages, where they are stored, and what the client and
//! the bridge do with them.
pub mod bridge;
pub mod client;
pub mod crypto;
pub mod message;

pub use crypto::SourcedAsymmetricCipherText;
pub use message::{Attachment, EmailMessage, CBOR_PEERGOS_EMAIL_INT};
