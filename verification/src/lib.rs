//! A private filesystem: capabilities, cryptree nodes, files and directories in chunks,
//! zip archives, shares, the social feed and email, as far as all of that is computed.
//!
//! What is read from the network or from disk, what is encrypted, hashed or signed, and
//! what is random or depends on the time comes in as an argument. Where such work and
//! decisions alternate, a type says at each step what is to be done next, and takes in what
//! came of it.
pub mod account;
pub mod admin;
pub mod archive;
pub mod bytes;
pub mod cache;
pub mod capability;
pub mod cbor;
pub mod cbor_codec;
pub mod context;
pub mod cryptree;
pub mod email;
pub mod error;
pub mod feed;
pub mod files;
pub mod filewrapper;
pub mod hashtree;
pub mod hex;
pub mod incoming;
pub mod login;
pub mod opaque;
pub mod paths;
pub mod sorting;
pub mod text;

pub use admin::{AllowedSignups, LabelledSignedSpaceRequest, VersionInfo};
pub use cache::CryptreeCache;
pub use capability::{AbsoluteCapability, EncryptedCapability, Location, SecretLink, SecretLinkTarget};
pub use context::{LinkMember, LinkProperties, PaymentProperties, UserContext};
pub use cryptree::node::CryptreeNode;
pub use cryptree::properties::FileProperties;
pub use cryptree::{ChildrenLinks, NamedRelativeCapability, PaddedCipherText, RelativeCapability};
pub use error::{Error, Result};
pub use feed::{Content, FileRef, Resharing, SharedItem, SocialFeed, SocialPost};
pub use files::retrieve::RetrievedCapability;
pub use files::{DirEntry, FileUpload, FolderUpload, CHUNK_MAX_SIZE};
pub use filewrapper::FileWrapper;
pub use incoming::processed::ProcessedCaps;
pub use incoming::{CapsInDirectory, ChildElement};
pub use login::{EntryPoint, LoggedInUser};
