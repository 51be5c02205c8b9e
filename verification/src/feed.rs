//! Social posts and the feed.
//!
//! A post is a [`SocialPost`] stored at `/username/.posts/<year>/<month>/<uuid>.cbor`.
//! The feed is an append-only stream of serialized [`SharedItem`]s, with an index of
//! where each record starts, and a [`FeedState`]: how far each friend's cap stream has
//! been processed, and the feed size.
pub mod post;
pub mod posting;
pub mod records;
pub mod social;
pub mod update;

pub use post::{Content, FileRef, Resharing, SocialPost};
pub use records::{FeedState, SharedItem};
pub use social::SocialFeed;
