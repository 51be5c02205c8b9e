//! Files and directories as chunks: what is read and written, and in which order.
pub mod blocks;
pub mod children;
pub mod chunks;
pub mod directory;
pub mod moves;
pub mod retrieve;
pub mod search;
pub mod upload;
pub mod walk;
pub mod writer_data;
pub mod writing;

pub use chunks::{chunk_count, CHUNK_MAX_SIZE};
pub use directory::DirEntry;
pub use upload::{FileUpload, FolderUpload};
