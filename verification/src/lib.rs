//! Fetching, unpacking and listing the archives of a media library.

pub mod archive;
pub mod cover;
pub mod extract;
pub mod failure;
pub mod fetch;
pub mod image;
pub mod path;
pub mod rar;
pub mod scan;
pub mod text;
