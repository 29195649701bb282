//! Integrity data for update images: a signed-data manifest that maps file
//! names to base64 signatures, and a binary table of per-block digests.

pub mod error;
pub mod evp;
pub mod le;
pub mod lookup;
pub mod text;
pub mod img_hash_check;
pub mod hsd;
pub mod table_layout;
pub mod manifest_layout;
