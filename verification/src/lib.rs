//! Tracking of source-code comments that are stamped with integrity hashes.
pub mod text;
pub mod hashing;
pub mod models;
pub mod parser;
pub mod violations;
pub mod source_code_replacer;
pub mod regeneration;
pub mod program;
pub mod storage;
