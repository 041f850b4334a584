//! Reading, editing and writing the chunk stream of a PNG file.
pub mod chunk;
pub mod chunk_type;
pub mod png;
