pub mod chunk;
pub mod policy;
pub mod reader;
pub mod writer;

pub use chunk::{ChunkHeader, ChunkReader, ChunkWriter};
pub use policy::{DecodeOptions, DeletedFieldPolicy};
pub use reader::ArchiveReader;
pub use writer::ArchiveWriter;
