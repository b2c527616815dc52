//! Reading and writing of voxel scenes in the chunked VOX container format.
pub mod bytes;
pub mod chunk;
pub mod data;
pub mod laws;
pub mod reader;
pub mod types;
pub mod writer;

pub use chunk::{Chunk, ChunkId, ChunkWriter, ContentReader, Tag};
pub use data::{Model, VoxData};
pub use reader::{from_reader, from_slice, read_vox_into};
pub use types::{
    Color, ColorIndex, Material, MaterialPalette, MaterialTryFromError, MaterialType, Palette,
    Vector, Version, Voxel,
};
pub use writer::{main_chunk_writer, to_vec, write_file_header};
