//! A read-only, in-memory virtual filesystem backed by a compressed tar
//! archive: construction decompresses the blob, unpacks its entries into a
//! data store and a path index, and files are then read by path or through
//! file descriptors minted by `open`.

pub mod archive;
pub mod bytes;
pub mod decompress;
pub mod table;
pub mod vfs;

pub use crate::decompress::{Decompress, DecompressError, NoDecompression, ZStdDecompression};
pub use crate::vfs::{CompressedArchive, Fd, Vfs, VfsError, VfsView};
