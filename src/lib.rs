//! Content-addressed storage of byte streams: chunking, file manifests with
//! random-access reading, and a hash-array-mapped trie for large directories.

pub mod address;
pub mod bytes;
pub mod chunker;
pub mod codec;
pub mod hamt;
pub mod manifest;
pub mod reader;
pub mod stored;

pub use address::{parse_cid, Address, AddressError};
pub use chunker::{split_chunks, Chunker, BLOCK_SIZE};
pub use codec::Error;
pub use hamt::{compute_hash, split_hash, Hamt, HamtError};
pub use manifest::{build_manifest, File, FileDataBounds, FileDataEntry, ManifestError};
pub use reader::{FileReader, Phase, ReadError, ReadStep};
pub use stored::{Probe, StoredNode, StoredSlot};
