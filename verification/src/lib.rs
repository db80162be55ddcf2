//! A container format for catalogues of plaintexts with their digests under named
//! hash algorithms: chunks with checksums, a description of the container, a lookup
//! table of the algorithms, data chunks that may be compressed, and the state
//! machines of a writer and a reader. The layout is described in `format`, the
//! properties that tie writing to reading are proved in `laws`.

pub mod error;
pub mod codec;
pub mod checksum;
pub mod lzma;
pub mod text;
pub mod format;
pub mod lookup;
pub mod entry;
pub mod chunks;
pub mod io;
pub mod pipeline;
pub mod laws;
