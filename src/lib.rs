//! Reading, editing and rebuilding Ren'Py archive containers.
//!
//! An archive is a header line, a body of concatenated payloads, and a
//! zlib-compressed pickle index that maps each path to an obfuscated
//! byte range of the body.

mod error;
mod hex;
mod pickle;
mod record;
mod content;
mod archive;
mod args;
mod pattern;
mod extract;
mod laws;
mod zlib;
mod version;

pub use error::{RpaError, RpaResult};
pub use pickle::PickleValue;
pub use record::Record;
pub use content::{Content, ContentMap};
pub use archive::{RenpyArchive, DEFAULT_KEY};
pub use pattern::GlobPattern;
pub use extract::{extract_archive, filter_content};
pub use laws::{lemma_header_length, lemma_obfuscation_involution, lemma_other_key_differs, lemma_prefix_baked_in, lemma_round_trip};
pub use args::{HexKey, MappedPath, RelativeTo, WriteVersion};
pub use version::RpaVersion;
