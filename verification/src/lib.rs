//! Editing the text of a word-processing document package: a zip archive of
//! XML parts. The library loads the mutable parts into memory, performs
//! literal substring replacement in the main document text (with control
//! characters transliterated into markup), and rebuilds the archive
//! entry-by-entry, copying everything it does not track byte-for-byte.
use vstd::prelude::*;

pub mod laws;
pub mod text;
pub mod model;
pub mod ziparc;

pub use model::Docx;
pub use model::DocZipData;
pub use model::Part;
pub use text::encode;
pub use text::replace_bytes;

verus! {

/// The errors of this library.
#[derive(Debug, PartialEq, Eq, Structural, Clone, Copy)]
pub enum DocxError {
    /// The source file could not be opened.
    ArchiveOpen,
    /// The bytes are not a valid compressed package.
    ArchiveFormat,
    /// The main document or the relationship manifest entry is absent.
    PartMissing,
    /// An entry could not be read, or the output could not be assembled.
    Io,
}

} // verus!
