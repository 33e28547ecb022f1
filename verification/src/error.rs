//! Error types returned by this crate.

use vstd::prelude::*;

verus! {

/// The standard library's report on bytes that are not UTF-8 (`std::string::FromUtf8Error`),
/// carried through as it is.
#[verifier::external_type_specification]
#[verifier::external_body]
pub struct ExFromUtf8Error(std::string::FromUtf8Error);

/// Errors specific to LZX decompression.
#[derive(Debug)]
pub enum LzxError {
    /// The compressed stream contains illegal data (e.g. an out-of-range Huffman code).
    IllegalData,
    /// The compressed stream violates the expected LZX bitstream format.
    DataFormat,
    /// The LZX window size is outside the valid range of 15-21 bits.
    InvalidWindow(u8),
}

/// What can be wrong with an archive, or with a request put to it.
#[derive(Debug)]
pub enum ChmError {
    /// The file does not start with a valid ITSF header.
    BadItsf,
    /// The ITSP directory header is malformed.
    BadItsp,
    /// A PMGL directory block has a bad signature or is otherwise malformed.
    BadPmgl,
    /// A PMGI index block has a bad signature or is otherwise malformed.
    BadPmgi,
    /// The LZXC control data block is malformed.
    BadLzxc,
    /// The LZXC reset table is malformed.
    BadResetTable,
    /// No entry exists at the requested path.
    NotFound(String),
    /// The entry is compressed, but the file has no `MSCompressed` section to decompress it
    /// with.
    NoCompression,
    /// LZX decompression failed.
    Lzx(LzxError),
    /// An entry path exceeds the maximum length allowed in a CHM directory entry (512 bytes).
    PathTooLong,
    /// An entry path is not valid UTF-8.
    Utf8(std::string::FromUtf8Error),
    /// A block/offset calculation would overflow the target integer type.
    Overflow,
}

/// What an error says: a path as its characters, and of bytes that are not UTF-8 only that
/// they are not.
pub enum Fault {
    BadItsf,
    BadItsp,
    BadPmgl,
    BadPmgi,
    BadLzxc,
    BadResetTable,
    NotFound(Seq<char>),
    NoCompression,
    Lzx(LzxError),
    PathTooLong,
    Utf8,
    Overflow,
}

impl View for ChmError {
    type V = Fault;

    open spec fn view(&self) -> Fault {
        match self {
            ChmError::BadItsf => Fault::BadItsf,
            ChmError::BadItsp => Fault::BadItsp,
            ChmError::BadPmgl => Fault::BadPmgl,
            ChmError::BadPmgi => Fault::BadPmgi,
            ChmError::BadLzxc => Fault::BadLzxc,
            ChmError::BadResetTable => Fault::BadResetTable,
            ChmError::NotFound(path) => Fault::NotFound(path@),
            ChmError::NoCompression => Fault::NoCompression,
            ChmError::Lzx(e) => Fault::Lzx(*e),
            ChmError::PathTooLong => Fault::PathTooLong,
            ChmError::Utf8(_) => Fault::Utf8,
            ChmError::Overflow => Fault::Overflow,
        }
    }
}

/// A result type using [`ChmError`].
pub type Result<T> = core::result::Result<T, ChmError>;

/// The outcome that a result stands for.
pub open spec fn outcome<T>(r: core::result::Result<T, ChmError>) -> core::result::Result<
    T,
    Fault,
> {
    match r {
        Ok(v) => Ok(v),
        Err(e) => Err(e@),
    }
}

} // verus!
