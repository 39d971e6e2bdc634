//! Decoder for the compiled binary XML format (AXML) that Android uses for
//! `AndroidManifest.xml`, into a tree of elements and text nodes.
use vstd::prelude::*;

pub mod binaryxml;
pub mod bytes;
pub mod printer;
pub mod resource_value;
pub mod stringpool;
pub mod xml;

pub use crate::xml::{decode, Cdata, Element, Node, NodeModel, XmlDocument};

verus! {

/// Why a document could not be decoded.
#[derive(Debug, Clone, Copy, PartialEq, Eq, Structural)]
pub enum ParseError {
    /// A wrong top-level chunk type, an unknown chunk type, an inconsistent
    /// chunk header, a string pool whose string data would start inside its
    /// header, or an element event where no element is open.
    InvalidFormat,
    /// The buffer is shorter than a field demands.
    TruncatedInput,
    /// An element event came, or the input ended, before both a string pool
    /// and a resource map were seen.
    MissingRequiredChunk,
    /// A string-pool index that is out of bounds, or the absent index where a
    /// string is required.
    StringNotFound(u32),
    /// An attribute's namespace URI was never declared. The URI is given by
    /// its string-pool index, which keeps the error a plain value; the pool
    /// holds its text.
    NamespaceNotFound(u32),
    /// A pool entry that is not valid UTF-8 or UTF-16.
    InvalidEncoding,
    /// Styled strings, long strings, namespaced element tags or an unknown
    /// resource value type.
    UnsupportedFeature,
    /// The input ended while elements were still open, or without any element.
    IncompleteDocument,
}

/// Decodes an Android binary XML document. On success the root is present
/// and is the tree that `decode` gives; otherwise the error is the one that
/// `decode` gives.
pub fn parse(input: &[u8]) -> (r: Result<XmlDocument, ParseError>)
    ensures
        match decode(input@) {
            Ok(m) => r is Ok && r->Ok_0@ == Some(m),
            Err(x) => r is Err && r->Err_0 == x,
        },
{
    XmlDocument::new(input)
}

} // verus!
