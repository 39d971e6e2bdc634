//! Chunk headers and the node events of the binary XML format.
use vstd::prelude::*;

use crate::bytes::{le16, le32, read_u16, read_u32};
use crate::resource_value::{resource_value_at, ResourceValue};
use crate::ParseError;

verus! {

/// Type tag of the top-level chunk.
pub const XML_TYPE: u16 = 0x0003;

/// Size of a chunk header: type, header size and total size.
pub const CHUNK_HEADER_SIZE: usize = 8;

/// Size of a node chunk's header: the chunk header, line number and comment.
pub const NODE_HEADER_SIZE: usize = 16;

/// Size of one attribute record of a start-element chunk.
pub const ATTRIBUTE_SIZE: usize = 20;

/// Offset of the first attribute record in a start-element chunk.
pub const ATTRIBUTES_START: usize = 36;

/// The kinds of chunk that may follow the top-level header.
#[derive(Debug, Clone, Copy, PartialEq, Eq, Structural)]
pub enum ChunkKind {
    StringPool,
    ResourceMap,
    StartNamespace,
    EndNamespace,
    StartElement,
    EndElement,
    Cdata,
}

/// The kind that the type tag `t` encodes, if any.
pub open spec fn chunk_kind_of(t: u16) -> Option<ChunkKind> {
    if t == 0x0001 {
        Some(ChunkKind::StringPool)
    } else if t == 0x0180 {
        Some(ChunkKind::ResourceMap)
    } else if t == 0x0100 {
        Some(ChunkKind::StartNamespace)
    } else if t == 0x0101 {
        Some(ChunkKind::EndNamespace)
    } else if t == 0x0102 {
        Some(ChunkKind::StartElement)
    } else if t == 0x0103 {
        Some(ChunkKind::EndElement)
    } else if t == 0x0104 {
        Some(ChunkKind::Cdata)
    } else {
        None
    }
}

impl ChunkKind {
    /// Decodes a chunk type tag; `None` for a tag that may not stand there.
    pub fn from_tag(t: u16) -> (r: Option<ChunkKind>)
        ensures
            r == chunk_kind_of(t),
    {
        match t {
            0x0001 => Some(ChunkKind::StringPool),
            0x0180 => Some(ChunkKind::ResourceMap),
            0x0100 => Some(ChunkKind::StartNamespace),
            0x0101 => Some(ChunkKind::EndNamespace),
            0x0102 => Some(ChunkKind::StartElement),
            0x0103 => Some(ChunkKind::EndElement),
            0x0104 => Some(ChunkKind::Cdata),
            _ => None,
        }
    }

    /// Whether the kind is one of the five node events.
    pub open spec fn is_node(self) -> bool {
        !(self is StringPool || self is ResourceMap)
    }
}

/// The header that starts every chunk.
#[derive(Debug, Clone, Copy, PartialEq, Eq, Structural)]
pub struct ChunkHeader {
    pub typ: u16,
    pub header_size: u16,
    pub size: u32,
}

/// The chunk header at `b[p..p + 8]`.
pub open spec fn header_at(b: Seq<u8>, p: int) -> ChunkHeader {
    ChunkHeader { typ: le16(b, p), header_size: le16(b, p + 2), size: le32(b, p + 4) }
}

impl ChunkHeader {
    /// Reads the chunk header at `b[p..p + 8]`.
    pub fn read(b: &[u8], p: usize) -> (r: ChunkHeader)
        requires
            p + CHUNK_HEADER_SIZE <= b.len(),
        ensures
            r == header_at(b@, p as int),
    {
        ChunkHeader { typ: read_u16(b, p), header_size: read_u16(b, p + 2), size: read_u32(b, p + 4) }
    }

    /// A header is consistent when it covers at least itself and its total
    /// size covers its header.
    pub open spec fn consistent(self) -> bool {
        self.header_size >= CHUNK_HEADER_SIZE && self.size >= self.header_size
    }
}

/// One attribute of a start-element event.
#[derive(Debug, Clone, Copy, PartialEq, Eq, Structural)]
pub struct XmlAttribute {
    pub ns: u32,
    pub name: u32,
    pub raw_value: u32,
    pub typed_value: ResourceValue,
}

/// The attribute record at `b[q..q + 20]`.
pub open spec fn attribute_at(b: Seq<u8>, q: int) -> Result<XmlAttribute, ParseError> {
    match resource_value_at(b, q + 12) {
        Ok(v) => Ok(
            XmlAttribute { ns: le32(b, q), name: le32(b, q + 4), raw_value: le32(b, q + 8), typed_value: v },
        ),
        Err(x) => Err(x),
    }
}

/// The first `n` attribute records from `b[q]` on, or the first error among
/// them.
pub open spec fn attributes_at(b: Seq<u8>, q: int, n: nat) -> Result<Seq<XmlAttribute>, ParseError>
    decreases n,
{
    if n == 0 {
        Ok(Seq::empty())
    } else {
        match attributes_at(b, q, (n - 1) as nat) {
            Err(x) => Err(x),
            Ok(s) => match attribute_at(b, q + ATTRIBUTE_SIZE * (n - 1)) {
                Err(x) => Err(x),
                Ok(a) => Ok(s.push(a)),
            },
        }
    }
}

/// Once the first `i` attribute records fail, the first `n` fail the same way.
pub proof fn lemma_attributes_error_stays(b: Seq<u8>, q: int, i: nat, n: nat)
    requires
        i <= n,
        attributes_at(b, q, i) is Err,
    ensures
        attributes_at(b, q, n) == attributes_at(b, q, i),
    decreases n,
{
    if i < n {
        lemma_attributes_error_stays(b, q, i, (n - 1) as nat);
    }
}

/// A node event, as decoded from one node chunk.
pub enum XmlEvent {
    StartNamespace { prefix: u32, uri: u32 },
    EndNamespace { prefix: u32, uri: u32 },
    StartElement { ns: u32, name: u32, attributes: Vec<XmlAttribute> },
    EndElement { ns: u32, name: u32 },
    Cdata { data: u32, typed_data: ResourceValue },
}

/// The mathematical value of a node event.
pub enum EventModel {
    StartNamespace { prefix: u32, uri: u32 },
    EndNamespace { prefix: u32, uri: u32 },
    StartElement { ns: u32, name: u32, attributes: Seq<XmlAttribute> },
    EndElement { ns: u32, name: u32 },
    Cdata { data: u32, typed_data: ResourceValue },
}

impl XmlEvent {
    pub open spec fn view(&self) -> EventModel {
        match self {
            XmlEvent::StartNamespace { prefix, uri } => EventModel::StartNamespace { prefix: *prefix, uri: *uri },
            XmlEvent::EndNamespace { prefix, uri } => EventModel::EndNamespace { prefix: *prefix, uri: *uri },
            XmlEvent::StartElement { ns, name, attributes } => EventModel::StartElement {
                ns: *ns,
                name: *name,
                attributes: attributes@,
            },
            XmlEvent::EndElement { ns, name } => EventModel::EndElement { ns: *ns, name: *name },
            XmlEvent::Cdata { data, typed_data } => EventModel::Cdata { data: *data, typed_data: *typed_data },
        }
    }
}

/// Decoding of the node chunk `b[p..e]` of kind `k`.
pub open spec fn event_at(b: Seq<u8>, p: int, e: int, k: ChunkKind) -> Result<EventModel, ParseError> {
    let len = e - p;
    if len < NODE_HEADER_SIZE + 8 {
        Err(ParseError::TruncatedInput)
    } else {
        let a = le32(b, p + 16);
        let c = le32(b, p + 20);
        match k {
            ChunkKind::StartNamespace => Ok(EventModel::StartNamespace { prefix: a, uri: c }),
            ChunkKind::EndNamespace => Ok(EventModel::EndNamespace { prefix: a, uri: c }),
            ChunkKind::EndElement => Ok(EventModel::EndElement { ns: a, name: c }),
            ChunkKind::StartElement => {
                if len < ATTRIBUTES_START {
                    Err(ParseError::TruncatedInput)
                } else {
                    let n = le16(b, p + 28);
                    if ATTRIBUTES_START + ATTRIBUTE_SIZE * n > len {
                        Err(ParseError::TruncatedInput)
                    } else {
                        match attributes_at(b, p + ATTRIBUTES_START, n as nat) {
                            Ok(s) => Ok(EventModel::StartElement { ns: a, name: c, attributes: s }),
                            Err(x) => Err(x),
                        }
                    }
                }
            },
            _ => {
                if len < NODE_HEADER_SIZE + 12 {
                    Err(ParseError::TruncatedInput)
                } else {
                    match resource_value_at(b, p + 20) {
                        Ok(v) => Ok(EventModel::Cdata { data: a, typed_data: v }),
                        Err(x) => Err(x),
                    }
                }
            },
        }
    }
}

/// Reads the attribute records of a start-element chunk.
fn read_attributes(b: &[u8], q: usize, n: u16) -> (r: Result<Vec<XmlAttribute>, ParseError>)
    requires
        q + ATTRIBUTE_SIZE * n <= b.len(),
    ensures
        match r {
            Ok(v) => attributes_at(b@, q as int, n as nat) == Ok::<Seq<XmlAttribute>, ParseError>(v@),
            Err(x) => attributes_at(b@, q as int, n as nat) == Err::<Seq<XmlAttribute>, ParseError>(x),
        },
{
    let mut v: Vec<XmlAttribute> = Vec::new();
    let mut i: u16 = 0;
    while i < n
        invariant
            q + ATTRIBUTE_SIZE * n <= b.len(),
            i <= n,
            attributes_at(b@, q as int, i as nat) == Ok::<Seq<XmlAttribute>, ParseError>(v@),
        decreases n - i,
    {
        assert(q + ATTRIBUTE_SIZE * (i + 1) <= q + ATTRIBUTE_SIZE * n) by (nonlinear_arith)
            requires i < n;
        let at = q + ATTRIBUTE_SIZE * (i as usize);
        let ghost before = v@;
        match ResourceValue::read(b, at + 12) {
            Ok(value) => {
                let attr = XmlAttribute {
                    ns: read_u32(b, at),
                    name: read_u32(b, at + 4),
                    raw_value: read_u32(b, at + 8),
                    typed_value: value,
                };
                v.push(attr);
            },
            Err(x) => {
                assert(attributes_at(b@, q as int, (i + 1) as nat) == Err::<Seq<XmlAttribute>, ParseError>(x));
                proof {
                    lemma_attributes_error_stays(b@, q as int, (i + 1) as nat, n as nat);
                }
                return Err(x);
            },
        }
        i = i + 1;
        assert(v@ == before.push(v@.last()));
    }
    Ok(v)
}

impl XmlEvent {
    /// Decodes the node chunk `b[p..e]` of kind `k`; reads stay inside the
    /// chunk.
    pub fn read(b: &[u8], p: usize, e: usize, k: ChunkKind) -> (r: Result<XmlEvent, ParseError>)
        requires
            p <= e <= b.len(),
            k.is_node(),
        ensures
            match r {
                Ok(ev) => event_at(b@, p as int, e as int, k) == Ok::<EventModel, ParseError>(ev@),
                Err(x) => event_at(b@, p as int, e as int, k) == Err::<EventModel, ParseError>(x),
            },
    {
        let len = e - p;
        if len < NODE_HEADER_SIZE + 8 {
            return Err(ParseError::TruncatedInput);
        }
        let a = read_u32(b, p + 16);
        let c = read_u32(b, p + 20);
        match k {
            ChunkKind::StartNamespace => Ok(XmlEvent::StartNamespace { prefix: a, uri: c }),
            ChunkKind::EndNamespace => Ok(XmlEvent::EndNamespace { prefix: a, uri: c }),
            ChunkKind::EndElement => Ok(XmlEvent::EndElement { ns: a, name: c }),
            ChunkKind::StartElement => {
                if len < ATTRIBUTES_START {
                    return Err(ParseError::TruncatedInput);
                }
                let n = read_u16(b, p + 28);
                let room = (len - ATTRIBUTES_START) / ATTRIBUTE_SIZE;
                if room < n as usize {
                    assert(36 + 20 * (n as int) > len as int) by (nonlinear_arith)
                        requires
                            room as int == (len as int - 36) / 20,
                            (room as int) < n as int,
                            len >= 36,
                    ;
                    return Err(ParseError::TruncatedInput);
                }
                assert(36 + 20 * (n as int) <= len as int) by (nonlinear_arith)
                    requires
                        room as int == (len as int - 36) / 20,
                        room as int >= n as int,
                        len >= 36,
                ;
                match read_attributes(b, p + ATTRIBUTES_START, n) {
                    Ok(attributes) => Ok(XmlEvent::StartElement { ns: a, name: c, attributes }),
                    Err(x) => Err(x),
                }
            },
            _ => {
                if len < NODE_HEADER_SIZE + 12 {
                    return Err(ParseError::TruncatedInput);
                }
                match ResourceValue::read(b, p + 20) {
                    Ok(v) => Ok(XmlEvent::Cdata { data: a, typed_data: v }),
                    Err(x) => Err(x),
                }
            },
        }
    }
}

} // verus!
