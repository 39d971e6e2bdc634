//! Typed resource values and their text.
use vstd::prelude::*;

use crate::bytes::{le16, le32, read_u16, read_u32};
use crate::stringpool::{lookup_required, StringPool, NO_INDEX};
use crate::ParseError;

verus! {

/// The kind of data a resource value holds.
#[derive(Debug, Clone, Copy, PartialEq, Eq, Structural)]
pub enum ResourceValueType {
    Null,
    Reference,
    Attribute,
    String,
    Float,
    Dimension,
    Fraction,
    Dec,
    Hex,
    Boolean,
    ColorArgb8,
    ColorRgb8,
    ColorArgb4,
    ColorRgb4,
}

/// The type that the tag byte `c` encodes, if any.
pub open spec fn value_type_of(c: u8) -> Option<ResourceValueType> {
    if c == 0x00 {
        Some(ResourceValueType::Null)
    } else if c == 0x01 {
        Some(ResourceValueType::Reference)
    } else if c == 0x02 {
        Some(ResourceValueType::Attribute)
    } else if c == 0x03 {
        Some(ResourceValueType::String)
    } else if c == 0x04 {
        Some(ResourceValueType::Float)
    } else if c == 0x05 {
        Some(ResourceValueType::Dimension)
    } else if c == 0x06 {
        Some(ResourceValueType::Fraction)
    } else if c == 0x10 {
        Some(ResourceValueType::Dec)
    } else if c == 0x11 {
        Some(ResourceValueType::Hex)
    } else if c == 0x12 {
        Some(ResourceValueType::Boolean)
    } else if c == 0x1c {
        Some(ResourceValueType::ColorArgb8)
    } else if c == 0x1d {
        Some(ResourceValueType::ColorRgb8)
    } else if c == 0x1e {
        Some(ResourceValueType::ColorArgb4)
    } else if c == 0x1f {
        Some(ResourceValueType::ColorRgb4)
    } else {
        None
    }
}

/// The name of a value type, as it appears in placeholder text.
pub open spec fn value_type_name(t: ResourceValueType) -> Seq<char> {
    match t {
        ResourceValueType::Null => "Null"@,
        ResourceValueType::Reference => "Reference"@,
        ResourceValueType::Attribute => "Attribute"@,
        ResourceValueType::String => "String"@,
        ResourceValueType::Float => "Float"@,
        ResourceValueType::Dimension => "Dimension"@,
        ResourceValueType::Fraction => "Fraction"@,
        ResourceValueType::Dec => "Dec"@,
        ResourceValueType::Hex => "Hex"@,
        ResourceValueType::Boolean => "Boolean"@,
        ResourceValueType::ColorArgb8 => "ColorArgb8"@,
        ResourceValueType::ColorRgb8 => "ColorRgb8"@,
        ResourceValueType::ColorArgb4 => "ColorArgb4"@,
        ResourceValueType::ColorRgb4 => "ColorRgb4"@,
    }
}

impl ResourceValueType {
    /// Decodes a type tag byte; unknown tags are unsupported.
    pub fn from_code(c: u8) -> (r: Result<ResourceValueType, ParseError>)
        ensures
            match value_type_of(c) {
                Some(t) => r == Ok::<ResourceValueType, ParseError>(t),
                None => r == Err::<ResourceValueType, ParseError>(ParseError::UnsupportedFeature),
            },
    {
        match c {
            0x00 => Ok(ResourceValueType::Null),
            0x01 => Ok(ResourceValueType::Reference),
            0x02 => Ok(ResourceValueType::Attribute),
            0x03 => Ok(ResourceValueType::String),
            0x04 => Ok(ResourceValueType::Float),
            0x05 => Ok(ResourceValueType::Dimension),
            0x06 => Ok(ResourceValueType::Fraction),
            0x10 => Ok(ResourceValueType::Dec),
            0x11 => Ok(ResourceValueType::Hex),
            0x12 => Ok(ResourceValueType::Boolean),
            0x1c => Ok(ResourceValueType::ColorArgb8),
            0x1d => Ok(ResourceValueType::ColorRgb8),
            0x1e => Ok(ResourceValueType::ColorArgb4),
            0x1f => Ok(ResourceValueType::ColorRgb4),
            _ => Err(ParseError::UnsupportedFeature),
        }
    }

    /// The type's name.
    pub fn name(&self) -> (r: &'static str)
        ensures
            r@ == value_type_name(*self),
    {
        match self {
            ResourceValueType::Null => "Null",
            ResourceValueType::Reference => "Reference",
            ResourceValueType::Attribute => "Attribute",
            ResourceValueType::String => "String",
            ResourceValueType::Float => "Float",
            ResourceValueType::Dimension => "Dimension",
            ResourceValueType::Fraction => "Fraction",
            ResourceValueType::Dec => "Dec",
            ResourceValueType::Hex => "Hex",
            ResourceValueType::Boolean => "Boolean",
            ResourceValueType::ColorArgb8 => "ColorArgb8",
            ResourceValueType::ColorRgb8 => "ColorRgb8",
            ResourceValueType::ColorArgb4 => "ColorArgb4",
            ResourceValueType::ColorRgb4 => "ColorRgb4",
        }
    }
}

/// The decimal digit `d`.
pub open spec fn digit_char(d: nat) -> char {
    if d == 0 {
        '0'
    } else if d == 1 {
        '1'
    } else if d == 2 {
        '2'
    } else if d == 3 {
        '3'
    } else if d == 4 {
        '4'
    } else if d == 5 {
        '5'
    } else if d == 6 {
        '6'
    } else if d == 7 {
        '7'
    } else if d == 8 {
        '8'
    } else {
        '9'
    }
}

/// The decimal text of `n`, without leading zeros.
pub open spec fn decimal(n: nat) -> Seq<char>
    decreases n,
{
    if n < 10 {
        seq![digit_char(n)]
    } else {
        decimal(n / 10).push(digit_char(n % 10))
    }
}

fn digit_str(d: u32) -> (r: &'static str)
    requires
        d < 10,
    ensures
        r@ == seq![digit_char(d as nat)],
{
    proof {
        reveal_strlit("0");
        reveal_strlit("1");
        reveal_strlit("2");
        reveal_strlit("3");
        reveal_strlit("4");
        reveal_strlit("5");
        reveal_strlit("6");
        reveal_strlit("7");
        reveal_strlit("8");
        reveal_strlit("9");
    }
    if d == 0 {
        "0"
    } else if d == 1 {
        "1"
    } else if d == 2 {
        "2"
    } else if d == 3 {
        "3"
    } else if d == 4 {
        "4"
    } else if d == 5 {
        "5"
    } else if d == 6 {
        "6"
    } else if d == 7 {
        "7"
    } else if d == 8 {
        "8"
    } else {
        assert(seq!['9'] =~= "9"@);
        "9"
    }
}

/// The decimal text of `n`.
pub fn decimal_string(n: u32) -> (r: String)
    ensures
        r@ == decimal(n as nat),
    decreases n,
{
    if n < 10 {
        String::from_str(digit_str(n))
    } else {
        let mut s = decimal_string(n / 10);
        s.append(digit_str(n % 10));
        s
    }
}

/// The text that a resource value of type `t` holding `data` stands for,
/// given the document's strings.
pub open spec fn value_text(t: ResourceValueType, data: u32, pool: Seq<Seq<char>>) -> Result<
    Seq<char>,
    ParseError,
> {
    match t {
        ResourceValueType::String => lookup_required(pool, data),
        ResourceValueType::Dec => Ok(decimal(data as nat)),
        ResourceValueType::Hex => Ok("0x"@ + decimal(data as nat)),
        ResourceValueType::Boolean => Ok(
            if data == 0 {
                "false"@
            } else {
                "true"@
            },
        ),
        _ => Ok(value_type_name(t) + "/"@ + decimal(data as nat)),
    }
}

/// A boolean is `false` for zero data and `true` otherwise, a decimal is the
/// decimal text of its data, and a string is the pool's string at the index
/// that its data gives, unless that is the absent index.
pub proof fn lemma_value_resolution(pool: Seq<Seq<char>>, d: u32)
    ensures
        value_text(ResourceValueType::Boolean, 0, pool) == Ok::<Seq<char>, ParseError>("false"@),
        d != 0 ==> value_text(ResourceValueType::Boolean, d, pool) == Ok::<Seq<char>, ParseError>("true"@),
        value_text(ResourceValueType::Dec, d, pool) == Ok::<Seq<char>, ParseError>(decimal(d as nat)),
        d != NO_INDEX && d < pool.len() ==> value_text(ResourceValueType::String, d, pool) == Ok::<Seq<char>, ParseError>(
            pool[d as int],
        ),
{
}

/// A typed value: eight bytes of size, reserved byte, type tag and data.
#[derive(Debug, Clone, Copy, PartialEq, Eq, Structural)]
pub struct ResourceValue {
    pub size: u16,
    pub res: u8,
    pub data_type: ResourceValueType,
    pub data: u32,
}

/// Decoding of the resource value at `b[i..i + 8]`.
pub open spec fn resource_value_at(b: Seq<u8>, i: int) -> Result<ResourceValue, ParseError> {
    match value_type_of(b[i + 3]) {
        Some(t) => Ok(ResourceValue { size: le16(b, i), res: b[i + 2], data_type: t, data: le32(b, i + 4) }),
        None => Err(ParseError::UnsupportedFeature),
    }
}

impl ResourceValue {
    /// Reads the resource value at `b[i..i + 8]`.
    pub fn read(b: &[u8], i: usize) -> (r: Result<ResourceValue, ParseError>)
        requires
            i + 8 <= b.len(),
        ensures
            r == resource_value_at(b@, i as int),
    {
        let size = read_u16(b, i);
        let res = b[i + 2];
        let data_type = ResourceValueType::from_code(b[i + 3])?;
        let data = read_u32(b, i + 4);
        Ok(ResourceValue { size, res, data_type, data })
    }

    /// The value as text: a string of the pool, a decimal number, `0x`
    /// followed by the decimal digits, `true` or `false`, and for any other
    /// type the placeholder `<type name>/<decimal data>`.
    pub fn get_value(&self, string_pool: &StringPool) -> (r: Result<String, ParseError>)
        ensures
            match r {
                Ok(s) => value_text(self.data_type, self.data, string_pool@) == Ok::<Seq<char>, ParseError>(s@),
                Err(x) => value_text(self.data_type, self.data, string_pool@) == Err::<Seq<char>, ParseError>(x),
            },
    {
        match self.data_type {
            ResourceValueType::String => string_pool.get_required(self.data),
            ResourceValueType::Dec => Ok(decimal_string(self.data)),
            ResourceValueType::Hex => {
                let mut s = String::from_str("0x");
                s.append(decimal_string(self.data).as_str());
                Ok(s)
            },
            ResourceValueType::Boolean => {
                if self.data == 0 {
                    Ok(String::from_str("false"))
                } else {
                    Ok(String::from_str("true"))
                }
            },
            t => {
                let mut s = String::from_str(t.name());
                s.append("/");
                s.append(decimal_string(self.data).as_str());
                Ok(s)
            },
        }
    }
}

} // verus!
