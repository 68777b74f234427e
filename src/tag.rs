//! The single-byte type discriminators that open every value on the wire.
use vstd::prelude::*;

verus! {

/// The kind of a value, as its leading byte names it.
#[derive(Debug, Clone, Copy, PartialEq, Eq, Structural)]
pub enum Tag {
    Array,
    Object,
    String,
    Int8,
    Int16,
    Int32,
    Int64,
    Real,
    True,
    False,
    Null,
    Templated,
    Missing,
}

/// The byte that stands for `t` on the wire.
pub open spec fn tag_byte(t: Tag) -> u8 {
    match t {
        Tag::Array => 0x00,
        Tag::Object => 0x01,
        Tag::String => 0x02,
        Tag::Int8 => 0x03,
        Tag::Int16 => 0x04,
        Tag::Int32 => 0x05,
        Tag::Int64 => 0x06,
        Tag::Real => 0x07,
        Tag::True => 0x08,
        Tag::False => 0x09,
        Tag::Null => 0x0a,
        Tag::Templated => 0x0b,
        Tag::Missing => 0x0c,
    }
}

/// The tag that byte `b` stands for; bytes above 0x0c stand for none.
pub open spec fn tag_of(b: u8) -> Option<Tag> {
    if b == 0x00 {
        Some(Tag::Array)
    } else if b == 0x01 {
        Some(Tag::Object)
    } else if b == 0x02 {
        Some(Tag::String)
    } else if b == 0x03 {
        Some(Tag::Int8)
    } else if b == 0x04 {
        Some(Tag::Int16)
    } else if b == 0x05 {
        Some(Tag::Int32)
    } else if b == 0x06 {
        Some(Tag::Int64)
    } else if b == 0x07 {
        Some(Tag::Real)
    } else if b == 0x08 {
        Some(Tag::True)
    } else if b == 0x09 {
        Some(Tag::False)
    } else if b == 0x0a {
        Some(Tag::Null)
    } else if b == 0x0b {
        Some(Tag::Templated)
    } else if b == 0x0c {
        Some(Tag::Missing)
    } else {
        None
    }
}

/// Whether `b` is the leading byte of some value.
pub open spec fn is_tag_byte(b: u8) -> bool {
    b <= 0x0c
}

/// The payload width of the fixed-width integer tags.
pub open spec fn int_width(t: Tag) -> nat {
    match t {
        Tag::Int8 => 1,
        Tag::Int16 => 2,
        Tag::Int32 => 4,
        Tag::Int64 => 8,
        _ => 0,
    }
}

pub open spec fn is_int_tag(t: Tag) -> bool {
    t == Tag::Int8 || t == Tag::Int16 || t == Tag::Int32 || t == Tag::Int64
}

pub proof fn lemma_tag_byte_round_trip(t: Tag)
    ensures
        tag_of(tag_byte(t)) == Some(t),
        is_tag_byte(tag_byte(t)),
{
}

impl Tag {
    /// The byte that stands for this tag.
    pub fn to_byte(self) -> (r: u8)
        ensures
            r == tag_byte(self),
    {
        match self {
            Tag::Array => 0x00,
            Tag::Object => 0x01,
            Tag::String => 0x02,
            Tag::Int8 => 0x03,
            Tag::Int16 => 0x04,
            Tag::Int32 => 0x05,
            Tag::Int64 => 0x06,
            Tag::Real => 0x07,
            Tag::True => 0x08,
            Tag::False => 0x09,
            Tag::Null => 0x0a,
            Tag::Templated => 0x0b,
            Tag::Missing => 0x0c,
        }
    }

    /// The tag that `b` stands for, if any.
    pub fn from_byte(b: u8) -> (r: Option<Tag>)
        ensures
            r == tag_of(b),
    {
        match b {
            0x00 => Some(Tag::Array),
            0x01 => Some(Tag::Object),
            0x02 => Some(Tag::String),
            0x03 => Some(Tag::Int8),
            0x04 => Some(Tag::Int16),
            0x05 => Some(Tag::Int32),
            0x06 => Some(Tag::Int64),
            0x07 => Some(Tag::Real),
            0x08 => Some(Tag::True),
            0x09 => Some(Tag::False),
            0x0a => Some(Tag::Null),
            0x0b => Some(Tag::Templated),
            0x0c => Some(Tag::Missing),
            _ => None,
        }
    }
}

} // verus!
