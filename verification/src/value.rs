//! NaN-boxed values.
//!
//! A value is a 64-bit word. The top 16 bits tag it; the low 48 bits carry a
//! heap address, a handle id, a 32-bit integer or up to five inline string
//! bytes. Words without a tag are IEEE-754 doubles.

use vstd::prelude::*;

verus! {

pub const TAG_UNDEFINED: u64 = 0x7FFC_0000_0000_0001;

pub const TAG_NULL: u64 = 0x7FFC_0000_0000_0002;

pub const TAG_FALSE: u64 = 0x7FFC_0000_0000_0003;

pub const TAG_TRUE: u64 = 0x7FFC_0000_0000_0004;

/// Selects the tag of a word.
pub const TAG_MASK: u64 = 0xFFFF_0000_0000_0000;

/// Selects the payload of a word.
pub const POINTER_MASK: u64 = 0x0000_FFFF_FFFF_FFFF;

pub const SHORT_STRING_TAG: u64 = 0x7FF9_0000_0000_0000;

pub const POINTER_TAG: u64 = 0x7FFD_0000_0000_0000;

pub const INT32_TAG: u64 = 0x7FFE_0000_0000_0000;

pub const STRING_TAG: u64 = 0x7FFF_0000_0000_0000;

/// Longest string that fits into the payload of a short string.
pub const SHORT_STRING_MAX_LEN: usize = 5;

/// Exclusive end of the addresses that a payload can hold.
pub const ADDRESS_END: u64 = 0x0001_0000_0000_0000;

pub open spec fn tagged(bits: u64, tag: u64) -> bool {
    bits & TAG_MASK == tag
}

pub open spec fn payload(bits: u64) -> usize {
    (bits & POINTER_MASK) as usize
}

pub open spec fn boxed(tag: u64, addr: usize) -> u64 {
    tag | (addr as u64 & POINTER_MASK)
}

/// Length field of a short string.
pub open spec fn short_len(bits: u64) -> int {
    let len = ((bits >> 40) & 0xFF) as int;
    if len <= SHORT_STRING_MAX_LEN {
        len
    } else {
        SHORT_STRING_MAX_LEN as int
    }
}

/// Byte `i` of the payload, lowest byte first.
pub open spec fn short_byte(bits: u64, i: int) -> u8 {
    if i == 0 {
        (bits & 0xFF) as u8
    } else if i == 1 {
        ((bits >> 8) & 0xFF) as u8
    } else if i == 2 {
        ((bits >> 16) & 0xFF) as u8
    } else if i == 3 {
        ((bits >> 24) & 0xFF) as u8
    } else {
        ((bits >> 32) & 0xFF) as u8
    }
}

/// The bytes of a short string.
pub open spec fn short_bytes(bits: u64) -> Seq<u8> {
    Seq::new(short_len(bits) as nat, |i: int| short_byte(bits, i))
}

/// A NaN-boxed value.
#[derive(Clone, Copy, PartialEq, Eq, Structural, Debug)]
pub struct JSValue {
    pub bits: u64,
}

impl JSValue {
    pub fn from_bits(bits: u64) -> (r: JSValue)
        ensures
            r.bits == bits,
    {
        JSValue { bits }
    }

    pub fn bits(self) -> (r: u64)
        ensures
            r == self.bits,
    {
        self.bits
    }

    pub fn undefined() -> (r: JSValue)
        ensures
            r.bits == TAG_UNDEFINED,
    {
        JSValue { bits: TAG_UNDEFINED }
    }

    /// Boxes a heap address or a handle id.
    pub fn pointer(addr: usize) -> (r: JSValue)
        ensures
            r.bits == boxed(POINTER_TAG, addr),
    {
        JSValue { bits: POINTER_TAG | (addr as u64 & POINTER_MASK) }
    }

    /// Boxes the address of a heap string.
    pub fn string(addr: usize) -> (r: JSValue)
        ensures
            r.bits == boxed(STRING_TAG, addr),
    {
        JSValue { bits: STRING_TAG | (addr as u64 & POINTER_MASK) }
    }

    pub fn is_pointer(self) -> (r: bool)
        ensures
            r == tagged(self.bits, POINTER_TAG),
    {
        self.bits & TAG_MASK == POINTER_TAG
    }

    /// Is this a heap string? Short strings are not.
    pub fn is_string(self) -> (r: bool)
        ensures
            r == tagged(self.bits, STRING_TAG),
    {
        self.bits & TAG_MASK == STRING_TAG
    }

    pub fn is_short_string(self) -> (r: bool)
        ensures
            r == tagged(self.bits, SHORT_STRING_TAG),
    {
        self.bits & TAG_MASK == SHORT_STRING_TAG
    }

    pub fn as_pointer(self) -> (r: usize)
        ensures
            r == payload(self.bits),
    {
        (self.bits & POINTER_MASK) as usize
    }

    /// The inline bytes of a short string.
    pub fn short_string_bytes(self) -> (r: Vec<u8>)
        ensures
            r@ == short_bytes(self.bits),
    {
        let bits = self.bits;
        let raw: u64 = (bits >> 40) & 0xFF;
        let len: usize = if raw <= SHORT_STRING_MAX_LEN as u64 {
            raw as usize
        } else {
            SHORT_STRING_MAX_LEN
        };
        let mut out: Vec<u8> = Vec::new();
        if len > 0 {
            out.push((bits & 0xFF) as u8);
        }
        if len > 1 {
            out.push(((bits >> 8) & 0xFF) as u8);
        }
        if len > 2 {
            out.push(((bits >> 16) & 0xFF) as u8);
        }
        if len > 3 {
            out.push(((bits >> 24) & 0xFF) as u8);
        }
        if len > 4 {
            out.push(((bits >> 32) & 0xFF) as u8);
        }
        assert(out@ =~= short_bytes(bits));
        out
    }

    /// Packs `bytes` into a short string; `None` when they do not fit.
    pub fn try_short_string(bytes: &[u8]) -> (r: Option<JSValue>)
        ensures
            r is Some <==> bytes@.len() <= SHORT_STRING_MAX_LEN,
            r matches Some(v) ==> tagged(v.bits, SHORT_STRING_TAG) && short_bytes(v.bits) == bytes@,
    {
        if bytes.len() > SHORT_STRING_MAX_LEN {
            return None;
        }
        let len: u64 = bytes.len() as u64;
        let b0: u64 = if len > 0 { bytes[0] as u64 } else { 0 };
        let b1: u64 = if len > 1 { bytes[1] as u64 } else { 0 };
        let b2: u64 = if len > 2 { bytes[2] as u64 } else { 0 };
        let b3: u64 = if len > 3 { bytes[3] as u64 } else { 0 };
        let b4: u64 = if len > 4 { bytes[4] as u64 } else { 0 };
        let bits: u64 = SHORT_STRING_TAG | (len << 40) | b0 | (b1 << 8) | (b2 << 16) | (b3 << 24) | (
        b4 << 32);
        proof {
            lemma_short_string_fields(bits, len, b0, b1, b2, b3, b4);
            assert(short_bytes(bits) =~= bytes@);
        }
        Some(JSValue { bits })
    }
}

proof fn lemma_short_string_fields(
    bits: u64,
    len: u64,
    b0: u64,
    b1: u64,
    b2: u64,
    b3: u64,
    b4: u64,
)
    requires
        len <= 5,
        b0 <= 255,
        b1 <= 255,
        b2 <= 255,
        b3 <= 255,
        b4 <= 255,
        bits == SHORT_STRING_TAG | (len << 40) | b0 | (b1 << 8) | (b2 << 16) | (b3 << 24) | (b4
            << 32),
    ensures
        bits & TAG_MASK == SHORT_STRING_TAG,
        (bits >> 40) & 0xFF == len,
        (bits & 0xFF) as u8 == b0,
        ((bits >> 8) & 0xFF) as u8 == b1,
        ((bits >> 16) & 0xFF) as u8 == b2,
        ((bits >> 24) & 0xFF) as u8 == b3,
        ((bits >> 32) & 0xFF) as u8 == b4,
{
    assert(bits & 0xFFFF_0000_0000_0000 == 0x7FF9_0000_0000_0000u64 && (bits >> 40) & 0xFF == len
        && bits & 0xFF == b0 && (bits >> 8) & 0xFF == b1 && (bits >> 16) & 0xFF == b2 && (bits
        >> 24) & 0xFF == b3 && (bits >> 32) & 0xFF == b4) by (bit_vector)
        requires
            len <= 5,
            b0 <= 255,
            b1 <= 255,
            b2 <= 255,
            b3 <= 255,
            b4 <= 255,
            bits == 0x7FF9_0000_0000_0000u64 | (len << 40) | b0 | (b1 << 8) | (b2 << 16) | (b3
                << 24) | (b4 << 32),
    ;
}

/// Boxing an address under a tag keeps both: the tag reads back, and so does
/// every address that fits the payload.
pub proof fn boxing_round_trips(tag: u64, addr: usize)
    requires
        tag & POINTER_MASK == 0,
        addr < ADDRESS_END,
    ensures
        tagged(boxed(tag, addr), tag),
        payload(boxed(tag, addr)) == addr,
{
    let a = addr as u64;
    assert((tag | (a & 0x0000_FFFF_FFFF_FFFF)) & 0xFFFF_0000_0000_0000 == tag && (tag | (a
        & 0x0000_FFFF_FFFF_FFFF)) & 0x0000_FFFF_FFFF_FFFF == a) by (bit_vector)
        requires
            tag & 0x0000_FFFF_FFFF_FFFFu64 == 0,
            a < 0x0001_0000_0000_0000u64,
    ;
}

/// The address of a heap string reads back from its box.
pub proof fn string_boxes_round_trip(addr: usize)
    requires
        addr < ADDRESS_END,
    ensures
        tagged(boxed(STRING_TAG, addr), STRING_TAG),
        payload(boxed(STRING_TAG, addr)) == addr,
{
    assert(0x7FFF_0000_0000_0000u64 & 0x0000_FFFF_FFFF_FFFF == 0) by (bit_vector);
    boxing_round_trips(STRING_TAG, addr);
}

/// The tags are apart: a word carries at most one of them, and undefined, null
/// and the booleans carry none of those for strings, numbers and references.
pub proof fn tags_are_apart(bits: u64, a: u64, b: u64)
    requires
        a == POINTER_TAG || a == STRING_TAG || a == SHORT_STRING_TAG || a == INT32_TAG,
        b == POINTER_TAG || b == STRING_TAG || b == SHORT_STRING_TAG || b == INT32_TAG || b
            == 0x7FFC_0000_0000_0000,
        tagged(bits, a),
        tagged(bits, b),
    ensures
        a == b,
        bits != TAG_UNDEFINED,
        bits != TAG_NULL,
        bits != TAG_FALSE,
        bits != TAG_TRUE,
        TAG_UNDEFINED != TAG_NULL,
        TAG_UNDEFINED != TAG_FALSE,
        TAG_UNDEFINED != TAG_TRUE,
        TAG_NULL != TAG_FALSE,
        TAG_NULL != TAG_TRUE,
        TAG_FALSE != TAG_TRUE,
{
    assert(0x7FFC_0000_0000_0001u64 & 0xFFFF_0000_0000_0000u64 == 0x7FFC_0000_0000_0000u64
        && 0x7FFC_0000_0000_0002u64 & 0xFFFF_0000_0000_0000u64 == 0x7FFC_0000_0000_0000u64
        && 0x7FFC_0000_0000_0003u64 & 0xFFFF_0000_0000_0000u64 == 0x7FFC_0000_0000_0000u64
        && 0x7FFC_0000_0000_0004u64 & 0xFFFF_0000_0000_0000u64 == 0x7FFC_0000_0000_0000u64)
        by (bit_vector);
}

/// The words that compiled code knows: the tags are in the upper sixteen bits,
/// the payload in the others, and a boxed address is the sum of both.
pub proof fn words_split_into_tag_and_payload(bits: u64, addr: usize)
    requires
        addr < 0x0001_0000_0000_0000,
    ensures
        tagged(bits, POINTER_TAG) <==> bits / 0x0001_0000_0000_0000 == 0x7FFD,
        tagged(bits, STRING_TAG) <==> bits / 0x0001_0000_0000_0000 == 0x7FFF,
        tagged(bits, SHORT_STRING_TAG) <==> bits / 0x0001_0000_0000_0000 == 0x7FF9,
        tagged(bits, INT32_TAG) <==> bits / 0x0001_0000_0000_0000 == 0x7FFE,
        bits % 0x0001_0000_0000_0000 <= usize::MAX ==> payload(bits) == bits
            % 0x0001_0000_0000_0000,
        boxed(POINTER_TAG, addr) == 0x7FFD_0000_0000_0000 + addr,
        boxed(STRING_TAG, addr) == 0x7FFF_0000_0000_0000 + addr,
{
    let w = addr as u64;
    assert((bits & 0xFFFF_0000_0000_0000u64 == 0x7FFD_0000_0000_0000u64) == (bits
        / 0x0001_0000_0000_0000u64 == 0x7FFD) && (bits & 0xFFFF_0000_0000_0000u64
        == 0x7FFF_0000_0000_0000u64) == (bits / 0x0001_0000_0000_0000u64 == 0x7FFF) && (bits
        & 0xFFFF_0000_0000_0000u64 == 0x7FF9_0000_0000_0000u64) == (bits
        / 0x0001_0000_0000_0000u64 == 0x7FF9) && (bits & 0xFFFF_0000_0000_0000u64
        == 0x7FFE_0000_0000_0000u64) == (bits / 0x0001_0000_0000_0000u64 == 0x7FFE) && bits
        & 0x0000_FFFF_FFFF_FFFFu64 == bits % 0x0001_0000_0000_0000u64) by (bit_vector);
    assert((0x7FFD_0000_0000_0000u64 | (w & 0x0000_FFFF_FFFF_FFFFu64)) == 0x7FFD_0000_0000_0000u64
        + w && (0x7FFF_0000_0000_0000u64 | (w & 0x0000_FFFF_FFFF_FFFFu64))
        == 0x7FFF_0000_0000_0000u64 + w) by (bit_vector)
        requires
            w < 0x0001_0000_0000_0000u64,
    ;
}

/// A short string has at most five bytes. Their number is in the sixth byte of
/// the word, and the bytes are in the five below it, the first one lowest.
pub proof fn short_strings_are_packed_from_below(bits: u64, i: int)
    ensures
        short_bytes(bits).len() <= 5,
        bits / 0x0100_0000_0000 % 256 <= 5 ==> short_bytes(bits).len() == bits / 0x0100_0000_0000
            % 256,
        bits / 0x0100_0000_0000 % 256 > 5 ==> short_bytes(bits).len() == 5,
        0 <= i < short_bytes(bits).len() ==> short_bytes(bits)[i] == bits / (if i == 0 {
            1u64
        } else if i == 1 {
            0x100
        } else if i == 2 {
            0x1_0000
        } else if i == 3 {
            0x100_0000
        } else {
            0x1_0000_0000
        }) % 256,
{
    assert((bits >> 40) & 0xFF == bits / 0x0100_0000_0000u64 % 256 && bits & 0xFF == bits % 256
        && (bits >> 8) & 0xFF == bits / 0x100u64 % 256 && (bits >> 16) & 0xFF == bits
        / 0x1_0000u64 % 256 && (bits >> 24) & 0xFF == bits / 0x100_0000u64 % 256 && (bits >> 32)
        & 0xFF == bits / 0x1_0000_0000u64 % 256) by (bit_vector);
}

} // verus!
