//! The pointer codec: one 64-bit word encodes a struct, list, far or
//! capability pointer.
//!
//! Bit layout of a pointer word (little-endian):
//! - bits `[0, 2)`: kind tag — 0 struct, 1 list, 2 far, 3 capability;
//! - struct: bits `[2, 32)` signed word offset (relative to the word after
//!   the pointer), `[32, 48)` data-section word count, `[48, 64)`
//!   pointer-section word count;
//! - list: bits `[2, 32)` signed offset, `[32, 35)` element-size tag,
//!   `[35, 64)` element count (for inline-composite lists, the total word
//!   count of the region instead);
//! - far: bit 2 double-indirection flag, bits `[3, 32)` unsigned word offset
//!   within the target segment, `[32, 64)` target segment id;
//! - capability: bits `[32, 64)` capability-table index.
//!
//! The all-zero word is the null pointer.

use vstd::prelude::*;

verus! {

/// Per-element storage granularity of a list.
#[derive(Clone, Copy, Debug, PartialEq, Eq, Structural)]
pub enum ElementSize {
    Void,
    Bit,
    Byte,
    TwoBytes,
    FourBytes,
    EightBytes,
    Pointer,
    InlineComposite,
}

impl ElementSize {
    /// The three-bit wire tag of this element size.
    pub open spec fn tag(self) -> u64 {
        match self {
            ElementSize::Void => 0,
            ElementSize::Bit => 1,
            ElementSize::Byte => 2,
            ElementSize::TwoBytes => 3,
            ElementSize::FourBytes => 4,
            ElementSize::EightBytes => 5,
            ElementSize::Pointer => 6,
            ElementSize::InlineComposite => 7,
        }
    }

    /// Storage bits occupied by one element. Pointer elements take a whole
    /// word; for inline-composite lists the stride is given by the tag word
    /// instead, so this is meaningful only for the other seven sizes.
    pub open spec fn bits_per_element(self) -> u64 {
        match self {
            ElementSize::Void => 0,
            ElementSize::Bit => 1,
            ElementSize::Byte => 8,
            ElementSize::TwoBytes => 16,
            ElementSize::FourBytes => 32,
            ElementSize::EightBytes => 64,
            ElementSize::Pointer => 64,
            ElementSize::InlineComposite => 64,
        }
    }

    /// The element size denoted by a three-bit wire tag.
    pub open spec fn from_tag(t: u64) -> ElementSize
        recommends
            t < 8,
    {
        if t == 0 {
            ElementSize::Void
        } else if t == 1 {
            ElementSize::Bit
        } else if t == 2 {
            ElementSize::Byte
        } else if t == 3 {
            ElementSize::TwoBytes
        } else if t == 4 {
            ElementSize::FourBytes
        } else if t == 5 {
            ElementSize::EightBytes
        } else if t == 6 {
            ElementSize::Pointer
        } else {
            ElementSize::InlineComposite
        }
    }

    /// Executable wire tag.
    pub fn tag_exec(self) -> (t: u64)
        ensures
            t == self.tag(),
            t < 8,
    {
        match self {
            ElementSize::Void => 0,
            ElementSize::Bit => 1,
            ElementSize::Byte => 2,
            ElementSize::TwoBytes => 3,
            ElementSize::FourBytes => 4,
            ElementSize::EightBytes => 5,
            ElementSize::Pointer => 6,
            ElementSize::InlineComposite => 7,
        }
    }

    /// Executable decoding of a wire tag.
    pub fn from_tag_exec(t: u64) -> (r: ElementSize)
        requires
            t < 8,
        ensures
            r == ElementSize::from_tag(t),
    {
        if t == 0 {
            ElementSize::Void
        } else if t == 1 {
            ElementSize::Bit
        } else if t == 2 {
            ElementSize::Byte
        } else if t == 3 {
            ElementSize::TwoBytes
        } else if t == 4 {
            ElementSize::FourBytes
        } else if t == 5 {
            ElementSize::EightBytes
        } else if t == 6 {
            ElementSize::Pointer
        } else {
            ElementSize::InlineComposite
        }
    }

    /// Executable bits-per-element.
    pub fn bits_per_element_exec(self) -> (b: u64)
        ensures
            b == self.bits_per_element(),
            b <= 64,
    {
        match self {
            ElementSize::Void => 0,
            ElementSize::Bit => 1,
            ElementSize::Byte => 8,
            ElementSize::TwoBytes => 16,
            ElementSize::FourBytes => 32,
            ElementSize::EightBytes => 64,
            ElementSize::Pointer => 64,
            ElementSize::InlineComposite => 64,
        }
    }
}

/// A decoded pointer word.
#[derive(Clone, Copy, Debug, PartialEq, Eq, Structural)]
pub enum WirePointer {
    /// The all-zero word: reads as an empty default of the expected kind.
    Null,
    /// Points at `data_size` data words followed by `ptr_size` pointer
    /// words, `offset` words past the word after the pointer.
    Struct { offset: i32, data_size: u16, ptr_size: u16 },
    /// Points at `count` elements of granularity `elem_size`, `offset`
    /// words past the word after the pointer. For inline-composite lists,
    /// `count` is the total word count of the region excluding its tag word.
    List { offset: i32, elem_size: ElementSize, count: u32 },
    /// The real pointer lives in another segment, at `offset` words into
    /// segment `segment_id`. When `double_far` is set, that location holds a
    /// second (single) far pointer to the content, followed by a tag word
    /// describing it.
    Far { double_far: bool, offset: u32, segment_id: u32 },
    /// An index into the message's capability table.
    Capability { index: u32 },
}

/// Largest magnitude of a signed 30-bit pointer offset.
pub const OFFSET_BOUND: u64 = 0x2000_0000;

/// Largest list element count / far-pointer offset: 29 bits.
pub const COUNT_BOUND: u64 = 0x2000_0000;

impl WirePointer {
    /// Field ranges that the wire layout can carry. The all-zero struct
    /// shape at offset zero is excluded: that bit pattern is the null
    /// pointer.
    pub open spec fn wf(self) -> bool {
        match self {
            WirePointer::Null => true,
            WirePointer::Struct { offset, data_size, ptr_size } => -(OFFSET_BOUND as int)
                <= offset < OFFSET_BOUND as int && !(offset == 0 && data_size == 0 && ptr_size
                == 0),
            WirePointer::List { offset, elem_size, count } => -(OFFSET_BOUND as int) <= offset
                < OFFSET_BOUND as int && count < COUNT_BOUND,
            WirePointer::Far { double_far, offset, segment_id } => offset < COUNT_BOUND,
            WirePointer::Capability { index } => true,
        }
    }
}

/// The 30-bit two's-complement field of a signed word offset.
pub open spec fn enc_offset(offset: i32) -> u64
    recommends
        -(OFFSET_BOUND as int) <= offset < OFFSET_BOUND as int,
{
    if offset >= 0 {
        offset as u64
    } else {
        (offset + 0x4000_0000) as u64
    }
}

/// The signed word offset denoted by a 30-bit field.
pub open spec fn dec_offset(raw: u64) -> i32
    recommends
        raw < 0x4000_0000,
{
    if raw < OFFSET_BOUND {
        raw as i32
    } else {
        (raw - 0x4000_0000) as i32
    }
}

/// The non-tag bits of a struct pointer word.
pub open spec fn struct_bits(e: u64, d: u16, s: u16) -> u64 {
    (e << 2u64) | ((d as u64) << 32u64) | ((s as u64) << 48u64)
}

/// A list pointer word.
pub open spec fn list_bits(e: u64, t: u64, c: u32) -> u64 {
    1u64 | (e << 2u64) | (t << 32u64) | ((c as u64) << 35u64)
}

/// A far pointer word.
pub open spec fn far_bits(dbl: bool, off: u32, seg: u32) -> u64 {
    2u64 | (if dbl {
        4u64
    } else {
        0u64
    }) | ((off as u64) << 3u64) | ((seg as u64) << 32u64)
}

/// A capability pointer word.
pub open spec fn cap_bits(ix: u32) -> u64 {
    3u64 | ((ix as u64) << 32u64)
}

/// The word encoding of a pointer.
pub open spec fn spec_encode(p: WirePointer) -> u64 {
    match p {
        WirePointer::Null => 0,
        WirePointer::Struct { offset, data_size, ptr_size } => struct_bits(
            enc_offset(offset),
            data_size,
            ptr_size,
        ),
        WirePointer::List { offset, elem_size, count } => list_bits(
            enc_offset(offset),
            elem_size.tag(),
            count,
        ),
        WirePointer::Far { double_far, offset, segment_id } => far_bits(
            double_far,
            offset,
            segment_id,
        ),
        WirePointer::Capability { index } => cap_bits(index),
    }
}

/// The pointer denoted by a word. Total: every bit pattern decodes.
pub open spec fn spec_decode(w: u64) -> WirePointer {
    if w == 0 {
        WirePointer::Null
    } else if w & 3 == 0 {
        WirePointer::Struct {
            offset: dec_offset((w >> 2u64) & 0x3fff_ffff),
            data_size: ((w >> 32u64) & 0xffff) as u16,
            ptr_size: ((w >> 48u64) & 0xffff) as u16,
        }
    } else if w & 3 == 1 {
        WirePointer::List {
            offset: dec_offset((w >> 2u64) & 0x3fff_ffff),
            elem_size: ElementSize::from_tag((w >> 32u64) & 7),
            count: ((w >> 35u64) & 0x1fff_ffff) as u32,
        }
    } else if w & 3 == 2 {
        WirePointer::Far {
            double_far: (w >> 2u64) & 1 == 1,
            offset: ((w >> 3u64) & 0x1fff_ffff) as u32,
            segment_id: ((w >> 32u64) & 0xffff_ffff) as u32,
        }
    } else {
        WirePointer::Capability { index: ((w >> 32u64) & 0xffff_ffff) as u32 }
    }
}

proof fn lemma_struct_bits(e: u64, d: u16, s: u16)
    by (bit_vector)
    requires
        e < 0x4000_0000,
    ensures
        struct_bits(e, d, s) & 3 == 0,
        (struct_bits(e, d, s) >> 2u64) & 0x3fff_ffff == e,
        (struct_bits(e, d, s) >> 32u64) & 0xffff == d,
        (struct_bits(e, d, s) >> 48u64) & 0xffff == s,
        struct_bits(e, d, s) == 0 <==> e == 0 && d == 0 && s == 0,
{
}

proof fn lemma_list_bits(e: u64, t: u64, c: u32)
    by (bit_vector)
    requires
        e < 0x4000_0000,
        t < 8,
        c < 0x2000_0000,
    ensures
        list_bits(e, t, c) & 3 == 1,
        list_bits(e, t, c) != 0,
        (list_bits(e, t, c) >> 2u64) & 0x3fff_ffff == e,
        (list_bits(e, t, c) >> 32u64) & 7 == t,
        (list_bits(e, t, c) >> 35u64) & 0x1fff_ffff == c,
{
}

proof fn lemma_far_bits(dbl: bool, off: u32, seg: u32)
    by (bit_vector)
    requires
        off < 0x2000_0000,
    ensures
        far_bits(dbl, off, seg) & 3 == 2,
        far_bits(dbl, off, seg) != 0,
        ((far_bits(dbl, off, seg) >> 2u64) & 1 == 1) == dbl,
        (far_bits(dbl, off, seg) >> 3u64) & 0x1fff_ffff == off,
        (far_bits(dbl, off, seg) >> 32u64) & 0xffff_ffff == seg,
{
}

proof fn lemma_cap_bits(ix: u32)
    by (bit_vector)
    ensures
        cap_bits(ix) & 3 == 3,
        cap_bits(ix) != 0,
        (cap_bits(ix) >> 32u64) & 0xffff_ffff == ix,
{
}

/// Encoding a well-formed pointer and decoding the word gives the pointer
/// back.
pub proof fn lemma_ptr_roundtrip(p: WirePointer)
    requires
        p.wf(),
    ensures
        spec_decode(spec_encode(p)) == p,
{
    match p {
        WirePointer::Null => {
        },
        WirePointer::Struct { offset, data_size, ptr_size } => {
            let e = enc_offset(offset);
            assert(e < 0x4000_0000);
            lemma_struct_bits(e, data_size, ptr_size);
            assert(e == 0 <==> offset == 0);
            assert(dec_offset(e) == offset);
        },
        WirePointer::List { offset, elem_size, count } => {
            let e = enc_offset(offset);
            assert(e < 0x4000_0000);
            lemma_list_bits(e, elem_size.tag(), count);
            assert(dec_offset(e) == offset);
            assert(ElementSize::from_tag(elem_size.tag()) == elem_size);
        },
        WirePointer::Far { double_far, offset, segment_id } => {
            lemma_far_bits(double_far, offset, segment_id);
        },
        WirePointer::Capability { index } => {
            lemma_cap_bits(index);
        },
    }
}

/// Ranges of the extracted pointer fields of an arbitrary word.
proof fn lemma_field_bounds(w: u64)
    by (bit_vector)
    ensures
        (w >> 2u64) & 0x3fff_ffff < 0x4000_0000,
        (w >> 35u64) & 0x1fff_ffff < 0x2000_0000,
        (w >> 3u64) & 0x1fff_ffff < 0x2000_0000,
        (w >> 32u64) & 7 < 8,
        (w >> 32u64) & 0xffff < 0x10000,
        (w >> 48u64) & 0xffff < 0x10000,
        (w >> 32u64) & 0xffff_ffff < 0x1_0000_0000,
        w != 0 && w & 3 == 0 ==> ((w >> 2u64) & 0x3fff_ffff != 0 || (w >> 32u64) & 0xffff != 0 || (
        w >> 48u64) & 0xffff != 0),
{
}

/// A 30-bit offset field decodes into the signed offset range, and only the
/// zero field decodes to offset zero.
proof fn lemma_dec_offset_range(raw: u64)
    requires
        raw < 0x4000_0000,
    ensures
        -(OFFSET_BOUND as int) <= dec_offset(raw) < OFFSET_BOUND as int,
        dec_offset(raw) == 0 <==> raw == 0,
{
    if raw < OFFSET_BOUND {
        assert(dec_offset(raw) == raw);
    } else {
        assert(dec_offset(raw) == raw - 0x4000_0000);
    }
}

/// Every word decodes to a well-formed pointer.
pub proof fn lemma_decode_wf(w: u64)
    ensures
        spec_decode(w).wf(),
{
    lemma_field_bounds(w);
    lemma_dec_offset_range((w >> 2u64) & 0x3fff_ffff);
}

/// Encodes a pointer as its word.
pub fn encode_pointer(p: WirePointer) -> (w: u64)
    requires
        p.wf(),
    ensures
        w == spec_encode(p),
        spec_decode(w) == p,
{
    proof {
        lemma_ptr_roundtrip(p);
    }
    match p {
        WirePointer::Null => 0,
        WirePointer::Struct { offset, data_size, ptr_size } => {
            let e = enc_offset_exec(offset);
            (e << 2u64) | ((data_size as u64) << 32u64) | ((ptr_size as u64) << 48u64)
        },
        WirePointer::List { offset, elem_size, count } => {
            let e = enc_offset_exec(offset);
            1u64 | (e << 2u64) | (elem_size.tag_exec() << 32u64) | ((count as u64) << 35u64)
        },
        WirePointer::Far { double_far, offset, segment_id } => {
            2u64 | (if double_far {
                4u64
            } else {
                0u64
            }) | ((offset as u64) << 3u64) | ((segment_id as u64) << 32u64)
        },
        WirePointer::Capability { index } => 3u64 | ((index as u64) << 32u64),
    }
}

/// Decodes a word as a pointer. Never fails: malformation is detected later,
/// against segment bounds.
pub fn decode_pointer(w: u64) -> (p: WirePointer)
    ensures
        p == spec_decode(w),
        p.wf(),
{
    proof {
        lemma_decode_wf(w);
        lemma_field_bounds(w);
    }
    if w == 0 {
        WirePointer::Null
    } else {
        let tag = w & 3;
        if tag == 0 {
            WirePointer::Struct {
                offset: dec_offset_exec((w >> 2u64) & 0x3fff_ffff),
                data_size: ((w >> 32u64) & 0xffff) as u16,
                ptr_size: ((w >> 48u64) & 0xffff) as u16,
            }
        } else if tag == 1 {
            WirePointer::List {
                offset: dec_offset_exec((w >> 2u64) & 0x3fff_ffff),
                elem_size: ElementSize::from_tag_exec((w >> 32u64) & 7),
                count: ((w >> 35u64) & 0x1fff_ffff) as u32,
            }
        } else if tag == 2 {
            WirePointer::Far {
                double_far: (w >> 2u64) & 1 == 1,
                offset: ((w >> 3u64) & 0x1fff_ffff) as u32,
                segment_id: ((w >> 32u64) & 0xffff_ffff) as u32,
            }
        } else {
            WirePointer::Capability { index: ((w >> 32u64) & 0xffff_ffff) as u32 }
        }
    }
}

/// Executable two's-complement encoding of a signed offset.
pub fn enc_offset_exec(offset: i32) -> (e: u64)
    requires
        -(OFFSET_BOUND as int) <= offset < OFFSET_BOUND as int,
    ensures
        e == enc_offset(offset),
        e < 0x4000_0000,
{
    if offset >= 0 {
        offset as u64
    } else {
        (offset + 0x4000_0000) as u64
    }
}

/// Executable decoding of a 30-bit two's-complement offset field.
pub fn dec_offset_exec(raw: u64) -> (offset: i32)
    requires
        raw < 0x4000_0000,
    ensures
        offset == dec_offset(raw),
{
    if raw < 0x2000_0000 {
        raw as i32
    } else {
        ((raw as i64) - 0x4000_0000) as i32
    }
}

} // verus!
