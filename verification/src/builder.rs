//! Builder views: typed write cursors over a builder arena.
//!
//! The encoding side of the pointer codec: given a requested struct or list
//! shape, allocate zeroed words, write the content, and write a pointer word
//! at the caller's slot. When slot and target land in different segments,
//! the pointer goes through a far-pointer landing pad allocated in the
//! target's segment, or — when that segment has no room left — through a
//! doubly-indirected pad elsewhere. Every pointer written here is proved to
//! resolve, through the read path's resolution semantics, to exactly the
//! intended target.

use vstd::prelude::*;
use crate::arena::BuilderArena;
use crate::bits;
use crate::ptr::ElementSize;
use crate::ptr::WirePointer;
use crate::ptr::encode_pointer;
use crate::layout::resolved_target;

verus! {

/// The requested shape of a pointer target: what the pointer word will
/// declare about it.
#[derive(Clone, Copy, Debug, PartialEq, Eq, Structural)]
pub enum PtrShape {
    StructShape { data_size: u16, ptr_size: u16 },
    ListShape { elem_size: ElementSize, count: u32 },
}

impl PtrShape {
    /// Shapes the writer supports: a struct of at least one word (the
    /// zero-word struct is spelled as a null pointer instead), or a list
    /// whose count fits its wire field. For an inline-composite list the
    /// count is the content's word count, tag word excluded.
    pub open spec fn wf(self) -> bool {
        match self {
            PtrShape::StructShape { data_size, ptr_size } => 1 <= data_size + ptr_size,
            PtrShape::ListShape { elem_size, count } => count < 0x2000_0000,
        }
    }

    /// Words of target storage the shape occupies; an inline-composite
    /// list's target begins with its tag word.
    pub open spec fn words(self) -> int {
        match self {
            PtrShape::StructShape { data_size, ptr_size } => data_size + ptr_size,
            PtrShape::ListShape { elem_size, count } => if elem_size is InlineComposite {
                count + 1
            } else {
                (count * elem_size.bits_per_element() + 63) / 64
            },
        }
    }

    /// The pointer of this shape with a given offset field.
    pub open spec fn ptr(self, offset: i32) -> WirePointer {
        match self {
            PtrShape::StructShape { data_size, ptr_size } => WirePointer::Struct {
                offset,
                data_size,
                ptr_size,
            },
            PtrShape::ListShape { elem_size, count } => WirePointer::List {
                offset,
                elem_size,
                count,
            },
        }
    }

    /// Whether a decoded pointer declares this shape (its offset aside).
    pub open spec fn matches(self, p: WirePointer) -> bool {
        match self {
            PtrShape::StructShape { data_size, ptr_size } => p == (WirePointer::Struct {
                offset: ptr_offset_of(p),
                data_size,
                ptr_size,
            }),
            PtrShape::ListShape { elem_size, count } => p == (WirePointer::List {
                offset: ptr_offset_of(p),
                elem_size,
                count,
            }),
        }
    }

    /// Executable target word count.
    pub fn words_exec(self) -> (r: u64)
        requires
            self.wf(),
        ensures
            r == self.words(),
    {
        match self {
            PtrShape::StructShape { data_size, ptr_size } => (data_size as u64) + (ptr_size as u64),
            PtrShape::ListShape { elem_size, count } => {
                if let ElementSize::InlineComposite = elem_size {
                    count as u64 + 1
                } else {
                    let bits_per = elem_size.bits_per_element_exec();
                    ((count as u64) * bits_per + 63) / 64
                }
            },
        }
    }
}

/// The offset field of a direct pointer, as an executable-width value.
pub open spec fn ptr_offset_of(p: WirePointer) -> i32 {
    match p {
        WirePointer::Struct { offset, .. } => offset,
        WirePointer::List { offset, .. } => offset,
        _ => 0,
    }
}

/// Writes the pointer word for a target already allocated at
/// `(target_seg, target_off)` into the already-allocated slot at
/// `(ptr_seg, ptr_off)`, inserting far-pointer indirection whenever the two
/// segments differ. Afterwards the slot resolves, by the read path's
/// semantics, to exactly the intended target.
#[verifier::rlimit(100)]
pub fn write_ptr_to(
    a: &mut BuilderArena,
    ptr_seg: u32,
    ptr_off: u64,
    target_seg: u32,
    target_off: u64,
    shape: PtrShape,
)
    requires
        old(a).wf(),
        ptr_seg < old(a).segs().len(),
        target_seg < old(a).segs().len(),
        ptr_off < old(a).fill@[ptr_seg as int],
        target_off + shape.words() <= old(a).fill@[target_seg as int],
        shape.wf(),
        old(a).segs().len() < 0xffff_ffff,
    ensures
        final(a).wf(),
        final(a).cap_table@ == old(a).cap_table@,
        old(a).segs().len() <= final(a).segs().len(),
        forall|s: int|
            0 <= s < old(a).segs().len() ==> final(a).fill@[s] >= (#[trigger] old(a).fill@[s]),
        forall|s: int|
            0 <= s < old(a).segs().len() ==> (#[trigger] final(a).segs()[s]).len() == old(
                a,
            ).segs()[s].len(),
        forall|s: int, j: int|
            0 <= s < old(a).segs().len() && 0 <= j < old(a).segs()[s].len() && !(s == ptr_seg
                && j == ptr_off) && !(old(a).fill@[s] <= j) ==> (#[trigger] final(a).segs()[s][j])
                == old(a).segs()[s][j],
        resolved_target(final(a).segs(), ptr_seg as int, ptr_off as int) is Some,
        ({
            let t = resolved_target(final(a).segs(), ptr_seg as int, ptr_off as int).unwrap();
            t.0 == target_seg as int && t.1 == target_off as int && shape.matches(t.2)
        }),
        resolved_target(final(a).filled(), ptr_seg as int, ptr_off as int) == resolved_target(
            final(a).segs(),
            ptr_seg as int,
            ptr_off as int,
        ),
{
    proof {
        assert(old(a).segs()[ptr_seg as int].len() <= crate::arena::MAX_SEGMENT_WORDS);
        assert(old(a).segs()[target_seg as int].len() <= crate::arena::MAX_SEGMENT_WORDS);
        assert(old(a).fill@[ptr_seg as int] <= old(a).segs()[ptr_seg as int].len());
        assert(old(a).fill@[target_seg as int] <= old(a).segs()[target_seg as int].len());
        assert(ptr_off < 0x2000_0000);
        assert(target_off + shape.words() <= 0x2000_0000);
    }
    if ptr_seg == target_seg {
        let offset: i64 = (target_off as i64) - (ptr_off as i64) - 1;
        let w = encode_pointer(shape_ptr_exec(shape, offset as i32));
        a.set_word(ptr_seg, ptr_off, w);
        proof {
            assert(a.filled()[ptr_seg as int][ptr_off as int] == a.segs()[ptr_seg as int][
                ptr_off as int]);
        }
        return ;
    }
    match a.allocate_in(target_seg, 1) {
        Some(pad_off) => {
            let offset: i64 = (target_off as i64) - (pad_off as i64) - 1;
            let wl = encode_pointer(shape_ptr_exec(shape, offset as i32));
            a.set_word(target_seg, pad_off, wl);
            let wfar = encode_pointer(
                WirePointer::Far { double_far: false, offset: pad_off as u32, segment_id:
                    target_seg },
            );
            a.set_word(ptr_seg, ptr_off, wfar);
            proof {
                assert(a.filled()[ptr_seg as int][ptr_off as int] == a.segs()[ptr_seg as int][
                    ptr_off as int]);
                assert(a.filled()[target_seg as int].len() == a.fill@[target_seg as int]);
                assert(pad_off + 1 <= a.fill@[target_seg as int]);
                assert(a.filled()[target_seg as int][pad_off as int] == a.segs()[
                    target_seg as int][pad_off as int]);
            }
        },
        None => {
            let (fseg, foff) = a.allocate(2);
            let wpad = encode_pointer(
                WirePointer::Far { double_far: false, offset: target_off as u32, segment_id:
                    target_seg },
            );
            a.set_word(fseg, foff, wpad);
            let wtag = encode_pointer(shape_ptr_exec(shape, 0));
            a.set_word(fseg, foff + 1, wtag);
            let wfar = encode_pointer(
                WirePointer::Far { double_far: true, offset: foff as u32, segment_id: fseg },
            );
            a.set_word(ptr_seg, ptr_off, wfar);
            proof {
                assert(a.filled()[ptr_seg as int][ptr_off as int] == a.segs()[ptr_seg as int][
                    ptr_off as int]);
                assert(a.filled()[fseg as int].len() == a.fill@[fseg as int]);
                assert(foff + 2 <= a.fill@[fseg as int]);
                assert(a.filled()[fseg as int][foff as int] == a.segs()[fseg as int][
                    foff as int]);
                assert(a.filled()[fseg as int][foff as int + 1] == a.segs()[fseg as int][
                    foff as int + 1]);
            }
        },
    }
}

/// Executable construction of a shape's pointer.
pub fn shape_ptr_exec(shape: PtrShape, offset: i32) -> (p: WirePointer)
    requires
        shape.wf(),
        -0x2000_0000 <= offset < 0x2000_0000,
    ensures
        p == shape.ptr(offset),
        p.wf(),
        shape.matches(p),
        crate::layout::ptr_offset(p) == offset as int,
{
    match shape {
        PtrShape::StructShape { data_size, ptr_size } => WirePointer::Struct {
            offset,
            data_size,
            ptr_size,
        },
        PtrShape::ListShape { elem_size, count } => WirePointer::List {
            offset,
            elem_size,
            count,
        },
    }
}

} // verus!

verus! {

/// A typed write cursor over one allocated struct: `data_size` data words at
/// `data_start`, followed by `ptr_size` pointer words, all inside one
/// builder-arena segment.
#[derive(Clone, Copy, Debug, PartialEq, Eq, Structural)]
pub struct StructBuilder {
    pub segment: u32,
    pub data_start: u64,
    pub data_size: u16,
    pub ptr_size: u16,
}

impl StructBuilder {
    /// The builder's whole extent lies inside the allocated part of its
    /// segment.
    pub open spec fn wf(self, a: BuilderArena) -> bool {
        &&& (self.segment as int) < a.segs().len()
        &&& self.data_start + self.data_size + self.ptr_size <= a.fill@[self.segment as int]
    }

    /// Word index of pointer slot `index`.
    pub open spec fn slot(self, index: int) -> int {
        self.data_start + self.data_size + index
    }

    /// Writes 64-bit field `index`, masked against its declared default: the
    /// stored bits are `value ^ default`, so storing the default stores zero.
    pub fn set_data_u64(&self, a: &mut BuilderArena, index: u64, value: u64, default: u64)
        requires
            old(a).wf(),
            self.wf(*old(a)),
            index < self.data_size,
        ensures
            final(a).wf(),
            self.wf(*final(a)),
            final(a).fill@ == old(a).fill@,
            final(a).cap_table@ == old(a).cap_table@,
            final(a).segs().len() == old(a).segs().len(),
            forall|s: int|
                0 <= s < old(a).segs().len() && s != self.segment ==> final(a).segs()[s] == old(
                    a,
                ).segs()[s],
            final(a).segs()[self.segment as int] == old(a).segs()[self.segment as int].update(
                (self.data_start + index) as int,
                (value ^ default),
            ),
    {
        a.set_word(self.segment, self.data_start + index, value ^ default);
    }

    /// Writes 32-bit field `index` (two per data word), masked against its
    /// declared default.
    pub fn set_data_u32(&self, a: &mut BuilderArena, index: u64, value: u32, default: u32)
        requires
            old(a).wf(),
            self.wf(*old(a)),
            index < 2 * (self.data_size as u64),
        ensures
            final(a).wf(),
            self.wf(*final(a)),
            final(a).fill@ == old(a).fill@,
            final(a).cap_table@ == old(a).cap_table@,
            final(a).segs().len() == old(a).segs().len(),
            forall|s: int|
                0 <= s < old(a).segs().len() && s != self.segment ==> final(a).segs()[s] == old(
                    a,
                ).segs()[s],
            final(a).segs()[self.segment as int] == old(a).segs()[self.segment as int].update(
                (self.data_start + index / 2) as int,
                bits::with_u32(
                    old(a).segs()[self.segment as int][(self.data_start + index / 2) as int],
                    index % 2,
                    (value ^ default),
                ),
            ),
            bits::u32_of_word(
                final(a).segs()[self.segment as int][(self.data_start + index / 2) as int],
                index % 2,
            ) == (value ^ default),
    {
        let wi = self.data_start + index / 2;
        let w = a.get_word(self.segment, wi);
        let neww = bits::set_u32_of_word(w, index % 2, value ^ default);
        a.set_word(self.segment, wi, neww);
        proof {
            bits::lemma_with_u32(w, index % 2, (value ^ default), index % 2);
        }
    }

    /// Writes 16-bit field `index` (four per data word), masked against its
    /// declared default.
    pub fn set_data_u16(&self, a: &mut BuilderArena, index: u64, value: u16, default: u16)
        requires
            old(a).wf(),
            self.wf(*old(a)),
            index < 4 * (self.data_size as u64),
        ensures
            final(a).wf(),
            self.wf(*final(a)),
            final(a).fill@ == old(a).fill@,
            final(a).cap_table@ == old(a).cap_table@,
            final(a).segs().len() == old(a).segs().len(),
            forall|s: int|
                0 <= s < old(a).segs().len() && s != self.segment ==> final(a).segs()[s] == old(
                    a,
                ).segs()[s],
            final(a).segs()[self.segment as int] == old(a).segs()[self.segment as int].update(
                (self.data_start + index / 4) as int,
                bits::with_u16(
                    old(a).segs()[self.segment as int][(self.data_start + index / 4) as int],
                    index % 4,
                    (value ^ default),
                ),
            ),
            bits::u16_of_word(
                final(a).segs()[self.segment as int][(self.data_start + index / 4) as int],
                index % 4,
            ) == (value ^ default),
    {
        let wi = self.data_start + index / 4;
        let w = a.get_word(self.segment, wi);
        let neww = bits::set_u16_of_word(w, index % 4, value ^ default);
        a.set_word(self.segment, wi, neww);
        proof {
            bits::lemma_with_u16(w, index % 4, (value ^ default), index % 4);
        }
    }

    /// Writes byte field `index` (eight per data word), masked against its
    /// declared default.
    pub fn set_data_u8(&self, a: &mut BuilderArena, index: u64, value: u8, default: u8)
        requires
            old(a).wf(),
            self.wf(*old(a)),
            index < 8 * (self.data_size as u64),
        ensures
            final(a).wf(),
            self.wf(*final(a)),
            final(a).fill@ == old(a).fill@,
            final(a).cap_table@ == old(a).cap_table@,
            final(a).segs().len() == old(a).segs().len(),
            forall|s: int|
                0 <= s < old(a).segs().len() && s != self.segment ==> final(a).segs()[s] == old(
                    a,
                ).segs()[s],
            final(a).segs()[self.segment as int] == old(a).segs()[self.segment as int].update(
                (self.data_start + index / 8) as int,
                bits::with_byte(
                    old(a).segs()[self.segment as int][(self.data_start + index / 8) as int],
                    index % 8,
                    (value ^ default),
                ),
            ),
            bits::byte_of_word(
                final(a).segs()[self.segment as int][(self.data_start + index / 8) as int],
                index % 8,
            ) == (value ^ default),
    {
        let wi = self.data_start + index / 8;
        let w = a.get_word(self.segment, wi);
        let neww = bits::set_byte_of_word(w, index % 8, value ^ default);
        a.set_word(self.segment, wi, neww);
        proof {
            bits::lemma_with_byte(w, index % 8, (value ^ default), index % 8);
        }
    }

    /// Writes boolean field `index` (sixty-four per data word), masked
    /// against its declared default: the stored bit is `value != default`.
    pub fn set_data_bool(&self, a: &mut BuilderArena, index: u64, value: bool, default: bool)
        requires
            old(a).wf(),
            self.wf(*old(a)),
            index < 64 * (self.data_size as u64),
        ensures
            final(a).wf(),
            self.wf(*final(a)),
            final(a).fill@ == old(a).fill@,
            final(a).cap_table@ == old(a).cap_table@,
            final(a).segs().len() == old(a).segs().len(),
            forall|s: int|
                0 <= s < old(a).segs().len() && s != self.segment ==> final(a).segs()[s] == old(
                    a,
                ).segs()[s],
            final(a).segs()[self.segment as int] == old(a).segs()[self.segment as int].update(
                (self.data_start + index / 64) as int,
                bits::with_bit(
                    old(a).segs()[self.segment as int][(self.data_start + index / 64) as int],
                    index % 64,
                    (value != default),
                ),
            ),
            bits::bit_of_word(
                final(a).segs()[self.segment as int][(self.data_start + index / 64) as int],
                index % 64,
            ) == (value != default),
    {
        let wi = self.data_start + index / 64;
        let w = a.get_word(self.segment, wi);
        let neww = bits::set_bit_of_word(w, index % 64, value != default);
        a.set_word(self.segment, wi, neww);
        proof {
            bits::lemma_with_bit(w, index % 64, (value != default), index % 64);
        }
    }

    /// Writes pointer slot `index` as a capability reference, registering
    /// the handle in the capability table and storing its new index.
    pub fn set_capability_field(&self, a: &mut BuilderArena, index: u16, handle: u64) -> (cap_index:
        u32)
        requires
            old(a).wf(),
            self.wf(*old(a)),
            index < self.ptr_size,
            old(a).cap_table@.len() < 0xffff_ffff,
        ensures
            final(a).wf(),
            self.wf(*final(a)),
            final(a).fill@ == old(a).fill@,
            final(a).cap_table@ == old(a).cap_table@.push(handle),
            cap_index == old(a).cap_table@.len(),
            final(a).segs().len() == old(a).segs().len(),
            forall|s: int|
                0 <= s < old(a).segs().len() && s != self.segment ==> final(a).segs()[s] == old(
                    a,
                ).segs()[s],
            final(a).segs()[self.segment as int] == old(a).segs()[self.segment as int].update(
                self.slot(index as int),
                crate::ptr::spec_encode(WirePointer::Capability { index: cap_index }),
            ),
            crate::ptr::spec_decode(
                final(a).segs()[self.segment as int][self.slot(index as int)],
            ) == (WirePointer::Capability { index: cap_index }),
    {
        let cap_index = a.add_capability(handle);
        let w = encode_pointer(WirePointer::Capability { index: cap_index });
        a.set_word(self.segment, self.data_start + self.data_size as u64 + index as u64, w);
        cap_index
    }
}

} // verus!

verus! {

/// Byte `i` of the byte region rooted at word `start` of segment `seg`.
pub open spec fn seg_byte(segs: Seq<Seq<u64>>, seg: int, start: int, i: int) -> u8 {
    bits::byte_of_word(segs[seg][start + i / 8], ((i % 8) as u64))
}

/// Writes `bytes` into the zeroed words starting at `(seg, start)`, little-
/// endian within each word; every byte position past `bytes` in the touched
/// words stays zero.
pub fn write_bytes_into(a: &mut BuilderArena, seg: u32, start: u64, bytes: &[u8])
    requires
        old(a).wf(),
        seg < old(a).segs().len(),
        start + (bytes@.len() + 7) / 8 <= old(a).fill@[seg as int],
        forall|j: int|
            start <= j < start + (bytes@.len() + 7) / 8 ==> old(a).segs()[seg as int][j] == 0,
        bytes@.len() < 0x2000_0000,
    ensures
        final(a).wf(),
        final(a).fill@ == old(a).fill@,
        final(a).cap_table@ == old(a).cap_table@,
        final(a).next_size == old(a).next_size,
        final(a).segs().len() == old(a).segs().len(),
        forall|s: int|
            0 <= s < old(a).segs().len() && s != seg ==> final(a).segs()[s] == old(a).segs()[s],
        final(a).segs()[seg as int].len() == old(a).segs()[seg as int].len(),
        forall|j: int|
            0 <= j < old(a).segs()[seg as int].len() && !(start <= j < start + (bytes@.len() + 7)
                / 8) ==> final(a).segs()[seg as int][j] == old(a).segs()[seg as int][j],
        forall|i: int|
            0 <= i < 8 * ((bytes@.len() + 7) / 8) ==> #[trigger] seg_byte(
                final(a).segs(),
                seg as int,
                start as int,
                i,
            ) == (if i < bytes@.len() {
                bytes@[i]
            } else {
                0
            }),
{
    let ghost w_count: int = ((bytes@.len() + 7) / 8) as int;
    proof {
        assert forall|i: int| 0 <= i < 8 * w_count implies #[trigger] seg_byte(
            old(a).segs(),
            seg as int,
            start as int,
            i,
        ) == 0 by {
            assert(start <= start + i / 8 < start + w_count);
            bits::lemma_zero_word_lanes(((i % 8) as u64));
        }
    }
    let mut k: usize = 0;
    while k < bytes.len()
        invariant
            a.wf(),
            seg < a.segs().len(),
            w_count == ((bytes@.len() + 7) / 8) as int,
            start + w_count <= a.fill@[seg as int],
            bytes@.len() < 0x2000_0000,
            k <= bytes@.len(),
            a.fill@ == old(a).fill@,
            a.cap_table@ == old(a).cap_table@,
            a.next_size == old(a).next_size,
            a.segs().len() == old(a).segs().len(),
            forall|s: int|
                0 <= s < old(a).segs().len() && s != seg ==> a.segs()[s] == old(a).segs()[s],
            a.segs()[seg as int].len() == old(a).segs()[seg as int].len(),
            forall|j: int|
                0 <= j < old(a).segs()[seg as int].len() && !(start <= j < start + w_count)
                    ==> a.segs()[seg as int][j] == old(a).segs()[seg as int][j],
            forall|i: int|
                0 <= i < 8 * w_count ==> #[trigger] seg_byte(a.segs(), seg as int, start as int, i)
                    == (if i < k {
                    bytes@[i]
                } else {
                    0
                }),
        decreases bytes@.len() - k,
    {
        let wi = start + (k as u64) / 8;
        proof {
            assert((k as int) / 8 < w_count);
            assert(seg_byte(a.segs(), seg as int, start as int, k as int) == 0);
        }
        let w = a.get_word(seg, wi);
        let neww = bits::set_byte_of_word(w, (k as u64) % 8, bytes[k]);
        let ghost pre = *a;
        a.set_word(seg, wi, neww);
        proof {
            assert forall|i: int| 0 <= i < 8 * w_count implies #[trigger] seg_byte(
                a.segs(),
                seg as int,
                start as int,
                i,
            ) == (if i < k + 1 {
                bytes@[i]
            } else {
                0
            }) by {
                if start + i / 8 == wi {
                    assert(i / 8 == k as int / 8);
                    assert(a.segs()[seg as int][start + i / 8] == neww);
                    bits::lemma_with_byte(w, (k as u64) % 8, bytes@[k as int], ((i % 8) as u64));
                    if i == k {
                        assert(seg_byte(a.segs(), seg as int, start as int, i) == bytes@[i]);
                    } else {
                        assert(i % 8 != k as int % 8);
                        assert(seg_byte(a.segs(), seg as int, start as int, i) == bits::byte_of_word(
                            w,
                            ((i % 8) as u64),
                        ));
                        assert(bits::byte_of_word(w, ((i % 8) as u64)) == seg_byte(
                            pre.segs(),
                            seg as int,
                            start as int,
                            i,
                        ));
                    }
                } else {
                    assert(a.segs()[seg as int][start + i / 8] == pre.segs()[seg as int][start + i
                        / 8]);
                    assert(seg_byte(a.segs(), seg as int, start as int, i) == seg_byte(
                        pre.segs(),
                        seg as int,
                        start as int,
                        i,
                    ));
                }
            }
        }
        k = k + 1;
    }
}

} // verus!

verus! {

impl StructBuilder {
    /// Allocates a nested struct of the given shape and writes pointer slot
    /// `index` to it; afterwards the slot resolves, by the read path's
    /// semantics, to the fresh zeroed struct.
    #[verifier::rlimit(100)]
    pub fn init_struct_field(
        &self,
        a: &mut BuilderArena,
        index: u16,
        data_size: u16,
        ptr_size: u16,
    ) -> (r: StructBuilder)
        requires
            old(a).wf(),
            self.wf(*old(a)),
            index < self.ptr_size,
            1 <= data_size + ptr_size,
            old(a).segs().len() + 1 < 0xffff_ffff,
        ensures
            final(a).wf(),
            self.wf(*final(a)),
            r.wf(*final(a)),
            r.data_size == data_size,
            r.ptr_size == ptr_size,
            final(a).cap_table@ == old(a).cap_table@,
            old(a).segs().len() <= final(a).segs().len(),
            forall|s: int|
                0 <= s < old(a).segs().len() ==> final(a).fill@[s] >= (#[trigger] old(
                    a,
                ).fill@[s]),
            forall|s: int|
                0 <= s < old(a).segs().len() ==> (#[trigger] final(a).segs()[s]).len() == old(
                    a,
                ).segs()[s].len(),
            forall|s: int, j: int|
                0 <= s < old(a).segs().len() && 0 <= j < old(a).fill@[s] && !(s == self.segment
                    && j == self.slot(index as int)) ==> (#[trigger] final(a).segs()[s][j]) == old(
                    a,
                ).segs()[s][j],
            forall|j: int|
                r.data_start <= j < r.data_start + data_size + ptr_size ==> (#[trigger] final(a).segs()[r.segment as int][j]) == 0,
            forall|n: u32|
                #[trigger] crate::layout::resolve_struct(
                    final(a).segs(),
                    self.segment as int,
                    self.slot(index as int),
                    n,
                ) == Some(
                    crate::layout::StructReader {
                        segment: r.segment,
                        data_start: r.data_start,
                        data_size,
                        ptr_size,
                        nesting: n,
                    },
                ),
            forall|n: u32|
                #[trigger] crate::layout::resolve_struct(
                    final(a).filled(),
                    self.segment as int,
                    self.slot(index as int),
                    n,
                ) == crate::layout::resolve_struct(
                    final(a).segs(),
                    self.segment as int,
                    self.slot(index as int),
                    n,
                ),
    {
        let total = (data_size as u64) + (ptr_size as u64);
        let (tseg, toff) = a.allocate(total);
        let ghost mid = *a;
        write_ptr_to(
            a,
            self.segment,
            self.data_start + self.data_size as u64 + index as u64,
            tseg,
            toff,
            PtrShape::StructShape { data_size, ptr_size },
        );
        proof {
            assert forall|s: int| 0 <= s < old(a).segs().len() implies a.fill@[s] >= (
            #[trigger] old(a).fill@[s]) by {
                assert(mid.fill@[s] >= old(a).fill@[s]);
                assert(a.fill@[s] >= mid.fill@[s]);
            }
            assert forall|s: int| 0 <= s < old(a).segs().len() implies (
            #[trigger] a.segs()[s]).len() == old(a).segs()[s].len() by {
                assert(mid.segs()[s].len() == old(a).segs()[s].len());
                assert(a.segs()[s].len() == mid.segs()[s].len());
            }
            assert(a.fill@[tseg as int] >= mid.fill@[tseg as int]);
            assert(a.segs()[tseg as int].len() == mid.segs()[tseg as int].len());
            assert forall|j: int| toff <= j < toff + data_size + ptr_size implies (#[trigger] a.segs()[tseg as int][j]) == 0 by {
                assert(mid.segs()[tseg as int][j] == 0);
                assert(a.segs()[tseg as int][j] == mid.segs()[tseg as int][j]);
            }
            assert(a.filled()[tseg as int].len() == a.fill@[tseg as int]);
            assert(toff + total <= a.fill@[tseg as int]);
        }
        StructBuilder { segment: tseg, data_start: toff, data_size, ptr_size }
    }

    /// Allocates word-aligned storage for `bytes` plus the terminating zero
    /// byte and writes pointer slot `index` as a byte-list pointer to it;
    /// afterwards the slot resolves, by the read path's semantics, to a byte
    /// list holding exactly `bytes` followed by one zero byte.
    #[verifier::rlimit(100)]
    pub fn set_text_field(&self, a: &mut BuilderArena, index: u16, bytes: &[u8])
        requires
            old(a).wf(),
            self.wf(*old(a)),
            index < self.ptr_size,
            bytes@.len() + 1 < 0x2000_0000,
            old(a).segs().len() + 1 < 0xffff_ffff,
        ensures
            final(a).wf(),
            self.wf(*final(a)),
            final(a).cap_table@ == old(a).cap_table@,
            old(a).segs().len() <= final(a).segs().len(),
            forall|s: int|
                0 <= s < old(a).segs().len() ==> final(a).fill@[s] >= (#[trigger] old(
                    a,
                ).fill@[s]),
            forall|s: int|
                0 <= s < old(a).segs().len() ==> (#[trigger] final(a).segs()[s]).len() == old(
                    a,
                ).segs()[s].len(),
            forall|n: u32|
                #[trigger] crate::layout::resolve_list(
                    final(a).segs(),
                    self.segment as int,
                    self.slot(index as int),
                    n,
                ) is Some,
            forall|n: u32|
                ({
                    let lr = (#[trigger] crate::layout::resolve_list(
                        final(a).segs(),
                        self.segment as int,
                        self.slot(index as int),
                        n,
                    )).unwrap();
                    &&& lr.count == bytes@.len() + 1
                    &&& lr.elem_size is Byte
                    &&& lr.nesting == n
                    &&& (forall|i: int|
                        0 <= i < bytes@.len() ==> #[trigger] lr.byte_element(final(a).segs(), i)
                            == bytes@[i])
                    &&& lr.byte_element(final(a).segs(), bytes@.len() as int) == 0
                }),
            forall|n: u32|
                #[trigger] crate::layout::resolve_list(
                    final(a).filled(),
                    self.segment as int,
                    self.slot(index as int),
                    n,
                ) == crate::layout::resolve_list(
                    final(a).segs(),
                    self.segment as int,
                    self.slot(index as int),
                    n,
                ),
            forall|n: u32, i: int|
                0 <= i < bytes@.len() + 1 ==> #[trigger] crate::layout::resolve_list(
                    final(a).segs(),
                    self.segment as int,
                    self.slot(index as int),
                    n,
                ).unwrap().byte_element(final(a).filled(), i) == (if i < bytes@.len() {
                    bytes@[i]
                } else {
                    0
                }),
    {
        let count = bytes.len() as u64 + 1;
        let words = (count + 7) / 8;
        let (tseg, toff) = a.allocate(words);
        let ghost aft_alloc = *a;
        proof {
            assert((bytes@.len() + 7) / 8 <= words);
        }
        write_bytes_into(a, tseg, toff, bytes);
        let ghost mid = *a;
        write_ptr_to(
            a,
            self.segment,
            self.data_start + self.data_size as u64 + index as u64,
            tseg,
            toff,
            PtrShape::ListShape { elem_size: ElementSize::Byte, count: count as u32 },
        );
        proof {
            assert forall|s: int| 0 <= s < old(a).segs().len() implies a.fill@[s] >= (
            #[trigger] old(a).fill@[s]) by {
                assert(aft_alloc.fill@[s] >= old(a).fill@[s]);
                assert(mid.fill@[s] == aft_alloc.fill@[s]);
                assert(a.fill@[s] >= mid.fill@[s]);
            }
            assert forall|s: int| 0 <= s < old(a).segs().len() implies (
            #[trigger] a.segs()[s]).len() == old(a).segs()[s].len() by {
                assert(aft_alloc.segs()[s].len() == old(a).segs()[s].len());
                assert(mid.segs()[s].len() == aft_alloc.segs()[s].len());
                assert(a.segs()[s].len() == mid.segs()[s].len());
            }
            let segs = a.segs();
            let slot = self.slot(index as int);
            assert(((count as int) * 8 + 63) / 64 == (count as int + 7) / 8) by (nonlinear_arith);
            assert forall|n: u32| #[trigger] crate::layout::resolve_list(
                segs,
                self.segment as int,
                slot,
                n,
            ) is Some by {
                let t = resolved_target(segs, self.segment as int, slot).unwrap();
            }
            assert forall|n: u32, i: int| 0 <= i < count implies #[trigger] crate::layout::resolve_list(
                segs,
                self.segment as int,
                slot,
                n,
            ).unwrap().byte_element(segs, i) == (if i < bytes@.len() {
                bytes@[i]
            } else {
                0
            }) by {
                let lr = crate::layout::resolve_list(segs, self.segment as int, slot, n).unwrap();
                assert(lr.segment == tseg && lr.start == toff);
                assert(toff + i / 8 < toff + words);
                assert(a.segs()[tseg as int][toff + i / 8] == mid.segs()[tseg as int][toff + i
                    / 8]);
                assert(lr.byte_element(segs, i) == seg_byte(mid.segs(), tseg as int, toff as int, i));
                if i < 8 * ((bytes@.len() + 7) / 8) {
                } else {
                    assert(i == bytes@.len());
                    assert(toff + i / 8 >= toff + (bytes@.len() + 7) / 8);
                    assert(mid.segs()[tseg as int][toff + i / 8] == aft_alloc.segs()[tseg as int][
                        toff + i / 8]);
                    assert(aft_alloc.segs()[tseg as int][toff + i / 8] == 0);
                    bits::lemma_zero_word_lanes(((i % 8) as u64));
                }
            }
            assert(a.filled()[tseg as int].len() == a.fill@[tseg as int]);
            assert(toff + words <= a.fill@[tseg as int]);
            assert forall|n: u32, i: int| 0 <= i < count implies #[trigger] crate::layout::resolve_list(
                segs,
                self.segment as int,
                slot,
                n,
            ).unwrap().byte_element(a.filled(), i) == (if i < bytes@.len() {
                bytes@[i]
            } else {
                0
            }) by {
                let lr = crate::layout::resolve_list(segs, self.segment as int, slot, n).unwrap();
                assert(toff + i / 8 < toff + words);
                assert(a.filled()[tseg as int][toff + i / 8] == a.segs()[tseg as int][toff + i
                    / 8]);
                assert(lr.byte_element(a.filled(), i) == lr.byte_element(segs, i));
            }
        }
    }
}

} // verus!

verus! {

/// A typed write cursor over one allocated inline-composite list: `count`
/// same-shaped struct elements just past the shared tag word.
#[derive(Clone, Copy, Debug, PartialEq, Eq, Structural)]
pub struct StructListBuilder {
    pub segment: u32,
    /// First element word: one past the tag word.
    pub start: u64,
    pub count: u32,
    pub data_size: u16,
    pub ptr_size: u16,
}

impl StructListBuilder {
    /// The list's whole element extent lies inside the allocated part of its
    /// segment.
    pub open spec fn wf(self, a: BuilderArena) -> bool {
        &&& (self.segment as int) < a.segs().len()
        &&& self.start + self.count * (self.data_size + self.ptr_size) <= a.fill@[
            self.segment as int]
        &&& self.count < 0x2000_0000
    }

    /// A write cursor over element `i`.
    pub fn element(&self, a: &BuilderArena, i: u32) -> (r: StructBuilder)
        requires
            a.wf(),
            self.wf(*a),
            i < self.count,
        ensures
            r.wf(*a),
            r.segment == self.segment,
            r.data_start == self.start + i * (self.data_size + self.ptr_size),
            r.data_size == self.data_size,
            r.ptr_size == self.ptr_size,
    {
        let shape = (self.data_size as u64) + (self.ptr_size as u64);
        proof {
            assert((i as u64) * shape + shape <= (self.count as u64) * shape) by (nonlinear_arith)
                requires
                    0 <= i < self.count,
                    shape >= 0,
            ;
        }
        StructBuilder {
            segment: self.segment,
            data_start: self.start + (i as u64) * shape,
            data_size: self.data_size,
            ptr_size: self.ptr_size,
        }
    }
}

impl StructBuilder {
    /// Allocates an inline-composite list of `count` zeroed struct elements
    /// of the given shape — the shared tag word first, the elements after it
    /// — and writes pointer slot `index` to it; afterwards the slot
    /// resolves, by the read path's semantics, to that list.
    #[verifier::rlimit(100)]
    pub fn init_struct_list_field(
        &self,
        a: &mut BuilderArena,
        index: u16,
        count: u32,
        data_size: u16,
        ptr_size: u16,
    ) -> (r: StructListBuilder)
        requires
            old(a).wf(),
            self.wf(*old(a)),
            index < self.ptr_size,
            1 <= data_size + ptr_size,
            count < 0x2000_0000,
            count * (data_size + ptr_size) < 0x1fff_ffff,
            old(a).segs().len() + 1 < 0xffff_ffff,
        ensures
            final(a).wf(),
            self.wf(*final(a)),
            r.wf(*final(a)),
            r.count == count,
            r.data_size == data_size,
            r.ptr_size == ptr_size,
            final(a).cap_table@ == old(a).cap_table@,
            old(a).segs().len() <= final(a).segs().len(),
            forall|s: int|
                0 <= s < old(a).segs().len() ==> final(a).fill@[s] >= (#[trigger] old(
                    a,
                ).fill@[s]),
            forall|s: int|
                0 <= s < old(a).segs().len() ==> (#[trigger] final(a).segs()[s]).len() == old(
                    a,
                ).segs()[s].len(),
            forall|s: int, j: int|
                0 <= s < old(a).segs().len() && 0 <= j < old(a).fill@[s] && !(s == self.segment
                    && j == self.slot(index as int)) ==> (#[trigger] final(a).segs()[s][j]) == old(
                    a,
                ).segs()[s][j],
            forall|j: int|
                r.start <= j < r.start + count * (data_size + ptr_size) ==> (#[trigger] final(a).segs()[r.segment as int][j]) == 0,
            forall|n: u32|
                #[trigger] crate::layout::resolve_list(
                    final(a).segs(),
                    self.segment as int,
                    self.slot(index as int),
                    n,
                ) == Some(
                    crate::layout::ListReader {
                        segment: r.segment,
                        start: r.start,
                        elem_size: ElementSize::InlineComposite,
                        count,
                        step_bits: (64 * ((data_size as u64) + (ptr_size as u64))) as u64,
                        data_size,
                        ptr_size,
                        content_words: (count * (data_size + ptr_size)) as u64,
                        nesting: n,
                    },
                ),
            forall|n: u32|
                #[trigger] crate::layout::resolve_list(
                    final(a).filled(),
                    self.segment as int,
                    self.slot(index as int),
                    n,
                ) == crate::layout::resolve_list(
                    final(a).segs(),
                    self.segment as int,
                    self.slot(index as int),
                    n,
                ),
    {
        let shape = (data_size as u64) + (ptr_size as u64);
        proof {
            assert((count as u64) * ((data_size as u64) + (ptr_size as u64)) == count * (data_size
                + ptr_size)) by (nonlinear_arith)
                requires
                    count >= 0,
                    data_size >= 0,
                    ptr_size >= 0,
            ;
        }
        let content = (count as u64) * shape;
        let (tseg, toff) = a.allocate(content + 1);
        let tag = encode_pointer(
            WirePointer::Struct { offset: count as i32, data_size, ptr_size },
        );
        a.set_word(tseg, toff, tag);
        let ghost mid = *a;
        write_ptr_to(
            a,
            self.segment,
            self.data_start + self.data_size as u64 + index as u64,
            tseg,
            toff,
            PtrShape::ListShape { elem_size: ElementSize::InlineComposite, count: content as u32 },
        );
        proof {
            assert forall|s: int| 0 <= s < old(a).segs().len() implies a.fill@[s] >= (
            #[trigger] old(a).fill@[s]) by {
                assert(mid.fill@[s] >= old(a).fill@[s]);
                assert(a.fill@[s] >= mid.fill@[s]);
            }
            assert forall|s: int| 0 <= s < old(a).segs().len() implies (
            #[trigger] a.segs()[s]).len() == old(a).segs()[s].len() by {
                assert(mid.segs()[s].len() == old(a).segs()[s].len());
                assert(a.segs()[s].len() == mid.segs()[s].len());
            }
            let segs = a.segs();
            let slot = self.slot(index as int);
            assert(a.segs()[tseg as int][toff as int] == mid.segs()[tseg as int][toff as int]);
            assert forall|j: int| toff + 1 <= j < toff + 1 + content implies (
            #[trigger] a.segs()[tseg as int][j]) == 0 by {
                assert(mid.segs()[tseg as int][j] == 0);
                assert(a.segs()[tseg as int][j] == mid.segs()[tseg as int][j]);
            }
            assert((count as int) * ((data_size as int) + (ptr_size as int)) <= content as int);
            assert(a.filled()[tseg as int].len() == a.fill@[tseg as int]);
            assert(toff + 1 + content <= a.fill@[tseg as int]);
            assert(a.filled()[tseg as int][toff as int] == a.segs()[tseg as int][toff as int]);
        }
        StructListBuilder {
            segment: tseg,
            start: toff + 1,
            count,
            data_size,
            ptr_size,
        }
    }
}

} // verus!
