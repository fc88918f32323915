//! Reader and builder views: bounds-checked cursors over a segment plus
//! offset, with default-value masking on scalar fields and budget-charged
//! pointer following.
//!
//! The central safety contract: following any pointer in attacker-controlled
//! input either yields a view whose whole extent lies inside its segment, or
//! fails with a decode error — it never reads out of bounds, never panics
//! and, thanks to the traversal budget, never does unbounded work.

use vstd::prelude::*;
use vstd::string::StringExecFns;
use crate::Error;
use crate::arena::ReaderArena;
use crate::bits;
use crate::ptr::ElementSize;
use crate::ptr::WirePointer;
use crate::ptr::spec_decode;
use crate::ptr::decode_pointer;

verus! {

/// A typed, bounds-checked read cursor over one struct: `data_size` data
/// words at `data_start`, followed by `ptr_size` pointer words.
#[derive(Clone, Copy, Debug, PartialEq, Eq, Structural)]
pub struct StructReader {
    pub segment: u32,
    pub data_start: u64,
    pub data_size: u16,
    pub ptr_size: u16,
    /// Remaining pointer-chain depth for pointers followed from here.
    pub nesting: u32,
}

/// The signed offset carried by a direct pointer (zero for the other kinds).
pub open spec fn ptr_offset(p: WirePointer) -> int {
    match p {
        WirePointer::Struct { offset, .. } => offset as int,
        WirePointer::List { offset, .. } => offset as int,
        _ => 0,
    }
}

/// Where a pointer word at `(seg, off)` points: the content's segment, the
/// content's first word, and the effective (non-far) pointer describing it.
/// Far pointers are chased through one, or for double-far pointers two,
/// in-bounds indirections; anything malformed resolves to `None`.
pub open spec fn resolved_target(segs: Seq<Seq<u64>>, seg: int, off: int) -> Option<
    (int, int, WirePointer),
>
    recommends
        0 <= seg < segs.len(),
        0 <= off < segs[seg].len(),
{
    let p = spec_decode(segs[seg][off]);
    match p {
        WirePointer::Far { double_far, offset, segment_id } => {
            if segment_id as int >= segs.len() {
                None
            } else if !double_far {
                if offset as int + 1 <= segs[segment_id as int].len() {
                    let q = spec_decode(segs[segment_id as int][offset as int]);
                    match q {
                        WirePointer::Far { .. } => None,
                        _ => Some(
                            (segment_id as int, offset as int + 1 + ptr_offset(q), q),
                        ),
                    }
                } else {
                    None
                }
            } else {
                if offset as int + 2 <= segs[segment_id as int].len() {
                    let pad = spec_decode(segs[segment_id as int][offset as int]);
                    let tag = spec_decode(segs[segment_id as int][offset as int + 1]);
                    match pad {
                        WirePointer::Far { double_far: d2, offset: o2, segment_id: s2 } => {
                            if !d2 && (s2 as int) < segs.len() && !(tag is Far) {
                                Some((s2 as int, o2 as int, tag))
                            } else {
                                None
                            }
                        },
                        _ => None,
                    }
                } else {
                    None
                }
            }
        },
        _ => Some((seg, off + 1 + ptr_offset(p), p)),
    }
}

impl StructReader {
    /// The reader's whole extent lies inside its segment.
    pub open spec fn wf(self, segs: Seq<Seq<u64>>) -> bool {
        &&& (self.segment as int) < segs.len()
        &&& self.data_start + self.data_size + self.ptr_size <= segs[self.segment as int].len()
    }

    /// Words this struct occupies: what its traversal costs.
    pub open spec fn total_words(self) -> int {
        self.data_size + self.ptr_size
    }

    /// Data word `i`, where words beyond the declared data section read as
    /// zero — the basis of forward/backward schema compatibility.
    pub open spec fn data_word(self, segs: Seq<Seq<u64>>, i: int) -> u64 {
        if 0 <= i < self.data_size {
            segs[self.segment as int][self.data_start + i]
        } else {
            0
        }
    }

    /// Pointer word `i`, where slots beyond the declared pointer section
    /// read as the null pointer.
    pub open spec fn ptr_word(self, segs: Seq<Seq<u64>>, i: int) -> u64 {
        if 0 <= i < self.ptr_size {
            segs[self.segment as int][self.data_start + self.data_size + i]
        } else {
            0
        }
    }

    /// An empty struct view in segment `segment`: how a null pointer reads.
    pub open spec fn spec_empty(segment: u32, nesting: u32) -> StructReader {
        StructReader { segment, data_start: 0, data_size: 0, ptr_size: 0, nesting }
    }

    /// An empty struct view: every field of it reads as its default.
    pub fn empty(segment: u32, nesting: u32) -> (r: StructReader)
        ensures
            r == StructReader::spec_empty(segment, nesting),
    {
        StructReader { segment, data_start: 0, data_size: 0, ptr_size: 0, nesting }
    }
}

/// The struct view denoted by the pointer word at `(seg, off)`, given that
/// pointers followed from it may still descend `nesting` further levels:
/// `None` exactly when the pointer or its far chain is malformed, targets
/// space outside its segment, or is not a struct pointer. A null pointer
/// resolves to the empty struct — never an error.
pub open spec fn resolve_struct(segs: Seq<Seq<u64>>, seg: int, off: int, nesting: u32) -> Option<
    StructReader,
>
    recommends
        0 <= seg < segs.len(),
        0 <= off < segs[seg].len(),
{
    match resolved_target(segs, seg, off) {
        None => None,
        Some((cs, cstart, p)) => match p {
            WirePointer::Null => Some(StructReader::spec_empty(cs as u32, nesting)),
            WirePointer::Struct { offset, data_size, ptr_size } => {
                if 0 <= cstart && cstart + data_size + ptr_size <= segs[cs].len() {
                    Some(
                        StructReader {
                            segment: cs as u32,
                            data_start: cstart as u64,
                            data_size,
                            ptr_size,
                            nesting,
                        },
                    )
                } else {
                    None
                }
            },
            _ => None,
        },
    }
}

/// Executable signed offset of a direct pointer.
pub fn ptr_offset_exec(p: WirePointer) -> (r: i32)
    requires
        p.wf(),
    ensures
        r as int == ptr_offset(p),
{
    match p {
        WirePointer::Struct { offset, .. } => offset,
        WirePointer::List { offset, .. } => offset,
        _ => 0,
    }
}

/// Follows the pointer word at `(seg, off)` expecting a struct. Succeeds if
/// and only if the pointer resolves to an in-bounds struct (or null), depth
/// remains, and the struct's word count fits the remaining traversal budget,
/// which it charges.
pub fn follow_struct_pointer(arena: &mut ReaderArena, seg: u32, off: u64, nesting: u32) -> (r:
    crate::Result<StructReader>)
    requires
        old(arena).wf(),
        seg < old(arena).segs().len(),
        off < old(arena).segs()[seg as int].len(),
    ensures
        final(arena).wf(),
        final(arena).segments == old(arena).segments,
        final(arena).cap_table == old(arena).cap_table,
        final(arena).nesting_limit == old(arena).nesting_limit,
        ({
            let resolved = resolve_struct(
                old(arena).segs(),
                seg as int,
                off as int,
                ((nesting as int - 1) as u32),
            );
            &&& (r is Ok <==> nesting >= 1 && resolved is Some && resolved.unwrap().total_words()
                <= old(arena).read_limit)
            &&& (r is Ok ==> r->Ok_0 == resolved.unwrap() && resolved.unwrap().wf(
                old(arena).segs(),
            ) && final(arena).read_limit == old(arena).read_limit
                - resolved.unwrap().total_words())
            &&& (r is Err ==> (r->Err_0).kind is Failed && final(arena).read_limit == old(
                arena,
            ).read_limit)
        }),
{
    if nesting == 0 {
        return Err(
            Error::new_decode_error(
                String::from_str("nesting limit exceeded: pointer chain is too deep"),
            ),
        );
    }
    let w = arena.read_word(seg, off);
    let p = decode_pointer(w);
    let num_segs = arena.num_segments();
    let triple: (u32, i64, WirePointer) = match p {
        WirePointer::Far { double_far, offset, segment_id } => {
            if segment_id >= num_segs {
                return Err(
                    Error::new_decode_error(
                        String::from_str("far pointer targets a segment that does not exist"),
                    ),
                );
            }
            let slen = arena.segment_len(segment_id);
            if !double_far {
                if offset as u64 >= slen {
                    return Err(
                        Error::new_decode_error(
                            String::from_str("far pointer landing pad is out of bounds"),
                        ),
                    );
                }
                let w2 = arena.read_word(segment_id, offset as u64);
                let q = decode_pointer(w2);
                if let WirePointer::Far { .. } = q {
                    return Err(
                        Error::new_decode_error(
                            String::from_str("far pointer landing pad holds another far pointer"),
                        ),
                    );
                }
                (segment_id, offset as i64 + 1 + ptr_offset_exec(q) as i64, q)
            } else {
                if offset as u64 + 2 > slen {
                    return Err(
                        Error::new_decode_error(
                            String::from_str("double-far landing pad is out of bounds"),
                        ),
                    );
                }
                let w2 = arena.read_word(segment_id, offset as u64);
                let pad = decode_pointer(w2);
                let w3 = arena.read_word(segment_id, offset as u64 + 1);
                let tag = decode_pointer(w3);
                match pad {
                    WirePointer::Far { double_far: d2, offset: o2, segment_id: s2 } => {
                        if d2 || s2 >= num_segs {
                            return Err(
                                Error::new_decode_error(
                                    String::from_str("double-far landing pad is malformed"),
                                ),
                            );
                        }
                        if let WirePointer::Far { .. } = tag {
                            return Err(
                                Error::new_decode_error(
                                    String::from_str("double-far tag word holds a far pointer"),
                                ),
                            );
                        }
                        (s2, o2 as i64, tag)
                    },
                    _ => {
                        return Err(
                            Error::new_decode_error(
                                String::from_str("double-far landing pad is malformed"),
                            ),
                        );
                    },
                }
            }
        },
        _ => (seg, off as i64 + 1 + ptr_offset_exec(p) as i64, p),
    };
    let (cseg, cstart, p2) = triple;
    match p2 {
        WirePointer::Null => Ok(StructReader::empty(cseg, nesting - 1)),
        WirePointer::Struct { offset: _, data_size, ptr_size } => {
            let clen = arena.segment_len(cseg);
            let total = data_size as i64 + ptr_size as i64;
            if cstart < 0 || cstart + total > clen as i64 {
                return Err(
                    Error::new_decode_error(
                        String::from_str("struct pointer targets space outside its segment"),
                    ),
                );
            }
            match arena.try_charge(total as u64) {
                Ok(()) => Ok(
                    StructReader {
                        segment: cseg,
                        data_start: cstart as u64,
                        data_size,
                        ptr_size,
                        nesting: nesting - 1,
                    },
                ),
                Err(e) => Err(e),
            }
        },
        _ => Err(
            Error::new_decode_error(
                String::from_str("expected a struct pointer, found another pointer kind"),
            ),
        ),
    }
}

impl StructReader {
    /// Data word `index` unmasked with `default`: an absent or all-zero word
    /// reads back as the default.
    pub fn get_data_u64(&self, arena: &ReaderArena, index: u64, default: u64) -> (r: u64)
        requires
            arena.wf(),
            self.wf(arena.segs()),
        ensures
            r == self.data_word(arena.segs(), index as int) ^ default,
            index >= self.data_size ==> r == default,
    {
        let raw = if index < self.data_size as u64 {
            arena.read_word(self.segment, self.data_start + index)
        } else {
            0
        };
        proof {
            bits::lemma_xor_mask_u64(raw, default);
        }
        raw ^ default
    }

    /// 32-bit field `index` (two per data word), unmasked with `default`.
    pub fn get_data_u32(&self, arena: &ReaderArena, index: u64, default: u32) -> (r: u32)
        requires
            arena.wf(),
            self.wf(arena.segs()),
            index < u64::MAX,
        ensures
            r == bits::u32_of_word(self.data_word(arena.segs(), index as int / 2), (index % 2))
                ^ default,
            index >= 2 * (self.data_size as u64) ==> r == default,
    {
        let wi = index / 2;
        let raw = if wi < self.data_size as u64 {
            arena.read_word(self.segment, self.data_start + wi)
        } else {
            0
        };
        let lane = bits::get_u32_of_word(raw, index % 2);
        proof {
            bits::lemma_zero_word_lanes(index % 2);
            bits::lemma_xor_mask_u32(lane, default);
        }
        lane ^ default
    }

    /// 16-bit field `index` (four per data word), unmasked with `default`.
    pub fn get_data_u16(&self, arena: &ReaderArena, index: u64, default: u16) -> (r: u16)
        requires
            arena.wf(),
            self.wf(arena.segs()),
            index < u64::MAX,
        ensures
            r == bits::u16_of_word(self.data_word(arena.segs(), index as int / 4), (index % 4))
                ^ default,
            index >= 4 * (self.data_size as u64) ==> r == default,
    {
        let wi = index / 4;
        let raw = if wi < self.data_size as u64 {
            arena.read_word(self.segment, self.data_start + wi)
        } else {
            0
        };
        let lane = bits::get_u16_of_word(raw, index % 4);
        proof {
            bits::lemma_zero_word_lanes(index % 4);
            bits::lemma_xor_mask_u16(lane, default);
        }
        lane ^ default
    }

    /// Byte field `index` (eight per data word), unmasked with `default`.
    pub fn get_data_u8(&self, arena: &ReaderArena, index: u64, default: u8) -> (r: u8)
        requires
            arena.wf(),
            self.wf(arena.segs()),
            index < u64::MAX,
        ensures
            r == bits::byte_of_word(self.data_word(arena.segs(), index as int / 8), (index % 8))
                ^ default,
            index >= 8 * (self.data_size as u64) ==> r == default,
    {
        let wi = index / 8;
        let raw = if wi < self.data_size as u64 {
            arena.read_word(self.segment, self.data_start + wi)
        } else {
            0
        };
        let lane = bits::get_byte_of_word(raw, index % 8);
        proof {
            bits::lemma_zero_word_lanes(index % 8);
            bits::lemma_xor_mask_u8(lane, default);
        }
        lane ^ default
    }

    /// Single-bit field `index` (sixty-four per data word), unmasked with
    /// `default`.
    pub fn get_data_bool(&self, arena: &ReaderArena, index: u64, default: bool) -> (r: bool)
        requires
            arena.wf(),
            self.wf(arena.segs()),
            index < u64::MAX,
        ensures
            r == (bits::bit_of_word(self.data_word(arena.segs(), index as int / 64), (index % 64))
                != default),
            index >= 64 * (self.data_size as u64) ==> r == default,
    {
        let wi = index / 64;
        let raw = if wi < self.data_size as u64 {
            arena.read_word(self.segment, self.data_start + wi)
        } else {
            0
        };
        let stored = bits::get_bit_of_word(raw, index % 64);
        proof {
            bits::lemma_zero_word_lanes(index % 64);
        }
        stored != default
    }

    /// Follows pointer field `index` as a struct. Reading a slot beyond the
    /// declared pointer section yields the empty struct — never an error —
    /// which is what lets a newer reader accept an older, shorter struct.
    pub fn get_struct_field(&self, arena: &mut ReaderArena, index: u16) -> (r: crate::Result<
        StructReader,
    >)
        requires
            old(arena).wf(),
            self.wf(old(arena).segs()),
        ensures
            final(arena).wf(),
            final(arena).segments == old(arena).segments,
            final(arena).cap_table == old(arena).cap_table,
            final(arena).nesting_limit == old(arena).nesting_limit,
            index >= self.ptr_size ==> r is Ok && r->Ok_0 == StructReader::spec_empty(
                self.segment,
                self.nesting,
            ) && final(arena).read_limit == old(arena).read_limit,
            index < self.ptr_size ==> ({
                let resolved = resolve_struct(
                    old(arena).segs(),
                    self.segment as int,
                    self.data_start + self.data_size + index,
                    ((self.nesting as int - 1) as u32),
                );
                &&& (r is Ok <==> self.nesting >= 1 && resolved is Some
                    && resolved.unwrap().total_words() <= old(arena).read_limit)
                &&& (r is Ok ==> r->Ok_0 == resolved.unwrap() && resolved.unwrap().wf(
                    old(arena).segs(),
                ) && final(arena).read_limit == old(arena).read_limit
                    - resolved.unwrap().total_words())
                &&& (r is Err ==> (r->Err_0).kind is Failed && final(arena).read_limit == old(
                    arena,
                ).read_limit)
            }),
    {
        if index < self.ptr_size {
            follow_struct_pointer(
                arena,
                self.segment,
                self.data_start + self.data_size as u64 + index as u64,
                self.nesting,
            )
        } else {
            Ok(StructReader::empty(self.segment, self.nesting))
        }
    }
}

} // verus!

verus! {

/// A typed, bounds-checked read cursor over one list: `count` elements of
/// granularity `elem_size` starting at word `start` (for inline-composite
/// lists, just past the shared tag word), spanning `content_words` words.
#[derive(Clone, Copy, Debug, PartialEq, Eq, Structural)]
pub struct ListReader {
    pub segment: u32,
    pub start: u64,
    pub elem_size: ElementSize,
    pub count: u32,
    /// Storage bits per element; for inline-composite lists, 64 times the
    /// per-element word count.
    pub step_bits: u64,
    /// Per-element struct shape of an inline-composite list; zero otherwise.
    pub data_size: u16,
    pub ptr_size: u16,
    /// Words the list content occupies, tag word excluded.
    pub content_words: u64,
    /// Remaining pointer-chain depth for pointers followed from here.
    pub nesting: u32,
}

impl ListReader {
    /// The list's whole extent lies inside its segment and the declared
    /// element count and stride fit inside it.
    pub open spec fn wf(self, segs: Seq<Seq<u64>>) -> bool {
        &&& (self.segment as int) < segs.len()
        &&& self.start + self.content_words <= segs[self.segment as int].len()
        &&& self.count < 0x2000_0000
        &&& (self.count * self.step_bits + 63) / 64 <= self.content_words
        &&& (self.elem_size is InlineComposite ==> self.step_bits == 64 * (self.data_size
            + self.ptr_size))
        &&& (!(self.elem_size is InlineComposite) ==> self.step_bits
            == self.elem_size.bits_per_element() && self.data_size == 0 && self.ptr_size == 0)
    }

    /// Words charged against the traversal budget when this list was
    /// resolved: its content plus the tag word of a composite list.
    pub open spec fn cost(self) -> int {
        self.content_words + if self.elem_size is InlineComposite {
            1int
        } else {
            0int
        }
    }

    /// An empty list view in segment `segment`: how a null pointer reads.
    pub open spec fn spec_empty(segment: u32, nesting: u32) -> ListReader {
        ListReader {
            segment,
            start: 0,
            elem_size: ElementSize::Void,
            count: 0,
            step_bits: 0,
            data_size: 0,
            ptr_size: 0,
            content_words: 0,
            nesting,
        }
    }

    /// An empty list view.
    pub fn empty(segment: u32, nesting: u32) -> (r: ListReader)
        ensures
            r == ListReader::spec_empty(segment, nesting),
    {
        ListReader {
            segment,
            start: 0,
            elem_size: ElementSize::Void,
            count: 0,
            step_bits: 0,
            data_size: 0,
            ptr_size: 0,
            content_words: 0,
            nesting,
        }
    }

    /// Byte element `i` of a byte list.
    pub open spec fn byte_element(self, segs: Seq<Seq<u64>>, i: int) -> u8 {
        bits::byte_of_word(segs[self.segment as int][self.start + i / 8], ((i % 8) as u64))
    }

    /// Word element `i` of an eight-byte list.
    pub open spec fn word_element(self, segs: Seq<Seq<u64>>, i: int) -> u64 {
        segs[self.segment as int][self.start + i]
    }
}

/// The list view denoted by the pointer word at `(seg, off)`: `None` exactly
/// when the pointer or its far chain is malformed, the content region or its
/// declared element count does not fit its segment, or the pointer is not a
/// list pointer. A null pointer resolves to the empty list — never an error.
pub open spec fn resolve_list(segs: Seq<Seq<u64>>, seg: int, off: int, nesting: u32) -> Option<
    ListReader,
>
    recommends
        0 <= seg < segs.len(),
        0 <= off < segs[seg].len(),
{
    match resolved_target(segs, seg, off) {
        None => None,
        Some((cs, cstart, p)) => match p {
            WirePointer::Null => Some(ListReader::spec_empty(cs as u32, nesting)),
            WirePointer::List { offset, elem_size, count } => {
                if elem_size is InlineComposite {
                    if 0 <= cstart && cstart + 1 + count <= segs[cs].len() {
                        let tag = spec_decode(segs[cs][cstart]);
                        match tag {
                            WirePointer::Null => Some(
                                ListReader {
                                    segment: cs as u32,
                                    start: (cstart + 1) as u64,
                                    elem_size,
                                    count: 0,
                                    step_bits: 0,
                                    data_size: 0,
                                    ptr_size: 0,
                                    content_words: count as u64,
                                    nesting,
                                },
                            ),
                            WirePointer::Struct { offset: n, data_size, ptr_size } => {
                                if 0 <= n && n * (data_size + ptr_size) <= count {
                                    Some(
                                        ListReader {
                                            segment: cs as u32,
                                            start: (cstart + 1) as u64,
                                            elem_size,
                                            count: n as u32,
                                            step_bits: (64 * (data_size + ptr_size)) as u64,
                                            data_size,
                                            ptr_size,
                                            content_words: count as u64,
                                            nesting,
                                        },
                                    )
                                } else {
                                    None
                                }
                            },
                            _ => None,
                        }
                    } else {
                        None
                    }
                } else {
                    let words = (count * elem_size.bits_per_element() + 63) / 64;
                    if 0 <= cstart && cstart + words <= segs[cs].len() {
                        Some(
                            ListReader {
                                segment: cs as u32,
                                start: cstart as u64,
                                elem_size,
                                count,
                                step_bits: elem_size.bits_per_element(),
                                data_size: 0,
                                ptr_size: 0,
                                content_words: words as u64,
                                nesting,
                            },
                        )
                    } else {
                        None
                    }
                }
            },
            _ => None,
        },
    }
}

} // verus!

verus! {

/// Follows the pointer word at `(seg, off)` expecting a list. Succeeds if
/// and only if the pointer resolves to an in-bounds list (or null), depth
/// remains, and the list's word span fits the remaining traversal budget,
/// which it charges.
#[verifier::rlimit(100)]
pub fn follow_list_pointer(arena: &mut ReaderArena, seg: u32, off: u64, nesting: u32) -> (r:
    crate::Result<ListReader>)
    requires
        old(arena).wf(),
        seg < old(arena).segs().len(),
        off < old(arena).segs()[seg as int].len(),
    ensures
        final(arena).wf(),
        final(arena).segments == old(arena).segments,
        final(arena).cap_table == old(arena).cap_table,
        final(arena).nesting_limit == old(arena).nesting_limit,
        ({
            let resolved = resolve_list(
                old(arena).segs(),
                seg as int,
                off as int,
                ((nesting as int - 1) as u32),
            );
            r is Ok <==> nesting >= 1 && resolved is Some && resolved.unwrap().cost() <= old(
                arena,
            ).read_limit
        }),
        ({
            let resolved = resolve_list(
                old(arena).segs(),
                seg as int,
                off as int,
                ((nesting as int - 1) as u32),
            );
            r is Ok ==> r->Ok_0 == resolved.unwrap() && resolved.unwrap().wf(old(arena).segs())
                && final(arena).read_limit == old(arena).read_limit - resolved.unwrap().cost()
        }),
        r is Err ==> (r->Err_0).kind is Failed && final(arena).read_limit == old(
            arena,
        ).read_limit,
{
    if nesting == 0 {
        return Err(
            Error::new_decode_error(
                String::from_str("nesting limit exceeded: pointer chain is too deep"),
            ),
        );
    }
    let w = arena.read_word(seg, off);
    let p = decode_pointer(w);
    let num_segs = arena.num_segments();
    let triple: (u32, i64, WirePointer) = match p {
        WirePointer::Far { double_far, offset, segment_id } => {
            if segment_id >= num_segs {
                return Err(
                    Error::new_decode_error(
                        String::from_str("far pointer targets a segment that does not exist"),
                    ),
                );
            }
            let slen = arena.segment_len(segment_id);
            if !double_far {
                if offset as u64 >= slen {
                    return Err(
                        Error::new_decode_error(
                            String::from_str("far pointer landing pad is out of bounds"),
                        ),
                    );
                }
                let w2 = arena.read_word(segment_id, offset as u64);
                let q = decode_pointer(w2);
                if let WirePointer::Far { .. } = q {
                    return Err(
                        Error::new_decode_error(
                            String::from_str("far pointer landing pad holds another far pointer"),
                        ),
                    );
                }
                (segment_id, offset as i64 + 1 + ptr_offset_exec(q) as i64, q)
            } else {
                if offset as u64 + 2 > slen {
                    return Err(
                        Error::new_decode_error(
                            String::from_str("double-far landing pad is out of bounds"),
                        ),
                    );
                }
                let w2 = arena.read_word(segment_id, offset as u64);
                let pad = decode_pointer(w2);
                let w3 = arena.read_word(segment_id, offset as u64 + 1);
                let tag = decode_pointer(w3);
                match pad {
                    WirePointer::Far { double_far: d2, offset: o2, segment_id: s2 } => {
                        if d2 || s2 >= num_segs {
                            return Err(
                                Error::new_decode_error(
                                    String::from_str("double-far landing pad is malformed"),
                                ),
                            );
                        }
                        if let WirePointer::Far { .. } = tag {
                            return Err(
                                Error::new_decode_error(
                                    String::from_str("double-far tag word holds a far pointer"),
                                ),
                            );
                        }
                        (s2, o2 as i64, tag)
                    },
                    _ => {
                        return Err(
                            Error::new_decode_error(
                                String::from_str("double-far landing pad is malformed"),
                            ),
                        );
                    },
                }
            }
        },
        _ => (seg, off as i64 + 1 + ptr_offset_exec(p) as i64, p),
    };
    let (cseg, cstart, p2) = triple;
    match p2 {
        WirePointer::Null => Ok(ListReader::empty(cseg, nesting - 1)),
        WirePointer::List { offset: _, elem_size, count } => {
            let clen = arena.segment_len(cseg);
            if let ElementSize::InlineComposite = elem_size {
                if cstart < 0 || cstart + 1 + count as i64 > clen as i64 {
                    return Err(
                        Error::new_decode_error(
                            String::from_str("list content is out of bounds of its segment"),
                        ),
                    );
                }
                let tag = decode_pointer(arena.read_word(cseg, cstart as u64));
                match tag {
                    WirePointer::Null => {
                        match arena.try_charge(count as u64 + 1) {
                            Ok(()) => Ok(
                                ListReader {
                                    segment: cseg,
                                    start: cstart as u64 + 1,
                                    elem_size,
                                    count: 0,
                                    step_bits: 0,
                                    data_size: 0,
                                    ptr_size: 0,
                                    content_words: count as u64,
                                    nesting: nesting - 1,
                                },
                            ),
                            Err(e) => Err(e),
                        }
                    },
                    WirePointer::Struct { offset: n, data_size, ptr_size } => {
                        if n < 0 {
                            return Err(
                                Error::new_decode_error(
                                    String::from_str("composite list tag declares a negative element count"),
                                ),
                            );
                        }
                        let shape = (data_size as u64) + (ptr_size as u64);
                        proof {
                            assert((n as u64) * ((data_size as u64) + (ptr_size as u64))
                                < 0x8000_0000_0000) by (nonlinear_arith)
                                requires
                                    0 <= n < 0x2000_0000,
                                    data_size < 0x10000,
                                    ptr_size < 0x10000,
                            ;
                        }
                        if (n as u64) * shape > count as u64 {
                            return Err(
                                Error::new_decode_error(
                                    String::from_str("composite list tag declares more elements than fit its region"),
                                ),
                            );
                        }
                        proof {
                            let nn = n as int;
                            let ss = (data_size as int) + (ptr_size as int);
                            assert((nn * (64 * ss) + 63) / 64 == nn * ss) by (nonlinear_arith)
                                requires
                                    0 <= nn,
                                    0 <= ss,
                            ;
                        }
                        match arena.try_charge(count as u64 + 1) {
                            Ok(()) => Ok(
                                ListReader {
                                    segment: cseg,
                                    start: cstart as u64 + 1,
                                    elem_size,
                                    count: n as u32,
                                    step_bits: 64 * ((data_size as u64) + (ptr_size as u64)),
                                    data_size,
                                    ptr_size,
                                    content_words: count as u64,
                                    nesting: nesting - 1,
                                },
                            ),
                            Err(e) => Err(e),
                        }
                    },
                    _ => Err(
                        Error::new_decode_error(
                            String::from_str("composite list tag word is not a struct tag"),
                        ),
                    ),
                }
            } else {
                let bits_per = elem_size.bits_per_element_exec();
                let words = ((count as u64) * bits_per + 63) / 64;
                if cstart < 0 || cstart + words as i64 > clen as i64 {
                    return Err(
                        Error::new_decode_error(
                            String::from_str("list content is out of bounds of its segment"),
                        ),
                    );
                }
                match arena.try_charge(words) {
                    Ok(()) => Ok(
                        ListReader {
                            segment: cseg,
                            start: cstart as u64,
                            elem_size,
                            count,
                            step_bits: bits_per,
                            data_size: 0,
                            ptr_size: 0,
                            content_words: words,
                            nesting: nesting - 1,
                        },
                    ),
                    Err(e) => Err(e),
                }
            }
        },
        _ => Err(
            Error::new_decode_error(
                String::from_str("expected a list pointer, found another pointer kind"),
            ),
        ),
    }
}

} // verus!

verus! {

impl ListReader {
    /// Byte element `i` of a byte list.
    pub fn get_byte_element(&self, arena: &ReaderArena, i: u32) -> (r: u8)
        requires
            arena.wf(),
            self.wf(arena.segs()),
            self.elem_size is Byte,
            i < self.count,
        ensures
            r == self.byte_element(arena.segs(), i as int),
    {
        proof {
            assert(i as int / 8 < (self.count * 8 + 63) / 64) by (nonlinear_arith)
                requires
                    0 <= i < self.count,
            ;
        }
        let w = arena.read_word(self.segment, self.start + (i as u64) / 8);
        bits::get_byte_of_word(w, (i as u64) % 8)
    }

    /// Word element `i` of an eight-byte list.
    pub fn get_word_element(&self, arena: &ReaderArena, i: u32) -> (r: u64)
        requires
            arena.wf(),
            self.wf(arena.segs()),
            self.elem_size is EightBytes,
            i < self.count,
        ensures
            r == self.word_element(arena.segs(), i as int),
    {
        proof {
            assert(i < (self.count * 64 + 63) / 64) by (nonlinear_arith)
                requires
                    0 <= i < self.count,
            ;
        }
        arena.read_word(self.segment, self.start + i as u64)
    }

    /// Struct element `i` of an inline-composite list: a view into the
    /// shared region, no pointer followed and no budget charged.
    pub fn get_struct_element(&self, arena: &ReaderArena, i: u32) -> (r: StructReader)
        requires
            arena.wf(),
            self.wf(arena.segs()),
            self.elem_size is InlineComposite,
            i < self.count,
        ensures
            r.wf(arena.segs()),
            r.segment == self.segment,
            r.data_start == self.start + i * (self.data_size + self.ptr_size),
            r.data_size == self.data_size,
            r.ptr_size == self.ptr_size,
            r.nesting == self.nesting,
    {
        let shape = (self.data_size as u64) + (self.ptr_size as u64);
        proof {
            assert((i as u64) * shape + shape <= self.count * shape && self.count * (64 * shape)
                == self.count * self.step_bits && (self.count * (64 * shape) + 63) / 64
                >= self.count * shape) by (nonlinear_arith)
                requires
                    0 <= i < self.count,
                    shape == (self.data_size as u64) + (self.ptr_size as u64),
                    self.step_bits == 64 * shape,
                    shape < 0x20000,
                    self.count < 0x2000_0000,
            ;
        }
        StructReader {
            segment: self.segment,
            data_start: self.start + (i as u64) * shape,
            data_size: self.data_size,
            ptr_size: self.ptr_size,
            nesting: self.nesting,
        }
    }

    /// Follows pointer element `i` of a pointer list as a struct.
    pub fn get_struct_pointer_element(&self, arena: &mut ReaderArena, i: u32) -> (r: crate::Result<
        StructReader,
    >)
        requires
            old(arena).wf(),
            self.wf(old(arena).segs()),
            self.elem_size is Pointer,
            i < self.count,
        ensures
            final(arena).wf(),
            final(arena).segments == old(arena).segments,
            final(arena).cap_table == old(arena).cap_table,
            final(arena).nesting_limit == old(arena).nesting_limit,
            ({
                let resolved = resolve_struct(
                    old(arena).segs(),
                    self.segment as int,
                    self.start + i,
                    ((self.nesting as int - 1) as u32),
                );
                &&& (r is Ok <==> self.nesting >= 1 && resolved is Some
                    && resolved.unwrap().total_words() <= old(arena).read_limit)
                &&& (r is Ok ==> r->Ok_0 == resolved.unwrap() && resolved.unwrap().wf(
                    old(arena).segs(),
                ) && final(arena).read_limit == old(arena).read_limit
                    - resolved.unwrap().total_words())
                &&& (r is Err ==> (r->Err_0).kind is Failed && final(arena).read_limit == old(
                    arena,
                ).read_limit)
            }),
    {
        proof {
            assert(i < (self.count * 64 + 63) / 64) by (nonlinear_arith)
                requires
                    0 <= i < self.count,
            ;
        }
        follow_struct_pointer(arena, self.segment, self.start + i as u64, self.nesting)
    }

    /// All bytes of a byte list, in order.
    pub fn read_bytes(&self, arena: &ReaderArena) -> (r: Vec<u8>)
        requires
            arena.wf(),
            self.wf(arena.segs()),
            self.elem_size is Byte || self.count == 0,
        ensures
            r@.len() == self.count,
            forall|i: int| 0 <= i < self.count ==> r@[i] == self.byte_element(arena.segs(), i),
    {
        let mut r: Vec<u8> = Vec::new();
        let mut i: u32 = 0;
        while i < self.count
            invariant
                arena.wf(),
                self.wf(arena.segs()),
                self.elem_size is Byte || self.count == 0,
                i <= self.count,
                r@.len() == i,
                forall|j: int| 0 <= j < i ==> r@[j] == self.byte_element(arena.segs(), j),
            decreases self.count - i,
        {
            r.push(self.get_byte_element(arena, i));
            i = i + 1;
        }
        r
    }
}

impl StructReader {
    /// Follows pointer field `index` as a list. Reading a slot beyond the
    /// declared pointer section yields the empty list — never an error.
    pub fn get_list_field(&self, arena: &mut ReaderArena, index: u16) -> (r: crate::Result<
        ListReader,
    >)
        requires
            old(arena).wf(),
            self.wf(old(arena).segs()),
        ensures
            final(arena).wf(),
            final(arena).segments == old(arena).segments,
            final(arena).cap_table == old(arena).cap_table,
            final(arena).nesting_limit == old(arena).nesting_limit,
            index >= self.ptr_size ==> r is Ok && r->Ok_0 == ListReader::spec_empty(
                self.segment,
                self.nesting,
            ) && final(arena).read_limit == old(arena).read_limit,
            index < self.ptr_size ==> ({
                let resolved = resolve_list(
                    old(arena).segs(),
                    self.segment as int,
                    self.data_start + self.data_size + index,
                    ((self.nesting as int - 1) as u32),
                );
                &&& (r is Ok <==> self.nesting >= 1 && resolved is Some
                    && resolved.unwrap().cost() <= old(arena).read_limit)
                &&& (r is Ok ==> r->Ok_0 == resolved.unwrap() && resolved.unwrap().wf(
                    old(arena).segs(),
                ) && final(arena).read_limit == old(arena).read_limit - resolved.unwrap().cost())
                &&& (r is Err ==> (r->Err_0).kind is Failed && final(arena).read_limit == old(
                    arena,
                ).read_limit)
            }),
    {
        if index < self.ptr_size {
            follow_list_pointer(
                arena,
                self.segment,
                self.data_start + self.data_size as u64 + index as u64,
                self.nesting,
            )
        } else {
            Ok(ListReader::empty(self.segment, self.nesting))
        }
    }

    /// Reads pointer field `index` as a capability reference and validates
    /// its index against the capability table: in-range indices round-trip,
    /// anything else — a null slot, a non-capability pointer, an index past
    /// the table — is a decode error.
    pub fn get_capability_field(&self, arena: &ReaderArena, index: u16) -> (r: crate::Result<u32>)
        requires
            arena.wf(),
            self.wf(arena.segs()),
        ensures
            ({
                let p = spec_decode(self.ptr_word(arena.segs(), index as int));
                &&& (r is Ok <==> p is Capability && (p->Capability_index as int)
                    < arena.cap_table@.len())
                &&& (r is Ok ==> r->Ok_0 == p->Capability_index)
                &&& (r is Err ==> (r->Err_0).kind is Failed)
            }),
    {
        let w = if index < self.ptr_size {
            arena.read_word(self.segment, self.data_start + self.data_size as u64 + index as u64)
        } else {
            0
        };
        let p = decode_pointer(w);
        match p {
            WirePointer::Capability { index: cap_index } => {
                match arena.get_capability(cap_index) {
                    Ok(_) => Ok(cap_index),
                    Err(e) => Err(e),
                }
            },
            _ => Err(
                Error::new_decode_error(
                    String::from_str("expected a capability pointer in this slot"),
                ),
            ),
        }
    }
}

} // verus!
