//! Messages: the top-level owner of an arena plus the root pointer.
//!
//! A builder message owns a growing arena whose first word is the root
//! pointer; a reader message wraps a fixed set of parsed segments and
//! resolves the first segment's first word as the root. The root always
//! resolves: an absent or null root reads as the empty struct.

use vstd::prelude::*;
use vstd::slice::slice_subrange;
use crate::MessageSize;
use crate::arena::BuilderArena;
use crate::arena::BuilderOptions;
use crate::arena::ReaderArena;
use crate::arena::ReaderOptions;
use crate::builder::PtrShape;
use crate::builder::StructBuilder;
use crate::builder::write_ptr_to;
use crate::layout::StructReader;
use crate::layout::follow_struct_pointer;
use crate::layout::resolve_struct;
use crate::OutputSegments;

verus! {

/// A message under construction: a builder arena whose word 0 of segment 0
/// is the root pointer slot.
pub struct MessageBuilder {
    pub arena: BuilderArena,
}

impl MessageBuilder {
    /// The arena is well-formed and the root slot is allocated.
    pub open spec fn wf(&self) -> bool {
        &&& self.arena.wf()
        &&& self.arena.segs().len() >= 1
        &&& self.arena.fill@[0] >= 1
    }

    /// The filled prefixes of the segments: what serialization writes.
    pub open spec fn output_segs(&self) -> Seq<Seq<u64>> {
        Seq::new(
            self.arena.segs().len(),
            |i: int| self.arena.segs()[i].take(self.arena.fill@[i] as int),
        )
    }

    /// A fresh message with a zeroed (null) root pointer: a valid empty
    /// message whose root reads as the empty struct.
    pub fn new(options: BuilderOptions) -> (r: MessageBuilder)
        ensures
            r.wf(),
            r.arena.segs()[0][0] == 0,
            r.arena.cap_table@.len() == 0,
            r.arena.segs().len() == 1,
    {
        let mut arena = BuilderArena::new(options);
        let (seg, off) = arena.allocate(1);
        MessageBuilder { arena }
    }

    /// Allocates the root struct and points the root slot at it; afterwards
    /// the root resolves, by the read path's semantics, to the fresh zeroed
    /// struct.
    pub fn init_root(&mut self, data_size: u16, ptr_size: u16) -> (r: StructBuilder)
        requires
            old(self).wf(),
            1 <= data_size + ptr_size,
            old(self).arena.segs().len() + 1 < 0xffff_ffff,
        ensures
            final(self).wf(),
            r.wf(final(self).arena),
            r.data_size == data_size,
            r.ptr_size == ptr_size,
            final(self).arena.cap_table@ == old(self).arena.cap_table@,
            forall|j: int|
                r.data_start <= j < r.data_start + data_size + ptr_size ==> (#[trigger] final(self).arena.segs()[r.segment as int][j]) == 0,
            forall|n: u32|
                #[trigger] resolve_struct(final(self).arena.segs(), 0, 0, n) == Some(
                    StructReader {
                        segment: r.segment,
                        data_start: r.data_start,
                        data_size,
                        ptr_size,
                        nesting: n,
                    },
                ),
            forall|n: u32|
                #[trigger] resolve_struct(final(self).output_segs(), 0, 0, n) == Some(
                    StructReader {
                        segment: r.segment,
                        data_start: r.data_start,
                        data_size,
                        ptr_size,
                        nesting: n,
                    },
                ),
    {
        let total = (data_size as u64) + (ptr_size as u64);
        let (tseg, toff) = self.arena.allocate(total);
        let ghost mid = self.arena;
        write_ptr_to(
            &mut self.arena,
            0,
            0,
            tseg,
            toff,
            PtrShape::StructShape { data_size, ptr_size },
        );
        proof {
            assert forall|j: int| toff <= j < toff + data_size + ptr_size implies (
            #[trigger] self.arena.segs()[tseg as int][j]) == 0 by {
                assert(mid.segs()[tseg as int][j] == 0);
                assert(self.arena.segs()[tseg as int][j] == mid.segs()[tseg as int][j]);
            }
            assert(self.output_segs() =~~= self.arena.filled());
            assert(self.arena.filled()[tseg as int].len() == self.arena.fill@[tseg as int]);
            assert(toff + total <= self.arena.fill@[tseg as int]);
        }
        StructBuilder { segment: tseg, data_start: toff, data_size, ptr_size }
    }

    /// Words allocated in the first `i` segments: what serialization will
    /// write, and what `total_size` reports.
    pub open spec fn allocated_words(&self, i: int) -> int
        decreases i,
    {
        if i <= 0 {
            0
        } else {
            self.allocated_words(i - 1) + self.arena.fill@[i - 1]
        }
    }

    /// Aggregate size of the message: words allocated across all segments —
    /// exactly what `write_message` emits — plus the capability count.
    pub fn total_size(&self) -> (r: MessageSize)
        requires
            self.wf(),
        ensures
            r.word_count == self.allocated_words(self.arena.segs().len() as int),
            r.cap_count == self.arena.cap_table@.len(),
    {
        let mut words: u64 = 0;
        let mut i: usize = 0;
        let n = self.arena.segments.len();
        while i < n
            invariant
                self.wf(),
                n == self.arena.segs().len(),
                i <= n,
                n <= 0xffff_ffff,
                words <= 0x1fff_ffff * (i as u64),
                words == self.allocated_words(i as int),
            decreases n - i,
        {
            let f = self.arena.segment_fill(i as u32);
            proof {
                assert(self.arena.fill@[i as int] <= self.arena.segs()[i as int].len());
                assert(self.arena.segs()[i as int].len() <= 0x1fff_ffff);
            }
            words = words + f;
            i = i + 1;
        }
        MessageSize { word_count: words, cap_count: self.arena.cap_table.len() as u32 }
    }

    /// The segments as they will be written to the wire: each segment's
    /// filled prefix, borrowed without copying.
    pub fn get_segments_for_output(&self) -> (r: OutputSegments<'_>)
        requires
            self.wf(),
        ensures
            r.view() == self.output_segs(),
    {
        if self.arena.segments.len() == 1 {
            let f = self.arena.segment_fill(0);
            let s = slice_subrange(self.arena.segments[0].as_slice(), 0, f as usize);
            let r = OutputSegments::SingleSegment([s]);
            proof {
                assert(r.view() =~= self.output_segs());
            }
            r
        } else {
            let mut v: Vec<&[u64]> = Vec::new();
            let mut i: usize = 0;
            let n = self.arena.segments.len();
            while i < n
                invariant
                    self.wf(),
                    n == self.arena.segs().len(),
                    i <= n,
                    v@.len() == i,
                    forall|j: int|
                        0 <= j < i ==> v@[j]@ == self.arena.segs()[j].take(
                            self.arena.fill@[j] as int,
                        ),
                decreases n - i,
            {
                let f = self.arena.segment_fill(i as u32);
                let s = slice_subrange(self.arena.segments[i].as_slice(), 0, f as usize);
                v.push(s);
                i = i + 1;
            }
            let r = OutputSegments::MultiSegment(v);
            proof {
                assert(r.view() =~= self.output_segs());
            }
            r
        }
    }
}

/// A parsed message being read: a fixed arena plus the root pointer at word
/// 0 of segment 0.
pub struct MessageReader {
    pub arena: ReaderArena,
}

impl MessageReader {
    /// At least one segment, all within addressable bounds.
    pub open spec fn wf(&self) -> bool {
        &&& self.arena.wf()
        &&& self.arena.segs().len() >= 1
    }

    /// Wraps a fixed set of segments for reading, with the given traversal
    /// limits and capability table.
    pub fn new(segments: Vec<Vec<u64>>, options: ReaderOptions, cap_table: Vec<u64>) -> (r:
        MessageReader)
        requires
            1 <= segments@.len() <= 0xffff_ffff,
            forall|i: int|
                0 <= i < segments@.len() ==> (#[trigger] segments@[i])@.len() <= 0xffff_ffff,
        ensures
            r.wf(),
            r.arena.segments@ == segments@,
            r.arena.read_limit == options.traversal_limit_in_words,
            r.arena.nesting_limit == options.nesting_limit,
            r.arena.cap_table@ == cap_table@,
    {
        MessageReader { arena: ReaderArena::new(segments, options, cap_table) }
    }

    /// Resolves the root pointer. An empty first segment reads as the empty
    /// struct: the root always resolves for well-formed input, and malformed
    /// input fails with a decode error, exactly as any other pointer does.
    pub fn get_root(&mut self) -> (r: crate::Result<StructReader>)
        requires
            old(self).wf(),
        ensures
            final(self).wf(),
            final(self).arena.segments == old(self).arena.segments,
            final(self).arena.cap_table == old(self).arena.cap_table,
            final(self).arena.nesting_limit == old(self).arena.nesting_limit,
            old(self).arena.segs()[0].len() == 0 ==> r is Ok && r->Ok_0
                == StructReader::spec_empty(0, old(self).arena.nesting_limit)
                && final(self).arena.read_limit == old(self).arena.read_limit,
            old(self).arena.segs()[0].len() > 0 ==> ({
                let resolved = resolve_struct(
                    old(self).arena.segs(),
                    0,
                    0,
                    ((old(self).arena.nesting_limit as int - 1) as u32),
                );
                &&& (r is Ok <==> old(self).arena.nesting_limit >= 1 && resolved is Some
                    && resolved.unwrap().total_words() <= old(self).arena.read_limit)
                &&& (r is Ok ==> r->Ok_0 == resolved.unwrap() && resolved.unwrap().wf(
                    old(self).arena.segs(),
                ) && final(self).arena.read_limit == old(self).arena.read_limit
                    - resolved.unwrap().total_words())
                &&& (r is Err ==> (r->Err_0).kind is Failed && final(self).arena.read_limit
                    == old(self).arena.read_limit)
            }),
    {
        let nesting = self.arena.nesting_limit;
        if self.arena.segment_len(0) == 0 {
            Ok(StructReader::empty(0, nesting))
        } else {
            follow_struct_pointer(&mut self.arena, 0, 0, nesting)
        }
    }
}

} // verus!
