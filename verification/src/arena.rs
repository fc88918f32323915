//! Arenas: the owners of a message's segments.
//!
//! A reader arena wraps a fixed, pre-supplied set of segments and enforces a
//! traversal budget; a builder arena grows by allocating new zeroed segments
//! on demand and tracks a write cursor per segment. Previously allocated
//! regions never move, so outstanding builder views stay valid.

use vstd::prelude::*;
use vstd::string::StringExecFns;
use crate::Error;

verus! {

/// Hard ceiling on the size of one builder segment, in words. It keeps every
/// in-segment word offset representable in the 29-bit offset fields of far
/// pointers and in the 30-bit signed offsets of direct pointers.
pub const MAX_SEGMENT_WORDS: u64 = 0x1fff_ffff;

/// Read-side configuration: both limits are policy, not protocol; the only
/// hard requirement is that they are finite.
#[derive(Clone, Copy)]
pub struct ReaderOptions {
    /// Total words a reader may traverse before failing with a decode
    /// error: the defence against amplification attacks.
    pub traversal_limit_in_words: u64,
    /// Maximum pointer-chain depth.
    pub nesting_limit: u32,
}

impl ReaderOptions {
    /// Conservative defaults: 8 Mi words of traversal, 64 levels of nesting.
    pub fn new() -> (r: ReaderOptions)
        ensures
            r.traversal_limit_in_words == 8 * 1024 * 1024,
            r.nesting_limit == 64,
    {
        ReaderOptions { traversal_limit_in_words: 8 * 1024 * 1024, nesting_limit: 64 }
    }
}

/// Write-side configuration.
#[derive(Clone, Copy)]
pub struct BuilderOptions {
    /// Size of the first segment, in words.
    pub first_segment_words: u32,
}

impl BuilderOptions {
    /// Default suggested first-segment size.
    pub fn new() -> (r: BuilderOptions)
        ensures
            r.first_segment_words == 1024,
    {
        BuilderOptions { first_segment_words: 1024 }
    }
}

/// A fixed set of segments being read, plus the shared traversal budget that
/// every cursor derived from this arena charges against.
pub struct ReaderArena {
    pub segments: Vec<Vec<u64>>,
    /// Words of traversal still allowed.
    pub read_limit: u64,
    /// Maximum remaining pointer depth for cursors created at the root.
    pub nesting_limit: u32,
    /// Capability handles supplied at construction, read-only.
    pub cap_table: Vec<u64>,
}

impl ReaderArena {
    /// The segments as a mathematical sequence of word sequences.
    pub open spec fn segs(&self) -> Seq<Seq<u64>> {
        Seq::new(self.segments@.len() as nat, |i: int| self.segments@[i]@)
    }

    /// Segment ids fit in 32 bits and in-segment offsets in 32 bits, as the
    /// wire format's table demands.
    pub open spec fn wf(&self) -> bool {
        &&& self.segments@.len() <= 0xffff_ffff
        &&& forall|i: int|
            0 <= i < self.segments@.len() ==> (#[trigger] self.segments@[i])@.len()
                <= 0xffff_ffff
    }

    /// Wraps a fixed set of segments for reading.
    pub fn new(segments: Vec<Vec<u64>>, options: ReaderOptions, cap_table: Vec<u64>) -> (r:
        ReaderArena)
        requires
            segments@.len() <= 0xffff_ffff,
            forall|i: int|
                0 <= i < segments@.len() ==> (#[trigger] segments@[i])@.len() <= 0xffff_ffff,
        ensures
            r.wf(),
            r.segments@ == segments@,
            r.read_limit == options.traversal_limit_in_words,
            r.nesting_limit == options.nesting_limit,
            r.cap_table@ == cap_table@,
    {
        ReaderArena {
            segments,
            read_limit: options.traversal_limit_in_words,
            nesting_limit: options.nesting_limit,
            cap_table,
        }
    }

    /// How many segments the message has.
    pub fn num_segments(&self) -> (n: u32)
        requires
            self.wf(),
        ensures
            n == self.segs().len(),
    {
        self.segments.len() as u32
    }

    /// One segment's length in words.
    pub fn segment_len(&self, seg: u32) -> (n: u64)
        requires
            self.wf(),
            seg < self.segs().len(),
        ensures
            n == self.segs()[seg as int].len(),
    {
        self.segments[seg as usize].len() as u64
    }

    /// One word of one segment.
    pub fn read_word(&self, seg: u32, off: u64) -> (w: u64)
        requires
            self.wf(),
            seg < self.segs().len(),
            off < self.segs()[seg as int].len(),
        ensures
            w == self.segs()[seg as int][off as int],
    {
        self.segments[seg as usize][off as usize]
    }

    /// Charges `words` against the traversal budget; fails with a decode
    /// error once the budget is exhausted, the defence against inputs whose
    /// pointers imply far more reading than their raw size.
    pub fn try_charge(&mut self, words: u64) -> (r: crate::Result<()>)
        ensures
            final(self).segments == old(self).segments,
            final(self).cap_table == old(self).cap_table,
            final(self).nesting_limit == old(self).nesting_limit,
            r is Ok <==> words <= old(self).read_limit,
            r is Ok ==> final(self).read_limit == old(self).read_limit - words,
            r is Err ==> final(self).read_limit == old(self).read_limit && (r->Err_0).kind
                is Failed,
    {
        if words <= self.read_limit {
            self.read_limit = self.read_limit - words;
            Ok(())
        } else {
            Err(
                Error::new_decode_error(
                    String::from_str("read limit exceeded: message is too deeply nested or too large to traverse"),
                ),
            )
        }
    }

    /// The capability handle at `index`; an index beyond the table is a
    /// decode error.
    pub fn get_capability(&self, index: u32) -> (r: crate::Result<u64>)
        ensures
            r is Ok <==> index < self.cap_table@.len(),
            r is Ok ==> r->Ok_0 == self.cap_table@[index as int],
            r is Err ==> (r->Err_0).kind is Failed,
    {
        if (index as usize) < self.cap_table.len() {
            Ok(self.cap_table[index as usize])
        } else {
            Err(
                Error::new_decode_error(
                    String::from_str("capability index out of range of the capability table"),
                ),
            )
        }
    }
}

/// The growing set of segments of a message under construction, with a write
/// cursor per segment. Segments are allocated zero-filled at their full
/// size; `fill[i]` is how many words of segment `i` are handed out so far.
pub struct BuilderArena {
    pub segments: Vec<Vec<u64>>,
    /// Words handed out so far, per segment.
    pub fill: Vec<u64>,
    /// Size of the next segment to allocate; grows geometrically.
    pub next_size: u64,
    /// Capability handles registered so far, append-only.
    pub cap_table: Vec<u64>,
}

impl BuilderArena {
    /// The segments as a mathematical sequence of word sequences.
    pub open spec fn segs(&self) -> Seq<Seq<u64>> {
        Seq::new(self.segments@.len() as nat, |i: int| self.segments@[i]@)
    }

    /// The filled prefixes of the segments: exactly the words serialization
    /// emits.
    pub open spec fn filled(&self) -> Seq<Seq<u64>> {
        Seq::new(
            self.segments@.len() as nat,
            |i: int| self.segments@[i]@.take(self.fill@[i] as int),
        )
    }

    /// Well-formedness: segment count and sizes bounded so that every
    /// pointer field fits its wire encoding; cursors within bounds; the
    /// unallocated tail of every segment still zero, so an allocation always
    /// returns zeroed storage.
    pub open spec fn wf(&self) -> bool {
        &&& 1 <= self.segments@.len() <= 0xffff_ffff
        &&& self.fill@.len() == self.segments@.len()
        &&& 1 <= self.next_size <= MAX_SEGMENT_WORDS
        &&& self.cap_table@.len() <= 0xffff_ffff
        &&& forall|i: int|
            0 <= i < self.segments@.len() ==> (#[trigger] self.segments@[i])@.len()
                <= MAX_SEGMENT_WORDS
        &&& forall|i: int|
            0 <= i < self.segments@.len() ==> self.fill@[i] <= (
            #[trigger] self.segments@[i])@.len()
        &&& forall|i: int, j: int|
            0 <= i < self.segments@.len() && self.fill@[i] <= j < self.segments@[i]@.len()
                ==> (#[trigger] self.segments@[i]@[j]) == 0
    }

    /// A fresh arena with one zeroed segment of the hinted size.
    pub fn new(options: BuilderOptions) -> (r: BuilderArena)
        ensures
            r.wf(),
            r.segs().len() == 1,
            r.fill@ == seq![0u64],
            r.cap_table@.len() == 0,
            r.segs()[0].len() == if options.first_segment_words == 0 {
                1u64
            } else if options.first_segment_words as u64 > MAX_SEGMENT_WORDS {
                MAX_SEGMENT_WORDS
            } else {
                options.first_segment_words as u64
            },
    {
        let size: u64 = if options.first_segment_words == 0 {
            1
        } else if options.first_segment_words as u64 > MAX_SEGMENT_WORDS {
            MAX_SEGMENT_WORDS
        } else {
            options.first_segment_words as u64
        };
        let first = zeroed_words(size);
        let mut segments: Vec<Vec<u64>> = Vec::new();
        segments.push(first);
        let mut fill: Vec<u64> = Vec::new();
        fill.push(0);
        BuilderArena { segments, fill, next_size: size, cap_table: Vec::new() }
    }

    /// How many segments exist so far.
    pub fn num_segments(&self) -> (n: u32)
        requires
            self.wf(),
        ensures
            n == self.segs().len(),
    {
        self.segments.len() as u32
    }

    /// One segment's full length in words.
    pub fn segment_len(&self, seg: u32) -> (n: u64)
        requires
            self.wf(),
            seg < self.segs().len(),
        ensures
            n == self.segs()[seg as int].len(),
    {
        self.segments[seg as usize].len() as u64
    }

    /// Words of segment `seg` handed out so far.
    pub fn segment_fill(&self, seg: u32) -> (n: u64)
        requires
            self.wf(),
            seg < self.segs().len(),
        ensures
            n == self.fill@[seg as int],
    {
        self.fill[seg as usize]
    }

    /// One word of one segment.
    pub fn get_word(&self, seg: u32, off: u64) -> (w: u64)
        requires
            self.wf(),
            seg < self.segs().len(),
            off < self.segs()[seg as int].len(),
        ensures
            w == self.segs()[seg as int][off as int],
    {
        self.segments[seg as usize][off as usize]
    }

    /// Overwrites one already-allocated word.
    pub fn set_word(&mut self, seg: u32, off: u64, w: u64)
        requires
            old(self).wf(),
            seg < old(self).segs().len(),
            off < old(self).fill@[seg as int],
        ensures
            final(self).wf(),
            final(self).segs() == old(self).segs().update(
                seg as int,
                old(self).segs()[seg as int].update(off as int, w),
            ),
            final(self).fill@ == old(self).fill@,
            final(self).cap_table@ == old(self).cap_table@,
            final(self).next_size == old(self).next_size,
            final(self).segs().len() == old(self).segs().len(),
    {
        self.segments[seg as usize][off as usize] = w;
        proof {
            assert(self.segs() =~~= old(self).segs().update(
                seg as int,
                old(self).segs()[seg as int].update(off as int, w),
            ));
        }
    }

    /// Registers a capability handle; its index is the table's previous
    /// length, so indices are unique and monotonically allocated.
    pub fn add_capability(&mut self, handle: u64) -> (index: u32)
        requires
            old(self).wf(),
            old(self).cap_table@.len() < 0xffff_ffff,
        ensures
            final(self).wf(),
            final(self).segs() == old(self).segs(),
            final(self).fill@ == old(self).fill@,
            final(self).cap_table@ == old(self).cap_table@.push(handle),
            index == old(self).cap_table@.len(),
    {
        let index = self.cap_table.len() as u32;
        self.cap_table.push(handle);
        proof {
            assert(self.segs() =~~= old(self).segs());
        }
        index
    }

    /// Allocates `n` zeroed words inside segment `seg` if it still has room;
    /// used for far-pointer landing pads, which must land in the target's
    /// segment. Returns the word offset of the region.
    pub fn allocate_in(&mut self, seg: u32, n: u64) -> (r: Option<u64>)
        requires
            old(self).wf(),
            seg < old(self).segs().len(),
            n >= 1,
        ensures
            final(self).wf(),
            final(self).segs() == old(self).segs(),
            final(self).cap_table@ == old(self).cap_table@,
            final(self).next_size == old(self).next_size,
            r is Some <==> old(self).fill@[seg as int] + n
                <= old(self).segs()[seg as int].len(),
            r is Some ==> {
                &&& r->0 == old(self).fill@[seg as int]
                &&& final(self).fill@ == old(self).fill@.update(seg as int, (r->0 + n) as u64)
                &&& forall|j: int|
                    r->0 <= j < r->0 + n ==> final(self).segs()[seg as int][j] == 0
            },
            r is None ==> final(self).fill@ == old(self).fill@,
    {
        let cur = self.fill[seg as usize];
        let cap = self.segments[seg as usize].len() as u64;
        if n <= cap - cur {
            self.fill[seg as usize] = cur + n;
            Some(cur)
        } else {
            None
        }
    }

    /// Allocates `n` zeroed words: in the current (last) segment if it has
    /// room, else in a fresh zeroed segment of at least `max(n, next_size)`
    /// words, after which `next_size` doubles up to the segment-size cap —
    /// the geometric growth policy. Previously returned regions never move.
    pub fn allocate(&mut self, n: u64) -> (r: (u32, u64))
        requires
            old(self).wf(),
            old(self).segs().len() < 0xffff_ffff,
            1 <= n <= MAX_SEGMENT_WORDS,
        ensures
            final(self).wf(),
            final(self).cap_table@ == old(self).cap_table@,
            old(self).segs().len() <= final(self).segs().len() <= old(self).segs().len() + 1,
            r.0 == old(self).segs().len() - 1 || r.0 == old(self).segs().len(),
            old(self).fill@[old(self).segs().len() - 1] + n > old(self).segs()[old(self).segs().len() - 1].len() ==> r.0 == old(self).segs().len(),
            r.0 == old(self).segs().len() ==> final(self).segs()[r.0 as int].len() >= n
                && final(self).segs()[r.0 as int].len() >= old(self).next_size,
            r.0 == old(self).segs().len() ==> final(self).next_size == (if old(self).next_size
                <= MAX_SEGMENT_WORDS / 2 {
                2 * old(self).next_size
            } else {
                MAX_SEGMENT_WORDS as int
            }),
            r.0 < old(self).segs().len() ==> final(self).next_size == old(self).next_size
                && final(self).segs() == old(self).segs(),
            forall|i: int|
                0 <= i < old(self).segs().len() ==> final(self).segs()[i] == old(self).segs()[i],
            forall|i: int|
                0 <= i < old(self).segs().len() && i != r.0 ==> final(self).fill@[i] == old(
                    self,
                ).fill@[i],
            r.0 < final(self).segs().len(),
            old(self).fill@[old(self).segs().len() - 1] + n <= old(self).segs()[old(
                self,
            ).segs().len() - 1].len() ==> final(self).segs().len() == old(self).segs().len()
                && r.0 == old(self).segs().len() - 1,
            r.0 < old(self).segs().len() ==> r.1 == old(self).fill@[r.0 as int],
            r.0 >= old(self).segs().len() ==> r.1 == 0 && r.0 == old(self).segs().len(),
            r.1 + n <= final(self).segs()[r.0 as int].len(),
            r.1 + n == final(self).fill@[r.0 as int],
            forall|j: int| r.1 <= j < r.1 + n ==> final(self).segs()[r.0 as int][j] == 0,
            final(self).segs()[r.0 as int].len() <= MAX_SEGMENT_WORDS,
    {
        let last = self.segments.len() - 1;
        let cur = self.fill[last];
        let cap = self.segments[last].len() as u64;
        if n <= cap - cur {
            self.fill[last] = cur + n;
            (last as u32, cur)
        } else {
            let size: u64 = if n > self.next_size {
                n
            } else {
                self.next_size
            };
            let fresh = zeroed_words(size);
            let seg = self.segments.len() as u32;
            self.segments.push(fresh);
            self.fill.push(n);
            if self.next_size <= MAX_SEGMENT_WORDS / 2 {
                self.next_size = self.next_size * 2;
            } else {
                self.next_size = MAX_SEGMENT_WORDS;
            }
            proof {
                assert(forall|i: int|
                    0 <= i < old(self).segs().len() ==> #[trigger] self.segs()[i] == old(
                        self,
                    ).segs()[i]);
            }
            (seg, 0)
        }
    }
}

/// A zeroed word vector of the given length.
pub fn zeroed_words(n: u64) -> (v: Vec<u64>)
    requires
        n <= MAX_SEGMENT_WORDS,
    ensures
        v@.len() == n,
        forall|j: int| 0 <= j < n ==> v@[j] == 0,
{
    let mut v: Vec<u64> = Vec::new();
    let mut i: u64 = 0;
    while i < n
        invariant
            i <= n,
            v@.len() == i,
            forall|j: int| 0 <= j < i ==> v@[j] == 0,
        decreases n - i,
    {
        v.push(0);
        i = i + 1;
    }
    v
}

} // verus!
