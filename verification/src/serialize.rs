//! The unpacked wire codec: a segment table followed by the raw words.
//!
//! Wire layout, byte-exact: a little-endian 4-byte "segment count minus
//! one", one little-endian 4-byte word count per segment, zero padding up to
//! the next 8-byte boundary, then each segment's words in order.

use vstd::prelude::*;
use vstd::slice::slice_subrange;
use vstd::string::StringExecFns;
use crate::Error;
use crate::arena::ReaderOptions;
use crate::bits;
use crate::message::MessageBuilder;
use crate::message::MessageReader;

verus! {

/// The first `i` segments' word counts, as little-endian table entries.
pub open spec fn counts_bytes(segs: Seq<Seq<u64>>, i: int) -> Seq<u8>
    decreases i,
{
    if i <= 0 {
        Seq::empty()
    } else {
        counts_bytes(segs, i - 1) + bits::le_bytes_of_u32(segs[i - 1].len() as u32)
    }
}

/// The first `i` segments' words, as one little-endian byte stream.
pub open spec fn segments_bytes(segs: Seq<Seq<u64>>, i: int) -> Seq<u8>
    decreases i,
{
    if i <= 0 {
        Seq::empty()
    } else {
        segments_bytes(segs, i - 1) + bits::bytes_of_words(segs[i - 1])
    }
}

/// The complete unpacked wire image of a message's segments.
pub open spec fn spec_serialize(segs: Seq<Seq<u64>>) -> Seq<u8> {
    bits::le_bytes_of_u32((segs.len() - 1) as u32) + counts_bytes(segs, segs.len() as int) + (if (
    segs.len() % 2) == 0 {
        seq![0u8, 0u8, 0u8, 0u8]
    } else {
        Seq::empty()
    }) + segments_bytes(segs, segs.len() as int)
}

/// Serialises a message to its unpacked wire bytes.
pub fn write_message(m: &MessageBuilder) -> (out: Vec<u8>)
    requires
        m.wf(),
    ensures
        out@ == spec_serialize(m.output_segs()),
{
    let ghost osegs = m.output_segs();
    let n = m.arena.segments.len();
    let mut out: Vec<u8> = Vec::new();
    bits::push_u32_le_bytes(&mut out, (n - 1) as u32);
    let mut i: usize = 0;
    while i < n
        invariant
            m.wf(),
            osegs == m.output_segs(),
            n == m.arena.segs().len(),
            n <= 0xffff_ffff,
            i <= n,
            out@ == bits::le_bytes_of_u32((n - 1) as u32) + counts_bytes(osegs, i as int),
        decreases n - i,
    {
        let f = m.arena.segment_fill(i as u32);
        proof {
            assert(m.arena.fill@[i as int] <= m.arena.segs()[i as int].len());
            assert(m.arena.segs()[i as int].len() <= crate::arena::MAX_SEGMENT_WORDS);
            assert(osegs[i as int].len() == m.arena.fill@[i as int]);
        }
        bits::push_u32_le_bytes(&mut out, f as u32);
        proof {
            assert(out@ =~= bits::le_bytes_of_u32((n - 1) as u32) + counts_bytes(
                osegs,
                i as int + 1,
            ));
        }
        i = i + 1;
    }
    if n % 2 == 0 {
        out.push(0);
        out.push(0);
        out.push(0);
        out.push(0);
    }
    let ghost table = bits::le_bytes_of_u32((n - 1) as u32) + counts_bytes(osegs, n as int) + (if (
    osegs.len() % 2) == 0 {
        seq![0u8, 0u8, 0u8, 0u8]
    } else {
        Seq::<u8>::empty()
    });
    proof {
        assert(out@ =~= table + segments_bytes(osegs, 0));
    }
    let mut i: usize = 0;
    while i < n
        invariant
            m.wf(),
            osegs == m.output_segs(),
            n == m.arena.segs().len(),
            i <= n,
            out@ == table + segments_bytes(osegs, i as int),
        decreases n - i,
    {
        let f = m.arena.segment_fill(i as u32);
        let ghost seg_words = osegs[i as int];
        let mut j: u64 = 0;
        proof {
            assert(seg_words.take(0) =~= Seq::<u64>::empty());
            assert(out@ =~= table + segments_bytes(osegs, i as int) + bits::bytes_of_words(
                seg_words.take(0),
            ));
        }
        while j < f
            invariant
                m.wf(),
                osegs == m.output_segs(),
                n == m.arena.segs().len(),
                i < n,
                f == m.arena.fill@[i as int],
                seg_words == osegs[i as int],
                seg_words.len() == f,
                j <= f,
                out@ == table + segments_bytes(osegs, i as int) + bits::bytes_of_words(
                    seg_words.take(j as int),
                ),
            decreases f - j,
        {
            proof {
                assert(m.arena.fill@[i as int] <= m.arena.segs()[i as int].len());
                assert(seg_words[j as int] == m.arena.segs()[i as int][j as int]);
            }
            let w = m.arena.get_word(i as u32, j);
            bits::push_word_le_bytes(&mut out, w);
            proof {
                bits::lemma_bytes_of_words_snoc(seg_words.take(j as int), w);
                assert(seg_words.take(j as int).push(w) =~= seg_words.take(j as int + 1));
                assert(out@ =~= table + segments_bytes(osegs, i as int) + bits::bytes_of_words(
                    seg_words.take(j as int + 1),
                ));
            }
            j = j + 1;
        }
        proof {
            assert(seg_words.take(f as int) =~= seg_words);
            assert(out@ =~= table + segments_bytes(osegs, i as int + 1));
        }
        i = i + 1;
    }
    out
}

/// Segment sets the wire format can carry: at least one segment, counts and
/// sizes within their 32-bit table fields.
pub open spec fn wf_segments(segs: Seq<Seq<u64>>) -> bool {
    &&& 1 <= segs.len() <= 0xffff_ffff
    &&& forall|i: int| 0 <= i < segs.len() ==> (#[trigger] segs[i]).len() <= 0xffff_ffff
}

/// Total words of the first `i` segments.
pub open spec fn seg_words(segs: Seq<Seq<u64>>, i: int) -> int
    decreases i,
{
    if i <= 0 {
        0
    } else {
        seg_words(segs, i - 1) + segs[i - 1].len()
    }
}

proof fn lemma_counts_bytes_len(segs: Seq<Seq<u64>>, i: int)
    requires
        0 <= i,
    ensures
        counts_bytes(segs, i).len() == 4 * i,
    decreases i,
{
    if i > 0 {
        lemma_counts_bytes_len(segs, i - 1);
    }
}

proof fn lemma_segments_bytes_len(segs: Seq<Seq<u64>>, i: int)
    requires
        0 <= i,
    ensures
        segments_bytes(segs, i).len() == 8 * seg_words(segs, i),
        seg_words(segs, i) >= 0,
    decreases i,
{
    if i > 0 {
        lemma_segments_bytes_len(segs, i - 1);
        bits::lemma_bytes_of_words_len(segs[i - 1]);
    }
}

proof fn lemma_counts_bytes_block(segs: Seq<Seq<u64>>, k: int, i: int)
    requires
        0 <= k < i,
    ensures
        counts_bytes(segs, i).subrange(4 * k, 4 * k + 4) == bits::le_bytes_of_u32(
            segs[k].len() as u32,
        ),
    decreases i,
{
    lemma_counts_bytes_len(segs, i - 1);
    if k == i - 1 {
        assert(counts_bytes(segs, i).subrange(4 * k, 4 * k + 4) =~= bits::le_bytes_of_u32(
            segs[k].len() as u32,
        ));
    } else {
        lemma_counts_bytes_block(segs, k, i - 1);
        assert(counts_bytes(segs, i).subrange(4 * k, 4 * k + 4) =~= counts_bytes(
            segs,
            i - 1,
        ).subrange(4 * k, 4 * k + 4));
    }
}

/// The shape of a serialized image: its length, its header field, its table
/// entries, and its zero padding, read back from the byte stream.
proof fn lemma_serialize_shape(segs: Seq<Seq<u64>>)
    requires
        wf_segments(segs),
    ensures
        seg_words(segs, segs.len() as int) >= 0,
        spec_serialize(segs).len() == 4 + 4 * (segs.len() as int) + (if (segs.len() % 2) == 0 {
            4int
        } else {
            0int
        }) + 8 * seg_words(segs, segs.len() as int),
        spec_serialize(segs).subrange(0, 4) == bits::le_bytes_of_u32((segs.len() - 1) as u32),
        forall|k: int|
            0 <= k < segs.len() ==> #[trigger] spec_serialize(segs).subrange(4 + 4 * k, 8 + 4 * k)
                == bits::le_bytes_of_u32(segs[k].len() as u32),
        (segs.len() % 2) == 0 ==> spec_serialize(segs).subrange(
            4 + 4 * (segs.len() as int),
            8 + 4 * (segs.len() as int),
        ) == seq![0u8, 0u8, 0u8, 0u8],
{
    let n = segs.len() as int;
    let b = spec_serialize(segs);
    lemma_counts_bytes_len(segs, n);
    lemma_segments_bytes_len(segs, n);
    assert(b.subrange(0, 4) =~= bits::le_bytes_of_u32((segs.len() - 1) as u32));
    assert forall|k: int| 0 <= k < n implies #[trigger] b.subrange(4 + 4 * k, 8 + 4 * k)
        == bits::le_bytes_of_u32(segs[k].len() as u32) by {
        lemma_counts_bytes_block(segs, k, n);
        assert(b.subrange(4 + 4 * k, 8 + 4 * k) =~= counts_bytes(segs, n).subrange(
            4 * k,
            4 * k + 4,
        ));
    }
    if (segs.len() % 2) == 0 {
        assert(b.subrange(4 + 4 * n, 8 + 4 * n) =~= seq![0u8, 0u8, 0u8, 0u8]);
    }
}

/// Equal table entries give equal word totals.
proof fn lemma_sum_counts_matches(counts: Seq<u32>, segs: Seq<Seq<u64>>, i: int)
    requires
        0 <= i <= counts.len(),
        i <= segs.len(),
        forall|k: int| 0 <= k < i ==> counts[k] == (#[trigger] segs[k]).len(),
    ensures
        sum_counts(counts, i) == seg_words(segs, i),
    decreases i,
{
    if i > 0 {
        lemma_sum_counts_matches(counts, segs, i - 1);
    }
}

proof fn lemma_seg_words_mono(segs: Seq<Seq<u64>>, i: int, j: int)
    requires
        0 <= i <= j,
    ensures
        seg_words(segs, i) <= seg_words(segs, j),
    decreases j,
{
    if i < j {
        lemma_seg_words_mono(segs, i, j - 1);
    }
}

proof fn lemma_segments_bytes_block(segs: Seq<Seq<u64>>, k: int, i: int)
    requires
        0 <= k < i,
    ensures
        segments_bytes(segs, i).subrange(
            8 * seg_words(segs, k),
            8 * seg_words(segs, k) + 8 * segs[k].len(),
        ) == bits::bytes_of_words(segs[k]),
    decreases i,
{
    lemma_segments_bytes_len(segs, i - 1);
    lemma_segments_bytes_len(segs, k);
    bits::lemma_bytes_of_words_len(segs[i - 1]);
    if k == i - 1 {
        assert(segments_bytes(segs, i).subrange(
            8 * seg_words(segs, k),
            8 * seg_words(segs, k) + 8 * segs[k].len(),
        ) =~= bits::bytes_of_words(segs[k]));
    } else {
        lemma_segments_bytes_block(segs, k, i - 1);
        lemma_seg_words_mono(segs, k + 1, i - 1);
        assert(segments_bytes(segs, i).subrange(
            8 * seg_words(segs, k),
            8 * seg_words(segs, k) + 8 * segs[k].len(),
        ) =~= segments_bytes(segs, i - 1).subrange(
            8 * seg_words(segs, k),
            8 * seg_words(segs, k) + 8 * segs[k].len(),
        ));
    }
}

proof fn lemma_seg_words_pointwise(a: Seq<Seq<u64>>, b: Seq<Seq<u64>>, i: int)
    requires
        0 <= i <= a.len(),
        i <= b.len(),
        forall|k: int| 0 <= k < i ==> (#[trigger] a[k]).len() == b[k].len(),
    ensures
        seg_words(a, i) == seg_words(b, i),
    decreases i,
{
    if i > 0 {
        lemma_seg_words_pointwise(a, b, i - 1);
    }
}

/// The wire image determines the message: two segment sets with the same
/// serialisation are equal. Together with the parser's contract — whatever
/// it returns re-serialises byte-exactly to its input, and a valid image is
/// always accepted — this pins the full round trip: deserialising a
/// serialised message yields exactly the segments that were written.
pub proof fn lemma_serialize_injective(a: Seq<Seq<u64>>, b: Seq<Seq<u64>>)
    requires
        wf_segments(a),
        wf_segments(b),
        spec_serialize(a) == spec_serialize(b),
    ensures
        a == b,
{
    lemma_serialize_shape(a);
    lemma_serialize_shape(b);
    bits::lemma_u32_le_roundtrip((a.len() - 1) as u32);
    bits::lemma_u32_le_roundtrip((b.len() - 1) as u32);
    assert(bits::u32_of_le_bytes(spec_serialize(a).subrange(0, 4)) == (a.len() - 1) as u32);
    assert(a.len() == b.len());
    let n = a.len() as int;
    assert forall|k: int| 0 <= k < n implies (#[trigger] a[k]).len() == b[k].len() by {
        bits::lemma_u32_le_roundtrip(a[k].len() as u32);
        bits::lemma_u32_le_roundtrip(b[k].len() as u32);
        assert(spec_serialize(a).subrange(4 + 4 * k, 8 + 4 * k) == spec_serialize(b).subrange(
            4 + 4 * k,
            8 + 4 * k,
        ));
    }
    let table = 4 + 4 * n + if (a.len() % 2) == 0 {
        4int
    } else {
        0int
    };
    lemma_counts_bytes_len(a, n);
    lemma_counts_bytes_len(b, n);
    lemma_segments_bytes_len(a, n);
    lemma_segments_bytes_len(b, n);
    assert forall|k: int| 0 <= k < n implies #[trigger] a[k] == b[k] by {
        lemma_segments_bytes_block(a, k, n);
        lemma_segments_bytes_block(b, k, n);
        lemma_seg_words_pointwise(a, b, k);
        assert(segments_bytes(a, n) =~= spec_serialize(a).subrange(
            table,
            spec_serialize(a).len() as int,
        ));
        assert(segments_bytes(b, n) =~= spec_serialize(b).subrange(
            table,
            spec_serialize(b).len() as int,
        ));
        assert(bits::bytes_of_words(a[k]) == bits::bytes_of_words(b[k]));
        bits::lemma_words_bytes_roundtrip(a[k]);
        bits::lemma_words_bytes_roundtrip(b[k]);
    }
    assert(a =~= b);
}

/// Every built message's output segments lie within the wire format's table
/// bounds, so its image satisfies the parser's acceptance obligation.
pub proof fn lemma_output_segs_wf(m: &MessageBuilder)
    requires
        m.wf(),
    ensures
        wf_segments(m.output_segs()),
{
    assert forall|i: int| 0 <= i < m.output_segs().len() implies (
    #[trigger] m.output_segs()[i]).len() <= 0xffff_ffff by {
        assert(m.arena.fill@[i] <= m.arena.segs()[i].len());
        assert(m.arena.segs()[i].len() <= crate::arena::MAX_SEGMENT_WORDS);
    }
}

/// Parses an unpacked wire image back into a message reader, without the
/// capability table (supply one with `read_message_with_caps`). The declared
/// sizes are validated against the actual stream length: truncated or
/// oversized input is a decode error, never an out-of-bounds read.
pub fn read_message(bytes: &[u8], options: ReaderOptions) -> (r: crate::Result<MessageReader>)
    ensures
        r is Ok ==> (r->Ok_0).wf() && bytes@ == spec_serialize((r->Ok_0).arena.segs())
            && (r->Ok_0).arena.read_limit == options.traversal_limit_in_words
            && (r->Ok_0).arena.nesting_limit == options.nesting_limit
            && (r->Ok_0).arena.cap_table@.len() == 0,
        (exists|segs: Seq<Seq<u64>>| wf_segments(segs) && bytes@ == spec_serialize(segs)) ==> r
            is Ok,
        r is Err ==> (r->Err_0).kind is Failed,
{
    read_message_with_caps(bytes, options, Vec::new())
}

/// Parses an unpacked wire image back into a message reader, attaching a
/// capability table supplied by the transport. On success the returned
/// segments are exactly the ones whose wire image is the input: the codec
/// accepts canonical images only (zero table padding) and rejects any size
/// mismatch.
#[verifier::rlimit(100)]
pub fn read_message_with_caps(bytes: &[u8], options: ReaderOptions, cap_table: Vec<u64>) -> (r:
    crate::Result<MessageReader>)
    ensures
        r is Ok ==> (r->Ok_0).wf() && bytes@ == spec_serialize((r->Ok_0).arena.segs())
            && (r->Ok_0).arena.read_limit == options.traversal_limit_in_words
            && (r->Ok_0).arena.nesting_limit == options.nesting_limit
            && (r->Ok_0).arena.cap_table@ == cap_table@,
        (exists|segs: Seq<Seq<u64>>| wf_segments(segs) && bytes@ == spec_serialize(segs)) ==> r
            is Ok,
        r is Err ==> (r->Err_0).kind is Failed,
{
    if bytes.len() < 8 {
        proof {
            if exists|segs: Seq<Seq<u64>>| wf_segments(segs) && bytes@ == spec_serialize(segs) {
                let segs = choose|segs: Seq<Seq<u64>>|
                    wf_segments(segs) && bytes@ == spec_serialize(segs);
                lemma_serialize_shape(segs);
                assert(false);
            }
        }
        return Err(
            Error::new_decode_error(String::from_str("message is shorter than a segment table")),
        );
    }
    let n_minus_one = bits::read_u32_le(bytes, 0);
    if n_minus_one == 0xffff_ffff {
        proof {
            if exists|segs: Seq<Seq<u64>>| wf_segments(segs) && bytes@ == spec_serialize(segs) {
                let segs = choose|segs: Seq<Seq<u64>>|
                    wf_segments(segs) && bytes@ == spec_serialize(segs);
                lemma_serialize_shape(segs);
                bits::lemma_u32_le_roundtrip((segs.len() - 1) as u32);
                assert(false);
            }
        }
        return Err(
            Error::new_decode_error(String::from_str("message declares too many segments")),
        );
    }
    let n = (n_minus_one as u64) + 1;
    let blen: usize = bytes.len();
    let table_len: u64 = if n % 2 == 0 {
        4 + 4 * n + 4
    } else {
        4 + 4 * n
    };
    if (bytes.len() as u64) < table_len {
        proof {
            if exists|segs: Seq<Seq<u64>>| wf_segments(segs) && bytes@ == spec_serialize(segs) {
                let segs = choose|segs: Seq<Seq<u64>>|
                    wf_segments(segs) && bytes@ == spec_serialize(segs);
                lemma_serialize_shape(segs);
                bits::lemma_u32_le_roundtrip((segs.len() - 1) as u32);
                assert(n == segs.len());
                assert(false);
            }
        }
        return Err(
            Error::new_decode_error(String::from_str("message is shorter than its segment table")),
        );
    }
    // Word counts, and the total words declared.
    let mut counts: Vec<u32> = Vec::new();
    let mut total: u64 = 0;
    let mut i: u64 = 0;
    let mut tpos: usize = 4;
    while i < n
        invariant
            blen == bytes@.len(),
            bytes@.len() >= table_len,
            table_len >= 4 + 4 * n,
            i <= n,
            n <= 0xffff_ffff,
            counts@.len() == i,
            tpos == 4 + 4 * i,
            total <= 0xffff_ffff * i,
            total == sum_counts(counts@, i as int),
            forall|k: int|
                0 <= k < i ==> counts@[k] == bits::u32_of_le_bytes(
                    bytes@.subrange(4 + 4 * k, 8 + 4 * k),
                ),
        decreases n - i,
    {
        let c = bits::read_u32_le(bytes, tpos);
        let ghost prev = counts@;
        counts.push(c);
        proof {
            lemma_sum_counts_push(prev, c, i as int);
            lemma_sum_counts_step(counts@, i as int);
            assert forall|k: int| 0 <= k < i + 1 implies counts@[k] == bits::u32_of_le_bytes(
                bytes@.subrange(4 + 4 * k, 8 + 4 * k),
            ) by {
                if k < i {
                    assert(counts@[k] == prev[k]);
                } else {
                    assert(counts@[k] == c);
                }
            }
        }
        total = total + c as u64;
        proof {
            assert(tpos + 4 <= table_len);
            assert(table_len <= bytes@.len());
        }
        tpos = tpos + 4;
        i = i + 1;
    }
    // The padding of a canonical image is zero.
    if n % 2 == 0 {
        let pad = bits::read_u32_le(bytes, tpos);
        if pad != 0 {
            proof {
                if exists|segs: Seq<Seq<u64>>| wf_segments(segs) && bytes@ == spec_serialize(
                    segs,
                ) {
                    let segs = choose|segs: Seq<Seq<u64>>|
                        wf_segments(segs) && bytes@ == spec_serialize(segs);
                    lemma_serialize_shape(segs);
                    bits::lemma_u32_le_roundtrip((segs.len() - 1) as u32);
                    assert(n == segs.len());
                    assert(bits::le4(0, 0, 0, 0) == 0) by (bit_vector);
                    assert(false);
                }
            }
            return Err(
                Error::new_decode_error(
                    String::from_str("segment table padding holds nonzero bytes"),
                ),
            );
        }
    }
    // Exact length check, computed without overflow.
    let body_len = (bytes.len() as u64) - table_len;
    if body_len % 8 != 0 || body_len / 8 != total {
        proof {
            if exists|segs: Seq<Seq<u64>>| wf_segments(segs) && bytes@ == spec_serialize(segs) {
                let segs = choose|segs: Seq<Seq<u64>>|
                    wf_segments(segs) && bytes@ == spec_serialize(segs);
                lemma_serialize_shape(segs);
                bits::lemma_u32_le_roundtrip((segs.len() - 1) as u32);
                assert(n == segs.len());
                assert forall|k: int| 0 <= k < n implies counts@[k] == (
                #[trigger] segs[k]).len() by {
                    bits::lemma_u32_le_roundtrip(segs[k].len() as u32);
                }
                lemma_sum_counts_matches(counts@, segs, n as int);
                assert(body_len == 8 * seg_words(segs, n as int));
                assert(false);
            }
        }
        return Err(
            Error::new_decode_error(
                String::from_str("declared segment sizes do not match the stream length"),
            ),
        );
    }
    // Cut the body into segments.
    let mut segments: Vec<Vec<u64>> = Vec::new();
    let mut pos: usize = table_len as usize;
    let mut i: usize = 0;
    while i < counts.len()
        invariant
            blen == bytes@.len(),
            bytes@.len() == table_len + 8 * total,
            table_len >= 8,
            counts@.len() == n,
            n <= 0xffff_ffff,
            i <= n,
            segments@.len() == i,
            pos <= bytes@.len(),
            pos == table_len + 8 * sum_counts(counts@, i as int),
            sum_counts(counts@, n as int) == total,
            sum_counts(counts@, i as int) <= total,
            forall|k: int|
                0 <= k < i ==> (#[trigger] segments@[k])@ == bits::words_of_bytes(
                    bytes@.subrange(
                        table_len + 8 * sum_counts(counts@, k),
                        table_len + 8 * sum_counts(counts@, k) + 8 * counts@[k],
                    ),
                ),
            forall|k: int| 0 <= k < i ==> (#[trigger] segments@[k])@.len() == counts@[k],
        decreases counts@.len() - i,
    {
        let c = counts[i];
        proof {
            lemma_sum_counts_step(counts@, i as int);
            lemma_sum_counts_mono(counts@, i as int + 1, n as int);
            assert(sum_counts(counts@, i as int + 1) == sum_counts(counts@, i as int) + c);
            assert(pos + 8 * (c as int) <= bytes@.len());
            assert(8 * (c as int) <= bytes@.len());
        }
        let seg_slice = slice_subrange(bytes, pos, pos + 8 * (c as usize));
        let words = bits::le_bytes_to_words(seg_slice);
        proof {
            bits::lemma_words_of_bytes_len(seg_slice@);
        }
        segments.push(words);
        pos = pos + 8 * (c as usize);
        i = i + 1;
    }
    let reader = MessageReader::new(segments, options, cap_table);
    proof {
        bits::lemma_le_u32_roundtrip(bytes@.subrange(0, 4));
        if n % 2 == 0 {
            bits::lemma_le_u32_roundtrip(bytes@.subrange(4 + 4 * (n as int), 8 + 4 * (n as int)));
            assert((0u32 & 0xff) as u8 == 0 && ((0u32 >> 8u32) & 0xff) as u8 == 0 && ((0u32
                >> 16u32) & 0xff) as u8 == 0 && ((0u32 >> 24u32) & 0xff) as u8 == 0)
                by (bit_vector);
            assert(bits::le_bytes_of_u32(0) =~= seq![0u8, 0u8, 0u8, 0u8]);
        }
        assert forall|k: int| 0 <= k < n implies (#[trigger] reader.arena.segs()[k])
            == bits::words_of_bytes(
            bytes@.subrange(
                table_len as int + 8 * sum_counts(counts@, k),
                table_len as int + 8 * sum_counts(counts@, k) + 8 * counts@[k],
            ),
        ) by {
            assert(reader.arena.segs()[k] == segments@[k]@);
        }
        assert forall|k: int| 0 <= k < n implies (#[trigger] reader.arena.segs()[k]).len()
            == counts@[k] by {
            assert(reader.arena.segs()[k] == segments@[k]@);
        }
        lemma_parse_reconstruct(bytes@, reader.arena.segs(), counts@, table_len as int);
    }
    Ok(reader)
}

/// Total words of the first `i` table entries.
pub open spec fn sum_counts(counts: Seq<u32>, i: int) -> int
    decreases i,
{
    if i <= 0 {
        0
    } else {
        sum_counts(counts, i - 1) + counts[i - 1]
    }
}

proof fn lemma_sum_counts_push(s: Seq<u32>, c: u32, i: int)
    requires
        0 <= i <= s.len(),
    ensures
        sum_counts(s.push(c), i) == sum_counts(s, i),
    decreases i,
{
    if i > 0 {
        lemma_sum_counts_push(s, c, i - 1);
        assert(s.push(c)[i - 1] == s[i - 1]);
    }
}

proof fn lemma_sum_counts_step(counts: Seq<u32>, i: int)
    requires
        0 <= i < counts.len(),
    ensures
        sum_counts(counts, i + 1) == sum_counts(counts, i) + counts[i],
{
}

proof fn lemma_sum_counts_mono(counts: Seq<u32>, i: int, n: int)
    requires
        0 <= i <= n <= counts.len(),
    ensures
        sum_counts(counts, i) <= sum_counts(counts, n),
    decreases n - i,
{
    if i < n {
        lemma_sum_counts_mono(counts, i + 1, n);
    }
}

/// A byte stream whose table entries and segment bodies were read back as
/// `segs` is exactly the serialisation of `segs`.
proof fn lemma_parse_reconstruct(b: Seq<u8>, segs: Seq<Seq<u64>>, counts: Seq<u32>, table_len: int)
    requires
        1 <= segs.len() == counts.len() <= 0xffff_ffff,
        table_len == 4 + 4 * (segs.len() as int) + if (segs.len() % 2) == 0 {
            4int
        } else {
            0int
        },
        b.len() == table_len + 8 * sum_counts(counts, counts.len() as int),
        b.subrange(0, 4) == bits::le_bytes_of_u32((segs.len() - 1) as u32),
        forall|k: int|
            0 <= k < counts.len() ==> counts[k] == bits::u32_of_le_bytes(
                b.subrange(4 + 4 * k, 8 + 4 * k),
            ),
        (segs.len() % 2) == 0 ==> b.subrange(4 + 4 * (segs.len() as int), table_len) == seq![
            0u8,
            0u8,
            0u8,
            0u8,
        ],
        forall|k: int|
            0 <= k < segs.len() ==> (#[trigger] segs[k]) == bits::words_of_bytes(
                b.subrange(
                    table_len + 8 * sum_counts(counts, k),
                    table_len + 8 * sum_counts(counts, k) + 8 * counts[k],
                ),
            ),
        forall|k: int| 0 <= k < segs.len() ==> (#[trigger] segs[k]).len() == counts[k],
    ensures
        b == spec_serialize(segs),
{
    let n = segs.len() as int;
    lemma_sum_counts_mono(counts, 0, n);
    lemma_counts_prefix(b, segs, counts, n);
    lemma_segments_prefix(b, segs, counts, table_len, n);
    assert(bits::le_bytes_of_u32((segs.len() - 1) as u32) =~= b.subrange(0, 4));
    assert(b =~= b.subrange(0, 4) + b.subrange(4, 4 + 4 * n) + b.subrange(4 + 4 * n, table_len)
        + b.subrange(table_len, b.len() as int));
    assert(b =~= spec_serialize(segs));
}

/// The first `i` table entries of `b` spell `counts_bytes(segs, i)`.
proof fn lemma_counts_prefix(b: Seq<u8>, segs: Seq<Seq<u64>>, counts: Seq<u32>, i: int)
    requires
        0 <= i <= segs.len() == counts.len(),
        b.len() >= 4 + 4 * (segs.len() as int),
        forall|k: int|
            0 <= k < counts.len() ==> counts[k] == bits::u32_of_le_bytes(
                b.subrange(4 + 4 * k, 8 + 4 * k),
            ),
        forall|k: int| 0 <= k < segs.len() ==> (#[trigger] segs[k]).len() == counts[k],
    ensures
        counts_bytes(segs, i) == b.subrange(4, 4 + 4 * i),
    decreases i,
{
    if i == 0 {
        assert(counts_bytes(segs, 0) =~= b.subrange(4, 4));
    } else {
        lemma_counts_prefix(b, segs, counts, i - 1);
        bits::lemma_le_u32_roundtrip(b.subrange(4 + 4 * (i - 1), 8 + 4 * (i - 1)));
        assert(counts_bytes(segs, i) =~= b.subrange(4, 4 + 4 * i));
    }
}

/// The first `i` segment bodies of `b` spell `segments_bytes(segs, i)`.
proof fn lemma_segments_prefix(
    b: Seq<u8>,
    segs: Seq<Seq<u64>>,
    counts: Seq<u32>,
    table_len: int,
    i: int,
)
    requires
        0 <= i <= segs.len() == counts.len(),
        table_len >= 0,
        b.len() == table_len + 8 * sum_counts(counts, counts.len() as int),
        forall|k: int|
            0 <= k < segs.len() ==> (#[trigger] segs[k]) == bits::words_of_bytes(
                b.subrange(
                    table_len + 8 * sum_counts(counts, k),
                    table_len + 8 * sum_counts(counts, k) + 8 * counts[k],
                ),
            ),
        forall|k: int| 0 <= k < segs.len() ==> (#[trigger] segs[k]).len() == counts[k],
    ensures
        segments_bytes(segs, i) == b.subrange(table_len, table_len + 8 * sum_counts(counts, i)),
    decreases i,
{
    lemma_sum_counts_mono(counts, 0, counts.len() as int);
    if i == 0 {
        assert(segments_bytes(segs, 0) =~= b.subrange(table_len, table_len));
    } else {
        lemma_segments_prefix(b, segs, counts, table_len, i - 1);
        lemma_sum_counts_step(counts, i - 1);
        lemma_sum_counts_mono(counts, 0, i - 1);
        lemma_sum_counts_mono(counts, i as int, counts.len() as int);
        let sub = b.subrange(
            table_len + 8 * sum_counts(counts, i - 1),
            table_len + 8 * sum_counts(counts, i - 1) + 8 * counts[i - 1],
        );
        assert(sub.len() % 8 == 0);
        bits::lemma_bytes_words_roundtrip(sub);
        assert(segments_bytes(segs, i) =~= b.subrange(
            table_len,
            table_len + 8 * sum_counts(counts, i),
        ));
    }
}

} // verus!
