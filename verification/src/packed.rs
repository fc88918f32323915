//! The packed wire codec: a zero-byte run-length transform over the unpacked
//! byte stream.
//!
//! Grammar, byte-oriented over whole words: each word is preceded by a tag
//! byte whose bit `i` says whether byte `i` of the word is transmitted
//! literally (unset bits are implicit zero bytes). A tag of 0x00 is followed
//! by one count byte of additional all-zero words; a tag of 0xFF is followed
//! by the word's eight bytes and one count byte of additional words to copy
//! verbatim. The packer here emits the minimal form of that grammar (run
//! counts of zero); the unpacker accepts the full grammar, so foreign
//! streams with longer runs decode too.

use vstd::prelude::*;
use vstd::string::StringExecFns;
use crate::Error;

verus! {

/// One when the byte is transmitted literally, zero when it is an implicit
/// zero byte.
pub open spec fn ind(x: u8) -> int {
    if x != 0 {
        1
    } else {
        0
    }
}

/// The tag byte of a word: bit `i` set exactly when byte `i` is nonzero.
pub open spec fn tag_of(w: Seq<u8>) -> u8
    recommends
        w.len() == 8,
{
    (ind(w[0]) + 2 * ind(w[1]) + 4 * ind(w[2]) + 8 * ind(w[3]) + 16 * ind(w[4]) + 32 * ind(w[5])
        + 64 * ind(w[6]) + 128 * ind(w[7])) as u8
}

/// The first `j` literal (nonzero) bytes of a word, in order.
pub open spec fn lits_pre(w: Seq<u8>, j: int) -> Seq<u8>
    decreases j,
{
    if j <= 0 {
        Seq::empty()
    } else {
        lits_pre(w, j - 1) + (if w[j - 1] != 0 {
            seq![w[j - 1]]
        } else {
            Seq::empty()
        })
    }
}

/// The packed form of one word: its tag byte, its literal bytes, and for the
/// all-zero and all-literal tags one run-count byte (zero: this packer emits
/// minimal runs).
pub open spec fn pack_word(w: Seq<u8>) -> Seq<u8>
    recommends
        w.len() == 8,
{
    if tag_of(w) == 0 {
        seq![0u8, 0u8]
    } else if tag_of(w) == 0xff {
        seq![0xffu8] + w + seq![0u8]
    } else {
        seq![tag_of(w)] + lits_pre(w, 8)
    }
}

/// The packed form of the first `i` words of an unpacked stream.
pub open spec fn spec_pack_upto(b: Seq<u8>, i: int) -> Seq<u8>
    decreases i,
{
    if i <= 0 {
        Seq::empty()
    } else {
        spec_pack_upto(b, i - 1) + pack_word(b.subrange(8 * (i - 1), 8 * i))
    }
}

/// The packed form of a whole unpacked stream.
pub open spec fn spec_pack(b: Seq<u8>) -> Seq<u8>
    recommends
        b.len() % 8 == 0,
{
    spec_pack_upto(b, b.len() as int / 8)
}

/// Packs an unpacked byte stream (a whole number of words).
pub fn pack(bytes: &[u8]) -> (out: Vec<u8>)
    requires
        bytes@.len() % 8 == 0,
    ensures
        out@ == spec_pack(bytes@),
{
    let blen = bytes.len();
    let n = blen / 8;
    let mut out: Vec<u8> = Vec::new();
    let mut i: usize = 0;
    while i < n
        invariant
            blen == bytes@.len(),
            bytes@.len() % 8 == 0,
            n == bytes@.len() / 8,
            i <= n,
            out@ == spec_pack_upto(bytes@, i as int),
        decreases n - i,
    {
        proof {
            assert(8 * (i as int) + 8 <= bytes@.len());
        }
        let p = 8 * i;
        let ghost w = bytes@.subrange(8 * (i as int), 8 * (i as int) + 8);
        let t = word_tag(bytes, p);
        if t == 0 {
            out.push(0);
            out.push(0);
        } else if t == 0xff {
            out.push(0xff);
            let mut j: usize = 0;
            while j < 8
                invariant
                    blen == bytes@.len(),
                    i < n,
                    n == bytes@.len() / 8,
                    bytes@.len() % 8 == 0,
                    w == bytes@.subrange(8 * (i as int), 8 * (i as int) + 8),
                    p == 8 * i,
                    j <= 8,
                    out@ == spec_pack_upto(bytes@, i as int) + seq![0xffu8] + w.take(j as int),
                decreases 8 - j,
            {
                proof {
                    assert(8 * (i as int) + (j as int) < bytes@.len());
                    assert(w.take(j as int).push(w[j as int]) =~= w.take(j as int + 1));
                    assert(w[j as int] == bytes@[8 * (i as int) + (j as int)]);
                }
                out.push(bytes[p + j]);
                j = j + 1;
            }
            out.push(0);
            proof {
                assert(w.take(8) =~= w);
                assert(out@ =~= spec_pack_upto(bytes@, i as int) + (seq![0xffu8] + w + seq![0u8]));
            }
        } else {
            out.push(t);
            let mut j: usize = 0;
            while j < 8
                invariant
                    blen == bytes@.len(),
                    i < n,
                    n == bytes@.len() / 8,
                    bytes@.len() % 8 == 0,
                    w == bytes@.subrange(8 * (i as int), 8 * (i as int) + 8),
                    p == 8 * i,
                    j <= 8,
                    out@ == spec_pack_upto(bytes@, i as int) + seq![tag_of(w)] + lits_pre(
                        w,
                        j as int,
                    ),
                decreases 8 - j,
            {
                proof {
                    assert(8 * (i as int) + (j as int) < bytes@.len());
                    assert(w[j as int] == bytes@[8 * (i as int) + (j as int)]);
                }
                let b = bytes[p + j];
                if b != 0 {
                    out.push(b);
                }
                proof {
                    assert(out@ =~= spec_pack_upto(bytes@, i as int) + seq![tag_of(w)] + lits_pre(
                        w,
                        j as int + 1,
                    ));
                }
                j = j + 1;
            }
        }
        proof {
            assert(out@ =~= spec_pack_upto(bytes@, i as int + 1));
        }
        i = i + 1;
    }
    proof {
        assert(out@ =~= spec_pack(bytes@));
    }
    out
}

/// The tag byte of the word at byte offset `p`.
fn word_tag(bytes: &[u8], p: usize) -> (t: u8)
    requires
        p + 8 <= bytes@.len(),
    ensures
        t == tag_of(bytes@.subrange(p as int, p as int + 8)),
{
    let ghost w = bytes@.subrange(p as int, p as int + 8);
    let i0: u16 = if bytes[p] != 0 { 1 } else { 0 };
    let i1: u16 = if bytes[p + 1] != 0 { 1 } else { 0 };
    let i2: u16 = if bytes[p + 2] != 0 { 1 } else { 0 };
    let i3: u16 = if bytes[p + 3] != 0 { 1 } else { 0 };
    let i4: u16 = if bytes[p + 4] != 0 { 1 } else { 0 };
    let i5: u16 = if bytes[p + 5] != 0 { 1 } else { 0 };
    let i6: u16 = if bytes[p + 6] != 0 { 1 } else { 0 };
    let i7: u16 = if bytes[p + 7] != 0 { 1 } else { 0 };
    let t: u16 = i0 + 2 * i1 + 4 * i2 + 8 * i3 + 16 * i4 + 32 * i5 + 64 * i6 + 128 * i7;
    proof {
        assert(w[0] == bytes@[p as int]);
        assert(w[1] == bytes@[p as int + 1]);
        assert(w[2] == bytes@[p as int + 2]);
        assert(w[3] == bytes@[p as int + 3]);
        assert(w[4] == bytes@[p as int + 4]);
        assert(w[5] == bytes@[p as int + 5]);
        assert(w[6] == bytes@[p as int + 6]);
        assert(w[7] == bytes@[p as int + 7]);
    }
    t as u8
}

/// Bit `i` of a tag byte: whether byte `i` of the word is a literal.
pub open spec fn tag_bit(t: u8, i: int) -> int {
    if i == 0 {
        (t as int) % 2
    } else if i == 1 {
        ((t as int) / 2) % 2
    } else if i == 2 {
        ((t as int) / 4) % 2
    } else if i == 3 {
        ((t as int) / 8) % 2
    } else if i == 4 {
        ((t as int) / 16) % 2
    } else if i == 5 {
        ((t as int) / 32) % 2
    } else if i == 6 {
        ((t as int) / 64) % 2
    } else if i == 7 {
        ((t as int) / 128) % 2
    } else {
        0
    }
}

/// How many of the tag's first `i` bits are set: where byte `i`'s literal
/// sits among the word's literal bytes.
pub open spec fn tag_count(t: u8, i: int) -> int {
    if i <= 0 {
        0
    } else if i == 1 {
        tag_bit(t, 0)
    } else if i == 2 {
        tag_bit(t, 0) + tag_bit(t, 1)
    } else if i == 3 {
        tag_bit(t, 0) + tag_bit(t, 1) + tag_bit(t, 2)
    } else if i == 4 {
        tag_bit(t, 0) + tag_bit(t, 1) + tag_bit(t, 2) + tag_bit(t, 3)
    } else if i == 5 {
        tag_bit(t, 0) + tag_bit(t, 1) + tag_bit(t, 2) + tag_bit(t, 3) + tag_bit(t, 4)
    } else if i == 6 {
        tag_bit(t, 0) + tag_bit(t, 1) + tag_bit(t, 2) + tag_bit(t, 3) + tag_bit(t, 4) + tag_bit(
            t,
            5,
        )
    } else if i == 7 {
        tag_bit(t, 0) + tag_bit(t, 1) + tag_bit(t, 2) + tag_bit(t, 3) + tag_bit(t, 4) + tag_bit(
            t,
            5,
        ) + tag_bit(t, 6)
    } else {
        tag_bit(t, 0) + tag_bit(t, 1) + tag_bit(t, 2) + tag_bit(t, 3) + tag_bit(t, 4) + tag_bit(
            t,
            5,
        ) + tag_bit(t, 6) + tag_bit(t, 7)
    }
}

/// `n` zero bytes.
pub open spec fn zero_bytes(n: int) -> Seq<u8> {
    Seq::new(n as nat, |i: int| 0u8)
}

/// The word denoted by a tag byte and its literal bytes: literal bytes fill
/// the set-bit positions in order, the rest are zero.
pub open spec fn unpack_word(t: u8, l: Seq<u8>) -> Seq<u8> {
    Seq::new(
        8,
        |i: int|
            if tag_bit(t, i) == 1 {
                l[tag_count(t, i)]
            } else {
                0u8
            },
    )
}

/// The unpacked stream denoted by a packed stream, over the full grammar
/// (zero runs and verbatim runs of any length): `None` exactly when the
/// stream is truncated mid-token.
pub open spec fn spec_unpack(b: Seq<u8>) -> Option<Seq<u8>>
    decreases b.len(),
{
    if b.len() == 0 {
        Some(Seq::empty())
    } else {
        let t = b[0];
        if t == 0 {
            if b.len() < 2 {
                None
            } else {
                let rest = spec_unpack(b.skip(2));
                if rest is Some {
                    Some(zero_bytes(8 * (1 + b[1] as int)) + rest.unwrap())
                } else {
                    None
                }
            }
        } else if t == 0xff {
            if b.len() < 10 {
                None
            } else {
                let c = b[9] as int;
                if b.len() < 10 + 8 * c {
                    None
                } else {
                    let rest = spec_unpack(b.skip(10 + 8 * c));
                    if rest is Some {
                        Some(b.subrange(1, 9) + b.subrange(10, 10 + 8 * c) + rest.unwrap())
                    } else {
                        None
                    }
                }
            }
        } else {
            let k = tag_count(t, 8);
            if b.len() < 1 + k {
                None
            } else {
                let rest = spec_unpack(b.skip(1 + k));
                if rest is Some {
                    Some(unpack_word(t, b.subrange(1, 1 + k)) + rest.unwrap())
                } else {
                    None
                }
            }
        }
    }
}

/// The bits of a word's tag are exactly its bytes' nonzero indicators.
proof fn lemma_tag_bits(w: Seq<u8>)
    requires
        w.len() == 8,
    ensures
        forall|i: int| 0 <= i < 8 ==> #[trigger] tag_bit(tag_of(w), i) == ind(w[i]),
{
    let b0 = ind(w[0]);
    let b1 = ind(w[1]);
    let b2 = ind(w[2]);
    let b3 = ind(w[3]);
    let b4 = ind(w[4]);
    let b5 = ind(w[5]);
    let b6 = ind(w[6]);
    let b7 = ind(w[7]);
    let t = tag_of(w) as int;
    assert(t == b0 + 2 * b1 + 4 * b2 + 8 * b3 + 16 * b4 + 32 * b5 + 64 * b6 + 128 * b7);
    assert(t % 2 == b0 && (t / 2) % 2 == b1 && (t / 4) % 2 == b2 && (t / 8) % 2 == b3 && (t / 16)
        % 2 == b4 && (t / 32) % 2 == b5 && (t / 64) % 2 == b6 && (t / 128) % 2 == b7)
        by (nonlinear_arith)
        requires
            t == b0 + 2 * b1 + 4 * b2 + 8 * b3 + 16 * b4 + 32 * b5 + 64 * b6 + 128 * b7,
            0 <= b0 <= 1,
            0 <= b1 <= 1,
            0 <= b2 <= 1,
            0 <= b3 <= 1,
            0 <= b4 <= 1,
            0 <= b5 <= 1,
            0 <= b6 <= 1,
            0 <= b7 <= 1,
    ;
}

/// A word's literal-byte prefix is as long as its tag's set-bit count.
proof fn lemma_lits_len(w: Seq<u8>, j: int)
    requires
        w.len() == 8,
        0 <= j <= 8,
    ensures
        lits_pre(w, j).len() == tag_count(tag_of(w), j),
    decreases j,
{
    lemma_tag_bits(w);
    if j > 0 {
        lemma_lits_len(w, j - 1);
    }
}

/// A nonzero byte of the word stands at its set-bit rank within the word's
/// literal bytes.
proof fn lemma_lits_index(w: Seq<u8>, i: int, j: int)
    requires
        w.len() == 8,
        0 <= i < j <= 8,
        w[i] != 0,
    ensures
        tag_count(tag_of(w), i) < lits_pre(w, j).len(),
        lits_pre(w, j)[tag_count(tag_of(w), i)] == w[i],
    decreases j,
{
    lemma_tag_bits(w);
    lemma_lits_len(w, i);
    lemma_lits_len(w, j);
    if j == i + 1 {
        assert(lits_pre(w, j) == lits_pre(w, i) + seq![w[i]]);
    } else {
        lemma_lits_index(w, i, j - 1);
        lemma_lits_len(w, j - 1);
    }
}

/// Unpacking one minimally packed word from the front of a stream yields the
/// word, and leaves the rest to unpack.
proof fn lemma_unpack_pack_word(w: Seq<u8>, rest: Seq<u8>)
    requires
        w.len() == 8,
    ensures
        spec_unpack(pack_word(w) + rest) is Some <==> spec_unpack(rest) is Some,
        spec_unpack(rest) is Some ==> spec_unpack(pack_word(w) + rest).unwrap() == w
            + spec_unpack(rest).unwrap(),
{
    lemma_tag_bits(w);
    let t = tag_of(w);
    let s = pack_word(w) + rest;
    if t == 0 {
        assert forall|i: int| 0 <= i < 8 implies w[i] == 0 by {
            assert(tag_bit(0u8, i) == 0);
        }
        assert(s[0] == 0 && s.len() >= 2 && s[1] == 0);
        assert(s.skip(2) =~= rest);
        if spec_unpack(rest) is Some {
            assert(zero_bytes(8) =~= w);
            assert(spec_unpack(s).unwrap() == zero_bytes(8) + spec_unpack(rest).unwrap());
        }
    } else if t == 0xff {
        assert(s[0] == 0xff);
        assert(s.len() == 10 + rest.len());
        assert(s.subrange(1, 9) =~= w);
        assert(s[9] == 0);
        assert(s.skip(10) =~= rest);
        if spec_unpack(rest) is Some {
            assert(s.subrange(10, 10) =~= Seq::<u8>::empty());
            assert(s.subrange(1, 9) + s.subrange(10, 10) + spec_unpack(rest).unwrap() =~= w
                + spec_unpack(rest).unwrap());
        }
    } else {
        let k = tag_count(t, 8);
        lemma_lits_len(w, 8);
        assert(s[0] == t);
        assert(s.len() == 1 + k + rest.len());
        assert(s.subrange(1, 1 + k) =~= lits_pre(w, 8));
        assert(s.skip(1 + k) =~= rest);
        if spec_unpack(rest) is Some {
            assert forall|i: int| 0 <= i < 8 implies unpack_word(t, lits_pre(w, 8))[i] == w[i] by {
                if tag_bit(t, i) == 1 {
                    lemma_lits_index(w, i, 8);
                }
            }
            assert(unpack_word(t, s.subrange(1, 1 + k)) =~= w);
        }
    }
}

proof fn lemma_spec_pack_upto_cons(b: Seq<u8>, i: int)
    requires
        b.len() % 8 == 0,
        1 <= i,
        8 * i <= b.len(),
    ensures
        spec_pack_upto(b, i) == pack_word(b.subrange(0, 8)) + spec_pack_upto(b.skip(8), i - 1),
    decreases i,
{
    if i == 1 {
        assert(b.subrange(0, 8) =~= b.subrange(0, 8));
        assert(spec_pack_upto(b, 1) == spec_pack_upto(b, 0) + pack_word(b.subrange(0, 8)));
        assert(spec_pack_upto(b, 1) =~= pack_word(b.subrange(0, 8)) + spec_pack_upto(
            b.skip(8),
            0,
        ));
    } else {
        lemma_spec_pack_upto_cons(b, i - 1);
        assert(b.subrange(8 * (i - 1), 8 * i) =~= b.skip(8).subrange(8 * (i - 2), 8 * (i - 1)));
        assert(spec_pack_upto(b, i) =~= pack_word(b.subrange(0, 8)) + spec_pack_upto(
            b.skip(8),
            i - 1,
        ));
    }
}

/// Packing a whole-word byte stream and unpacking the result gives the
/// stream back byte-for-byte: the packed transform is lossless, and a stream
/// with no zero-run opportunity comes back exactly as well.
pub proof fn lemma_unpack_pack(b: Seq<u8>)
    requires
        b.len() % 8 == 0,
    ensures
        spec_unpack(spec_pack(b)) == Some(b),
    decreases b.len(),
{
    if b.len() == 0 {
        assert(spec_pack(b) =~= Seq::<u8>::empty());
        assert(spec_unpack(spec_pack(b)).unwrap() =~= b);
    } else {
        lemma_spec_pack_upto_cons(b, b.len() as int / 8);
        assert(b.skip(8).len() % 8 == 0);
        assert(b.skip(8).len() as int / 8 == b.len() as int / 8 - 1);
        assert(spec_pack(b) == pack_word(b.subrange(0, 8)) + spec_pack(b.skip(8)));
        lemma_unpack_pack(b.skip(8));
        lemma_unpack_pack_word(b.subrange(0, 8), spec_pack(b.skip(8)));
        assert(spec_unpack(spec_pack(b)).unwrap() == b.subrange(0, 8) + b.skip(8));
        assert(b.subrange(0, 8) + b.skip(8) =~= b);
    }
}

/// No whole-word stream packs to a stream that fails to unpack.
proof fn lemma_no_pack_source(bytes: Seq<u8>)
    requires
        spec_unpack(bytes) is None,
    ensures
        forall|b: Seq<u8>| b.len() % 8 == 0 ==> #[trigger] spec_pack(b) != bytes,
{
    assert forall|b: Seq<u8>| b.len() % 8 == 0 implies #[trigger] spec_pack(b) != bytes by {
        lemma_unpack_pack(b);
    }
}

/// Executable bit `i` of a tag byte.
fn tag_bit_exec(t: u8, i: u8) -> (r: u8)
    requires
        i < 8,
    ensures
        r as int == tag_bit(t, i as int),
{
    if i == 0 {
        t % 2
    } else if i == 1 {
        (t / 2) % 2
    } else if i == 2 {
        (t / 4) % 2
    } else if i == 3 {
        (t / 8) % 2
    } else if i == 4 {
        (t / 16) % 2
    } else if i == 5 {
        (t / 32) % 2
    } else if i == 6 {
        (t / 64) % 2
    } else {
        (t / 128) % 2
    }
}

/// What one token-decoding step promises: on success it consumed bytes up to
/// the returned position and appended exactly the token's words, so the
/// stream's meaning factors through; on failure the stream from `p` on has
/// no meaning (it is truncated mid-token).
spec fn token_step_ok(bytes: Seq<u8>, p: int, out_old: Seq<u8>, out_new: Seq<u8>, p2: int) -> bool {
    &&& p < p2 <= bytes.len()
    &&& out_new.len() >= out_old.len()
    &&& out_new.subrange(0, out_old.len() as int) == out_old
    &&& (out_new.len() - out_old.len()) % 8 == 0
    &&& (spec_unpack(bytes.skip(p)) is Some <==> spec_unpack(bytes.skip(p2)) is Some)
    &&& (spec_unpack(bytes.skip(p2)) is Some ==> spec_unpack(bytes.skip(p)).unwrap() == out_new.skip(
        out_old.len() as int,
    ) + spec_unpack(bytes.skip(p2)).unwrap())
}

/// Decodes one zero-run token (tag byte 0x00 plus a count of additional
/// all-zero words) into zero bytes.
fn unpack_zero_token(bytes: &[u8], p: usize, out: &mut Vec<u8>) -> (r: crate::Result<usize>)
    requires
        p < bytes@.len(),
        bytes@[p as int] == 0,
    ensures
        r is Ok ==> token_step_ok(bytes@, p as int, old(out)@, final(out)@, r->Ok_0 as int),
        r is Err ==> spec_unpack(bytes@.skip(p as int)) is None && (r->Err_0).kind is Failed,
{
    let ghost s = bytes@.skip(p as int);
    proof {
        assert(s[0] == 0);
    }
    if bytes.len() - p < 2 {
        proof {
            assert(spec_unpack(s) is None);
        }
        return Err(
            Error::new_decode_error(
                String::from_str("packed stream ends inside a zero-run token"),
            ),
        );
    }
    let run = bytes[p + 1];
    proof {
        assert(s[1] == run);
    }
    let mut k: u64 = 0;
    let total: u64 = 8 * (run as u64 + 1);
    let ghost base = out@;
    while k < total
        invariant
            k <= total,
            out@ == base + zero_bytes(k as int),
        decreases total - k,
    {
        out.push(0);
        proof {
            assert(out@ =~= base + zero_bytes(k as int + 1));
        }
        k = k + 1;
    }
    proof {
        assert(s.skip(2) =~= bytes@.skip(p as int + 2));
        assert(out@.subrange(0, base.len() as int) =~= base);
        assert(out@.skip(base.len() as int) =~= zero_bytes(8 * (1 + run as int)));
    }
    Ok(p + 2)
}

/// Decodes one all-literal token (tag byte 0xFF, the word's eight bytes, and
/// a count of additional words copied verbatim).
fn unpack_literal_token(bytes: &[u8], p: usize, out: &mut Vec<u8>) -> (r: crate::Result<usize>)
    requires
        p < bytes@.len(),
        bytes@[p as int] == 0xff,
    ensures
        r is Ok ==> token_step_ok(bytes@, p as int, old(out)@, final(out)@, r->Ok_0 as int),
        r is Err ==> spec_unpack(bytes@.skip(p as int)) is None && (r->Err_0).kind is Failed,
{
    let ghost s = bytes@.skip(p as int);
    let blen = bytes.len();
    proof {
        assert(s[0] == 0xff);
    }
    if blen - p < 10 {
        proof {
            assert(spec_unpack(s) is None);
        }
        return Err(
            Error::new_decode_error(
                String::from_str("packed stream ends inside an all-literal word"),
            ),
        );
    }
    let ghost base = out@;
    let mut j: usize = 0;
    while j < 8
        invariant
            blen == bytes@.len(),
            p + 10 <= blen,
            s == bytes@.skip(p as int),
            base.len() <= out@.len(),
            j <= 8,
            out@ == base + s.subrange(1, 1 + j as int),
        decreases 8 - j,
    {
        proof {
            assert(s[1 + j as int] == bytes@[p as int + 1 + j as int]);
            assert((base + s.subrange(1, 1 + j as int)).push(s[1 + j as int]) =~= base
                + s.subrange(1, 2 + j as int));
        }
        out.push(bytes[p + 1 + j]);
        j = j + 1;
    }
    let run = bytes[p + 9] as usize;
    proof {
        assert(s[9] == bytes@[p as int + 9]);
    }
    if blen - (p + 10) < 8 * run {
        proof {
            assert(spec_unpack(s) is None);
        }
        return Err(
            Error::new_decode_error(
                String::from_str("packed stream ends inside a verbatim run"),
            ),
        );
    }
    let mut k: usize = 0;
    while k < 8 * run
        invariant
            blen == bytes@.len(),
            p + 10 + 8 * run <= blen,
            s == bytes@.skip(p as int),
            k <= 8 * run,
            out@ == base + s.subrange(1, 9) + s.subrange(10, 10 + k as int),
        decreases 8 * run - k,
    {
        proof {
            assert(s[10 + k as int] == bytes@[p as int + 10 + k as int]);
            assert((base + s.subrange(1, 9) + s.subrange(10, 10 + k as int)).push(
                s[10 + k as int],
            ) =~= base + s.subrange(1, 9) + s.subrange(10, 11 + k as int));
        }
        out.push(bytes[p + 10 + k]);
        k = k + 1;
    }
    proof {
        let c = run as int;
        assert(s.skip(10 + 8 * c) =~= bytes@.skip(p as int + 10 + 8 * c));
        assert(out@.subrange(0, base.len() as int) =~= base);
        assert(out@.skip(base.len() as int) =~= s.subrange(1, 9) + s.subrange(10, 10 + 8 * c));
    }
    Ok(p + 10 + 8 * run)
}

/// Decodes one mixed-word token: one literal byte per set tag bit, implicit
/// zero bytes elsewhere.
#[verifier::rlimit(100)]
fn unpack_mixed_token(bytes: &[u8], p: usize, out: &mut Vec<u8>) -> (r: crate::Result<usize>)
    requires
        p < bytes@.len(),
        bytes@[p as int] != 0,
        bytes@[p as int] != 0xff,
    ensures
        r is Ok ==> token_step_ok(bytes@, p as int, old(out)@, final(out)@, r->Ok_0 as int),
        r is Err ==> spec_unpack(bytes@.skip(p as int)) is None && (r->Err_0).kind is Failed,
{
    let ghost s = bytes@.skip(p as int);
    let blen = bytes.len();
    let t = bytes[p];
    proof {
        assert(s[0] == t);
    }
    let ghost base = out@;
    let mut q: usize = p + 1;
    let mut j: u8 = 0;
    while j < 8
        invariant
            blen == bytes@.len(),
            p < blen,
            s == bytes@.skip(p as int),
            t == s[0],
            t != 0 && t != 0xff,
            j <= 8,
            q == p + 1 + tag_count(t, j as int),
            q <= blen,
            base.len() <= out@.len(),
            out@ == base + Seq::new(
                j as nat,
                |x: int|
                    if tag_bit(t, x) == 1 {
                        s[1 + tag_count(t, x)]
                    } else {
                        0u8
                    },
            ),
        decreases 8 - j,
    {
        let bit = tag_bit_exec(t, j);
        if bit == 1 {
            if q >= blen {
                proof {
                    assert(tag_count(t, j as int) + 1 <= tag_count(t, 8));
                    assert(s.len() < 1 + tag_count(t, 8));
                    assert(spec_unpack(s) is None);
                }
                return Err(
                    Error::new_decode_error(
                        String::from_str("packed stream ends inside a word's literal bytes"),
                    ),
                );
            }
            proof {
                assert(s[1 + tag_count(t, j as int)] == bytes@[q as int]);
            }
            out.push(bytes[q]);
            q = q + 1;
        } else {
            out.push(0);
        }
        proof {
            assert(out@ =~= base + Seq::new(
                j as nat + 1,
                |x: int|
                    if tag_bit(t, x) == 1 {
                        s[1 + tag_count(t, x)]
                    } else {
                        0u8
                    },
            ));
        }
        j = j + 1;
    }
    proof {
        let k = tag_count(t, 8);
        assert(s.len() >= 1 + k);
        assert(s.skip(1 + k) =~= bytes@.skip(p as int + 1 + k));
        assert forall|x: int| 0 <= x < 8 implies Seq::new(
            8,
            |y: int|
                if tag_bit(t, y) == 1 {
                    s[1 + tag_count(t, y)]
                } else {
                    0u8
                },
        )[x] == (#[trigger] unpack_word(t, s.subrange(1, 1 + k))[x]) by {
            if tag_bit(t, x) == 1 {
                assert(tag_count(t, x) + 1 <= k);
                assert(s.subrange(1, 1 + k)[tag_count(t, x)] == s[1 + tag_count(t, x)]);
            }
        }
        assert(Seq::new(
            8,
            |y: int|
                if tag_bit(t, y) == 1 {
                    s[1 + tag_count(t, y)]
                } else {
                    0u8
                },
        ) =~= unpack_word(t, s.subrange(1, 1 + k)));
        assert(out@.subrange(0, base.len() as int) =~= base);
        assert(out@.skip(base.len() as int) =~= unpack_word(t, s.subrange(1, 1 + k)));
    }
    Ok(q)
}

/// Unpacks a packed stream back to its unpacked byte stream, accepting the
/// full grammar (runs of any length): the result is exactly what the packed
/// stream denotes, so unpacking reverses packing losslessly. Truncated input
/// — a missing count byte, fewer literal bytes than the tag declares, a
/// verbatim run past the end — is a decode error, never an out-of-bounds
/// read.
pub fn unpack(bytes: &[u8]) -> (r: crate::Result<Vec<u8>>)
    ensures
        r is Ok <==> spec_unpack(bytes@) is Some,
        r is Ok ==> (r->Ok_0)@ == spec_unpack(bytes@).unwrap() && (r->Ok_0)@.len() % 8 == 0,
        r is Err ==> (r->Err_0).kind is Failed,
        forall|b: Seq<u8>|
            b.len() % 8 == 0 && bytes@ == spec_pack(b) ==> r is Ok && (r->Ok_0)@ == b,
{
    let blen = bytes.len();
    let mut out: Vec<u8> = Vec::new();
    let mut p: usize = 0;
    proof {
        assert(bytes@.skip(0) =~= bytes@);
    }
    while p < blen
        invariant
            blen == bytes@.len(),
            p <= blen,
            out@.len() % 8 == 0,
            spec_unpack(bytes@) is Some <==> spec_unpack(bytes@.skip(p as int)) is Some,
            spec_unpack(bytes@.skip(p as int)) is Some ==> spec_unpack(bytes@).unwrap() == out@
                + spec_unpack(bytes@.skip(p as int)).unwrap(),
        decreases blen - p,
    {
        let ghost out_old = out@;
        let t = bytes[p];
        let step = if t == 0 {
            unpack_zero_token(bytes, p, &mut out)
        } else if t == 0xff {
            unpack_literal_token(bytes, p, &mut out)
        } else {
            unpack_mixed_token(bytes, p, &mut out)
        };
        match step {
            Ok(p2) => {
                proof {
                    if spec_unpack(bytes@.skip(p2 as int)) is Some {
                        assert(out@ =~= out_old + out@.skip(out_old.len() as int));
                        assert(out_old + (out@.skip(out_old.len() as int) + spec_unpack(
                            bytes@.skip(p2 as int),
                        ).unwrap()) =~= out@ + spec_unpack(bytes@.skip(p2 as int)).unwrap());
                    }
                }
                p = p2;
            },
            Err(e) => {
                proof {
                    lemma_no_pack_source(bytes@);
                }
                return Err(e);
            },
        }
    }
    proof {
        assert(bytes@.skip(blen as int) =~= Seq::<u8>::empty());
        assert(out@ + spec_unpack(bytes@.skip(p as int)).unwrap() =~= out@);
        assert forall|b: Seq<u8>| b.len() % 8 == 0 && bytes@ == spec_pack(b) implies spec_unpack(
            bytes@,
        ) is Some && spec_unpack(bytes@).unwrap() == b by {
            lemma_unpack_pack(b);
        }
    }
    Ok(out)
}

} // verus!
