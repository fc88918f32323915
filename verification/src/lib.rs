//! Runtime core for a zero-copy, word-aligned structured-data format.
//!
//! A message is a set of fixed-size memory segments holding typed values
//! reachable through relative pointers. This crate provides the segment and
//! arena model, the pointer codec (struct, list, far and capability
//! pointers), bounds- and budget-checked reader views, builder views that
//! write directly into growing segments, and the two wire encodings: the raw
//! word stream and the zero-run "packed" variant.

use vstd::prelude::*;
use vstd::string::StringExecFns;

pub mod bits;
pub mod ptr;
pub mod arena;
pub mod layout;
pub mod builder;
pub mod message;
pub mod serialize;
pub mod packed;

verus! {

/// Eight bytes of memory: the unit in which all offsets and sizes of the
/// format are expressed.
#[derive(Clone, Copy, Debug, PartialEq, Eq, Structural)]
pub struct Word(pub u64);

impl Word {
    /// Wraps a raw 64-bit value as one word.
    pub fn from(n: u64) -> (w: Word)
        ensures
            w.0 == n,
    {
        Word(n)
    }

    /// A vector of `length` zeroed words.
    pub fn allocate_zeroed_vec(length: usize) -> (v: Vec<Word>)
        ensures
            v@.len() == length,
            forall|i: int| 0 <= i < length ==> v@[i].0 == 0,
    {
        let mut v: Vec<Word> = Vec::new();
        let mut i: usize = 0;
        while i < length
            invariant
                i <= length,
                v@.len() == i,
                forall|j: int| 0 <= j < i ==> v@[j].0 == 0,
            decreases length - i,
        {
            v.push(Word(0));
            i = i + 1;
        }
        v
    }

    /// Reinterprets a little-endian byte sequence as words; the byte length
    /// must be a whole number of words (callers must pad).
    pub fn bytes_to_words(bytes: &[u8]) -> (v: Vec<Word>)
        requires
            bytes@.len() % 8 == 0,
        ensures
            v@.len() * 8 == bytes@.len(),
            forall|i: int|
                0 <= i < v@.len() ==> v@[i].0 == crate::bits::word_of_le_bytes(
                    bytes@.subrange(8 * i, 8 * i + 8),
                ),
    {
        let words = crate::bits::le_bytes_to_words(bytes);
        proof {
            assert forall|j: int| 0 <= j < words@.len() implies words@[j]
                == crate::bits::word_of_le_bytes(bytes@.subrange(8 * j, 8 * j + 8)) by {
                crate::bits::lemma_words_of_bytes_index(bytes@, j);
            }
        }
        let mut v: Vec<Word> = Vec::new();
        let mut i: usize = 0;
        while i < words.len()
            invariant
                i <= words@.len(),
                v@.len() == i,
                forall|j: int| 0 <= j < i ==> v@[j].0 == words@[j],
            decreases words@.len() - i,
        {
            v.push(Word(words[i]));
            i = i + 1;
        }
        proof {
            crate::bits::lemma_words_of_bytes_len(bytes@);
            assert forall|k: int| 0 <= k < v@.len() implies v@[k].0
                == crate::bits::word_of_le_bytes(bytes@.subrange(8 * k, 8 * k + 8)) by {
                crate::bits::lemma_words_of_bytes_index(bytes@, k);
            }
        }
        v
    }

    /// Serialises words back to their little-endian byte sequence.
    pub fn words_to_bytes(words: &[Word]) -> (b: Vec<u8>)
        ensures
            b@.len() == words@.len() * 8,
            forall|i: int|
                0 <= i < words@.len() ==> b@.subrange(8 * i, 8 * i + 8)
                    == crate::bits::le_bytes_of_word(words@[i].0),
    {
        let mut raw: Vec<u64> = Vec::new();
        let mut i: usize = 0;
        while i < words.len()
            invariant
                i <= words@.len(),
                raw@.len() == i,
                forall|j: int| 0 <= j < i ==> raw@[j] == words@[j].0,
            decreases words@.len() - i,
        {
            raw.push(words[i].0);
            i = i + 1;
        }
        let b = crate::bits::words_to_le_bytes(&raw);
        proof {
            assert forall|j: int| 0 <= j < words@.len() implies b@.subrange(8 * j, 8 * j + 8)
                == crate::bits::le_bytes_of_word(words@[j].0) by {
                crate::bits::lemma_bytes_of_words_subrange(raw@, j);
            }
        }
        b
    }
}

/// Aggregate size of a message: words of storage plus capability-table
/// entries.
#[derive(Clone, Copy, PartialEq, Eq, Structural)]
pub struct MessageSize {
    pub word_count: u64,
    /// Size of the capability table.
    pub cap_count: u32,
}

impl MessageSize {
    /// Adds another size onto this one, component-wise.
    pub fn plus_eq(&mut self, other: MessageSize)
        requires
            old(self).word_count + other.word_count <= u64::MAX,
            old(self).cap_count + other.cap_count <= u32::MAX,
        ensures
            final(self).word_count == old(self).word_count + other.word_count,
            final(self).cap_count == old(self).cap_count + other.cap_count,
    {
        self.word_count = self.word_count + other.word_count;
        self.cap_count = self.cap_count + other.cap_count;
    }
}

/// An enum value or union discriminant that was not found among those defined
/// in a schema.
#[derive(PartialEq, Eq, Structural, Clone, Copy, Debug)]
pub struct NotInSchema(pub u16);

impl NotInSchema {
    /// A human-readable account of the fault.
    pub fn description(&self) -> (r: &str)
        ensures
            r@ == "Enum value or union disriminant was not present in schema."@,
    {
        "Enum value or union disriminant was not present in schema."
    }
}

/// Since messages are lazily validated, every operation that follows a
/// pointer returns one of these.
pub type Result<T> = core::result::Result<T, Error>;

/// How a caller might want to respond to a fault, independent of its exact
/// cause.
#[derive(Debug, Clone, Copy)]
pub enum ErrorKind {
    /// A generic, non-retryable problem: malformed pointer, out-of-bounds
    /// offset, inconsistent sizes, truncated input, or an exhausted
    /// traversal budget.
    Failed,
    /// A temporary lack of resources; retry much later.
    Overloaded,
    /// A connection to some necessary capability was lost; reserved for the
    /// transport layer, never raised here.
    Disconnected,
    /// The requested method is not implemented; reserved for method-dispatch
    /// layers, never raised here.
    Unimplemented,
}

/// Describes an arbitrary fault that prevented an operation from completing.
#[derive(Debug, Clone)]
pub struct Error {
    /// How a client might respond to the fault.
    pub kind: ErrorKind,
    /// Human-readable failure description.
    pub reason: String,
}

impl Error {
    /// A decode fault: malformed or hostile input was rejected.
    pub fn new_decode_error(description: String) -> (e: Error)
        ensures
            e.kind is Failed,
            e.reason == description,
    {
        Error { reason: description, kind: ErrorKind::Failed }
    }

    /// The decode fault raised by an out-of-schema discriminant, naming the
    /// offending value.
    pub fn from_not_in_schema(e: NotInSchema) -> (r: Error)
        ensures
            r.kind is Failed,
            r.reason@ == "Enum value or union discriminant "@ + decimal_digits(e.0 as int)
                + " was not present in schema."@,
    {
        let mut reason = String::from_str("Enum value or union discriminant ");
        push_decimal(&mut reason, e.0);
        reason.append(" was not present in schema.");
        Error { reason, kind: ErrorKind::Failed }
    }

    /// A human-readable account of the fault.
    pub fn description(&self) -> (r: &str)
        ensures
            r@ == self.reason@,
    {
        self.reason.as_str()
    }
}

/// The decimal numeral of a non-negative number, most significant digit
/// first.
pub open spec fn decimal_digits(n: int) -> Seq<char>
    recommends
        n >= 0,
    decreases n,
{
    if n < 10 {
        seq![digit_char(n)]
    } else {
        decimal_digits(n / 10) + seq![digit_char(n % 10)]
    }
}

/// The character of one decimal digit.
pub open spec fn digit_char(d: int) -> char
    recommends
        0 <= d < 10,
{
    if d == 0 {
        '0'
    } else if d == 1 {
        '1'
    } else if d == 2 {
        '2'
    } else if d == 3 {
        '3'
    } else if d == 4 {
        '4'
    } else if d == 5 {
        '5'
    } else if d == 6 {
        '6'
    } else if d == 7 {
        '7'
    } else if d == 8 {
        '8'
    } else {
        '9'
    }
}

/// Appends one decimal digit's character.
fn push_digit(s: &mut String, d: u16)
    requires
        d < 10,
    ensures
        final(s)@ == old(s)@ + seq![digit_char(d as int)],
{
    if d == 0 {
        proof {
            reveal_strlit("0");
        }
        s.append("0");
    } else if d == 1 {
        proof {
            reveal_strlit("1");
        }
        s.append("1");
    } else if d == 2 {
        proof {
            reveal_strlit("2");
        }
        s.append("2");
    } else if d == 3 {
        proof {
            reveal_strlit("3");
        }
        s.append("3");
    } else if d == 4 {
        proof {
            reveal_strlit("4");
        }
        s.append("4");
    } else if d == 5 {
        proof {
            reveal_strlit("5");
        }
        s.append("5");
    } else if d == 6 {
        proof {
            reveal_strlit("6");
        }
        s.append("6");
    } else if d == 7 {
        proof {
            reveal_strlit("7");
        }
        s.append("7");
    } else if d == 8 {
        proof {
            reveal_strlit("8");
        }
        s.append("8");
    } else {
        proof {
            reveal_strlit("9");
        }
        s.append("9");
    }
    proof {
        assert(final(s)@ =~= old(s)@ + seq![digit_char(d as int)]);
    }
}

/// Appends a number's decimal numeral, most significant digit first.
fn push_decimal(s: &mut String, n: u16)
    ensures
        final(s)@ == old(s)@ + decimal_digits(n as int),
    decreases n,
{
    if n >= 10 {
        push_decimal(s, n / 10);
        push_digit(s, n % 10);
        proof {
            assert(final(s)@ =~= old(s)@ + decimal_digits(n as int));
        }
    } else {
        push_digit(s, n);
    }
}

/// The segments of a finished message, ready for output; avoids a heap
/// allocation in the common single-segment case.
pub enum OutputSegments<'a> {
    SingleSegment([&'a [u64]; 1]),
    MultiSegment(Vec<&'a [u64]>),
}

impl<'a> OutputSegments<'a> {
    /// The segments as one mathematical sequence of word sequences.
    pub open spec fn view(&self) -> Seq<Seq<u64>> {
        match self {
            OutputSegments::SingleSegment(s) => seq![s[0]@],
            OutputSegments::MultiSegment(v) => v@.map(|i: int, s: &[u64]| s@),
        }
    }

    /// How many segments the message has.
    pub fn segment_count(&self) -> (n: usize)
        ensures
            n == self.view().len(),
    {
        match self {
            OutputSegments::SingleSegment(_) => 1,
            OutputSegments::MultiSegment(v) => v.len(),
        }
    }

    /// One segment's words.
    pub fn get_segment(&self, i: usize) -> (s: &[u64])
        requires
            i < self.view().len(),
        ensures
            s@ == self.view()[i as int],
    {
        match self {
            OutputSegments::SingleSegment(s) => s[0],
            OutputSegments::MultiSegment(v) => v[i],
        }
    }
}

} // verus!
