use capnp::arena::{BuilderOptions, ReaderOptions};
use capnp::message::{MessageBuilder, MessageReader};
use capnp::packed::{pack, unpack};
use capnp::ptr::{decode_pointer, encode_pointer, ElementSize, WirePointer};
use capnp::serialize::{read_message, read_message_with_caps, write_message};
use capnp::{ErrorKind, MessageSize, NotInSchema, Word};

fn reader_opts(limit: u64) -> ReaderOptions {
    let mut o = ReaderOptions::new();
    o.traversal_limit_in_words = limit;
    o
}

#[test]
fn pointer_word_roundtrip() {
    let cases = vec![
        WirePointer::Null,
        WirePointer::Struct { offset: 2, data_size: 1, ptr_size: 1 },
        WirePointer::Struct { offset: -7, data_size: 0, ptr_size: 3 },
        WirePointer::List { offset: 5, elem_size: ElementSize::Byte, count: 19 },
        WirePointer::List { offset: -1, elem_size: ElementSize::InlineComposite, count: 100 },
        WirePointer::Far { double_far: true, offset: 9, segment_id: 4 },
        WirePointer::Far { double_far: false, offset: 0, segment_id: 1 },
        WirePointer::Capability { index: 123 },
    ];
    for p in cases {
        assert_eq!(decode_pointer(encode_pointer(p)), p);
    }
    assert_eq!(decode_pointer(0), WirePointer::Null);
}

#[test]
fn concrete_scenario_u32_and_text() {
    // One u32 field = 42 and one text field = "hi".
    let mut m = MessageBuilder::new(BuilderOptions::new());
    let root = m.init_root(1, 1);
    root.set_data_u32(&mut m.arena, 0, 42, 0);
    root.set_text_field(&mut m.arena, 0, b"hi");
    let bytes = write_message(&m);
    // 8 (table) + 8 (root pointer) + 16 (1 data + 1 pointer word)
    // + 8 (word-aligned "hi\0")
    assert_eq!(bytes.len(), 40);

    let mut r = read_message(&bytes, ReaderOptions::new()).unwrap();
    let root = r.get_root().unwrap();
    assert_eq!(root.get_data_u32(&r.arena, 0, 0), 42);
    let text = root.get_list_field(&mut r.arena, 0).unwrap();
    let raw = text.read_bytes(&r.arena);
    assert_eq!(&raw[..raw.len() - 1], b"hi");
    assert_eq!(raw[raw.len() - 1], 0);
}

#[test]
fn serialize_then_pack_roundtrip() {
    let mut m = MessageBuilder::new(BuilderOptions::new());
    let root = m.init_root(2, 1);
    root.set_data_u64(&mut m.arena, 0, 0xdead_beef_0102_0304, 0);
    root.set_data_u64(&mut m.arena, 1, 0, 0);
    root.set_text_field(&mut m.arena, 0, b"packed roundtrip");
    let bytes = write_message(&m);
    let packed = pack(&bytes);
    let unpacked = unpack(&packed).unwrap();
    assert_eq!(unpacked, bytes);

    // Field values survive the whole trip.
    let mut r = read_message(&unpacked, ReaderOptions::new()).unwrap();
    let root = r.get_root().unwrap();
    assert_eq!(root.get_data_u64(&r.arena, 0, 0), 0xdead_beef_0102_0304);
}

#[test]
fn pack_idempotent_on_minimal_stream() {
    // No zero-run opportunities: every byte nonzero.
    let bytes: Vec<u8> = (0..32u32).map(|i| (i % 255) as u8 + 1).collect();
    let packed = pack(&bytes);
    assert_eq!(unpack(&packed).unwrap(), bytes);
}

#[test]
fn pack_golden_forms() {
    // An all-zero word: tag 0x00, zero additional words.
    assert_eq!(pack(&[0u8; 8]), vec![0, 0]);
    // An all-literal word: tag 0xFF, eight bytes, zero additional words.
    let w = [1u8, 2, 3, 4, 5, 6, 7, 8];
    let mut expected = vec![0xffu8];
    expected.extend_from_slice(&w);
    expected.push(0);
    assert_eq!(pack(&w), expected);
    // A mixed word: bits 0 and 2 set, two literal bytes.
    assert_eq!(pack(&[9u8, 0, 7, 0, 0, 0, 0, 0]), vec![0b101, 9, 7]);
}

#[test]
fn unpack_accepts_foreign_runs() {
    // A zero run of 1 + 3 additional words.
    assert_eq!(unpack(&[0x00, 0x03]).unwrap(), vec![0u8; 32]);
    // A verbatim run of one additional word.
    let mut stream = vec![0xffu8];
    stream.extend_from_slice(&[1, 1, 1, 1, 1, 1, 1, 1]);
    stream.push(1);
    stream.extend_from_slice(&[2, 2, 2, 2, 2, 2, 2, 2]);
    let mut expected = vec![1u8; 8];
    expected.extend_from_slice(&[2u8; 8]);
    assert_eq!(unpack(&stream).unwrap(), expected);
}

#[test]
fn unpack_rejects_truncation() {
    assert!(unpack(&[0x00]).is_err());
    assert!(unpack(&[0xff, 1, 2, 3]).is_err());
    assert!(unpack(&[0b101, 9]).is_err());
    let mut stream = vec![0xffu8];
    stream.extend_from_slice(&[1, 1, 1, 1, 1, 1, 1, 1]);
    stream.push(2); // claims two more words, supplies none
    assert!(unpack(&stream).is_err());
}

#[test]
fn default_masking_all_widths() {
    let mut m = MessageBuilder::new(BuilderOptions::new());
    let root = m.init_root(5, 0);
    // Writing each field's declared default leaves its storage word zero.
    root.set_data_u64(&mut m.arena, 0, 0x1111_2222_3333_4444, 0x1111_2222_3333_4444);
    root.set_data_u32(&mut m.arena, 2, 77, 77);
    root.set_data_u16(&mut m.arena, 8, 1000, 1000);
    root.set_data_u8(&mut m.arena, 24, 9, 9);
    root.set_data_bool(&mut m.arena, 256, true, true);
    for w in 0..5u64 {
        assert_eq!(m.arena.get_word(root.segment, root.data_start + w), 0);
    }
    // Reading an all-zero region yields each declared default.
    let bytes = write_message(&m);
    let mut r = read_message(&bytes, ReaderOptions::new()).unwrap();
    let root = r.get_root().unwrap();
    assert_eq!(root.get_data_u64(&r.arena, 0, 0x1111_2222_3333_4444), 0x1111_2222_3333_4444);
    assert_eq!(root.get_data_u32(&r.arena, 2, 77), 77);
    assert_eq!(root.get_data_u16(&r.arena, 8, 1000), 1000);
    assert_eq!(root.get_data_u8(&r.arena, 24, 9), 9);
    assert!(root.get_data_bool(&r.arena, 256, true));
    // Non-default values round-trip through the mask.
    let mut m = MessageBuilder::new(BuilderOptions::new());
    let root = m.init_root(1, 0);
    root.set_data_u32(&mut m.arena, 0, 5, 77);
    let bytes = write_message(&m);
    let mut r = read_message(&bytes, ReaderOptions::new()).unwrap();
    let root = r.get_root().unwrap();
    assert_eq!(root.get_data_u32(&r.arena, 0, 77), 5);
}

#[test]
fn schema_evolution_defaults() {
    // A reader expecting a larger struct gets defaults for missing fields.
    let mut m = MessageBuilder::new(BuilderOptions::new());
    let root = m.init_root(1, 0);
    root.set_data_u64(&mut m.arena, 0, 11, 0);
    let bytes = write_message(&m);
    let mut r = read_message(&bytes, ReaderOptions::new()).unwrap();
    let root = r.get_root().unwrap();
    assert_eq!(root.get_data_u64(&r.arena, 0, 0), 11);
    assert_eq!(root.get_data_u64(&r.arena, 3, 5), 5); // absent word: default
    assert_eq!(root.get_data_u32(&r.arena, 9, 123), 123);
    // An absent pointer slot reads as an empty struct, never an error.
    let nested = root.get_struct_field(&mut r.arena, 7).unwrap();
    assert_eq!(nested.data_size, 0);
    assert_eq!(nested.get_data_u32(&r.arena, 0, 42), 42);
}

#[test]
fn bounds_safety_rejects_crafted_pointer() {
    // A struct pointer whose target lies past its segment's end.
    let word = encode_pointer(WirePointer::Struct { offset: 0, data_size: 100, ptr_size: 0 });
    let mut r = MessageReader::new(vec![vec![word, 0]], ReaderOptions::new(), Vec::new());
    let e = r.get_root().unwrap_err();
    assert!(matches!(e.kind, ErrorKind::Failed));
    // A far pointer into a segment that does not exist.
    let word = encode_pointer(WirePointer::Far { double_far: false, offset: 0, segment_id: 9 });
    let mut r = MessageReader::new(vec![vec![word]], ReaderOptions::new(), Vec::new());
    assert!(r.get_root().is_err());
    // A list whose element count overruns its segment.
    let word =
        encode_pointer(WirePointer::List { offset: 0, elem_size: ElementSize::EightBytes, count: 50 });
    let root = encode_pointer(WirePointer::Struct { offset: 0, data_size: 0, ptr_size: 1 });
    let mut r = MessageReader::new(vec![vec![root, word, 0]], ReaderOptions::new(), Vec::new());
    let root = r.get_root().unwrap();
    assert!(root.get_list_field(&mut r.arena, 0).is_err());
}

#[test]
fn budget_enforcement_stops_amplification() {
    // A list of four pointers, each targeting the same 8-word struct: the
    // message is small, but naive traversal implies 4 * 8 words of reading.
    let root = encode_pointer(WirePointer::Struct { offset: 0, data_size: 0, ptr_size: 1 });
    let list = encode_pointer(WirePointer::List { offset: 0, elem_size: ElementSize::Pointer, count: 4 });
    let mut seg = vec![root, list];
    for i in 0..4u32 {
        // Pointer element i sits at word 2 + i; the struct starts at word 6.
        let off = (6 - (2 + i) - 1) as i32;
        seg.push(encode_pointer(WirePointer::Struct { offset: off, data_size: 8, ptr_size: 0 }));
    }
    seg.extend(std::iter::repeat(0).take(8));
    // A generous budget reads all four elements.
    let mut r = MessageReader::new(vec![seg.clone()], reader_opts(100), Vec::new());
    let root = r.get_root().unwrap();
    let list = root.get_list_field(&mut r.arena, 0).unwrap();
    for i in 0..4 {
        let s = list.get_struct_pointer_element(&mut r.arena, i).unwrap();
        assert_eq!(s.get_data_u64(&r.arena, 0, 0), 0);
    }
    // A budget below 4 * 8 + overheads fails partway, rather than hanging
    // or completing.
    let mut r = MessageReader::new(vec![seg], reader_opts(20), Vec::new());
    let root = r.get_root().unwrap();
    let list = root.get_list_field(&mut r.arena, 0).unwrap();
    let mut failed = false;
    for i in 0..4 {
        if list.get_struct_pointer_element(&mut r.arena, i).is_err() {
            failed = true;
            break;
        }
    }
    assert!(failed);
}

#[test]
fn far_pointer_roundtrip() {
    // A tiny first segment forces the root struct into segment 1, reached
    // through a far pointer.
    let mut m = MessageBuilder::new(BuilderOptions { first_segment_words: 3 });
    let root = m.init_root(1, 1);
    root.set_data_u32(&mut m.arena, 0, 7, 0);
    root.set_text_field(&mut m.arena, 0, b"far");
    assert!(m.arena.segments.len() >= 2);
    let bytes = write_message(&m);
    let mut r = read_message(&bytes, ReaderOptions::new()).unwrap();
    let root = r.get_root().unwrap();
    assert_eq!(root.get_data_u32(&r.arena, 0, 0), 7);
    let text = root.get_list_field(&mut r.arena, 0).unwrap();
    let raw = text.read_bytes(&r.arena);
    assert_eq!(&raw[..raw.len() - 1], b"far");
}

#[test]
fn double_far_pointer_roundtrip() {
    // Segment 1 is sized exactly to its struct, leaving no room for a
    // landing pad: the root pointer must doubly indirect.
    let mut m = MessageBuilder::new(BuilderOptions { first_segment_words: 1 });
    let root = m.init_root(2, 0);
    root.set_data_u64(&mut m.arena, 0, 41, 0);
    root.set_data_u64(&mut m.arena, 1, 43, 0);
    assert!(m.arena.segments.len() >= 3);
    let bytes = write_message(&m);
    let mut r = read_message(&bytes, ReaderOptions::new()).unwrap();
    let root = r.get_root().unwrap();
    assert_eq!(root.get_data_u64(&r.arena, 0, 0), 41);
    assert_eq!(root.get_data_u64(&r.arena, 1, 0), 43);
}

#[test]
fn capability_index_roundtrip() {
    let mut m = MessageBuilder::new(BuilderOptions::new());
    let root = m.init_root(0, 2);
    let i0 = root.set_capability_field(&mut m.arena, 0, 0xaaaa);
    let i1 = root.set_capability_field(&mut m.arena, 1, 0xbbbb);
    assert_eq!(i0, 0);
    assert_eq!(i1, 1);
    let bytes = write_message(&m);
    // With a matching capability table both indices resolve.
    let mut r =
        read_message_with_caps(&bytes, ReaderOptions::new(), vec![0xaaaa, 0xbbbb]).unwrap();
    let root = r.get_root().unwrap();
    assert_eq!(root.get_capability_field(&r.arena, 0).unwrap(), 0);
    assert_eq!(root.get_capability_field(&r.arena, 1).unwrap(), 1);
    // An index beyond the supplied table is a decode error.
    let mut r = read_message_with_caps(&bytes, ReaderOptions::new(), vec![0xaaaa]).unwrap();
    let root = r.get_root().unwrap();
    assert!(root.get_capability_field(&r.arena, 1).is_err());
}

#[test]
fn nesting_limit_stops_deep_chains() {
    // A struct whose pointer refers back to its own slot's vicinity would
    // recurse forever without a depth limit.
    let root = encode_pointer(WirePointer::Struct { offset: 0, data_size: 0, ptr_size: 1 });
    let self_ptr = encode_pointer(WirePointer::Struct { offset: -2, data_size: 0, ptr_size: 1 });
    let seg = vec![root, self_ptr];
    let mut r = MessageReader::new(vec![seg], reader_opts(1_000_000), Vec::new());
    let mut cur = r.get_root().unwrap();
    let mut stopped = false;
    for _ in 0..200 {
        match cur.get_struct_field(&mut r.arena, 0) {
            Ok(next) => cur = next,
            Err(_) => {
                stopped = true;
                break;
            }
        }
    }
    assert!(stopped);
}

#[test]
fn truncated_message_rejected() {
    let mut m = MessageBuilder::new(BuilderOptions::new());
    let root = m.init_root(1, 0);
    root.set_data_u64(&mut m.arena, 0, 5, 0);
    let bytes = write_message(&m);
    assert!(read_message(&bytes[..bytes.len() - 1], ReaderOptions::new()).is_err());
    assert!(read_message(&bytes[..4], ReaderOptions::new()).is_err());
    // Extra trailing bytes are a size mismatch too.
    let mut longer = bytes.clone();
    longer.extend_from_slice(&[0u8; 8]);
    assert!(read_message(&longer, ReaderOptions::new()).is_err());
    assert!(read_message(&bytes, ReaderOptions::new()).is_ok());
}

#[test]
fn empty_message_root_resolves() {
    let m = MessageBuilder::new(BuilderOptions::new());
    let bytes = write_message(&m);
    let mut r = read_message(&bytes, ReaderOptions::new()).unwrap();
    let root = r.get_root().unwrap();
    assert_eq!(root.data_size, 0);
    assert_eq!(root.get_data_u32(&r.arena, 0, 9), 9);
}

#[test]
fn word_and_size_helpers() {
    assert_eq!(Word::from(7).0, 7);
    let v = Word::allocate_zeroed_vec(10);
    assert_eq!(v.len(), 10);
    assert!(v.iter().all(|w| w.0 == 0));
    let bytes = [1u8, 0, 0, 0, 0, 0, 0, 0, 2, 0, 0, 0, 0, 0, 0, 0];
    let words = Word::bytes_to_words(&bytes);
    assert_eq!(words, vec![Word::from(1), Word::from(2)]);
    assert_eq!(Word::words_to_bytes(&words), bytes.to_vec());

    let mut s = MessageSize { word_count: 3, cap_count: 1 };
    s.plus_eq(MessageSize { word_count: 4, cap_count: 2 });
    assert_eq!(s.word_count, 7);
    assert_eq!(s.cap_count, 3);

    let e = capnp::Error::new_decode_error(String::from("boom"));
    assert!(matches!(e.kind, ErrorKind::Failed));
    assert_eq!(e.description(), "boom");
    let e = capnp::Error::from_not_in_schema(NotInSchema(9));
    assert!(matches!(e.kind, ErrorKind::Failed));
}

#[test]
fn output_segments_and_total_size() {
    let mut m = MessageBuilder::new(BuilderOptions::new());
    let root = m.init_root(1, 0);
    root.set_data_u64(&mut m.arena, 0, 1, 0);
    let out = m.get_segments_for_output();
    assert_eq!(out.segment_count(), 1);
    assert_eq!(out.get_segment(0).len(), 2); // the root pointer and one data word
    let size = m.total_size();
    assert_eq!(size.word_count, 2);
    assert_eq!(size.cap_count, 0);
}

#[test]
fn struct_list_roundtrip() {
    // An inline-composite list of three structs, each with one u32 field.
    let mut m = MessageBuilder::new(BuilderOptions::new());
    let root = m.init_root(0, 1);
    let list = root.init_struct_list_field(&mut m.arena, 0, 3, 1, 0);
    for i in 0..3u32 {
        let e = list.element(&m.arena, i);
        e.set_data_u32(&mut m.arena, 0, 100 + i, 0);
    }
    let bytes = write_message(&m);
    let mut r = read_message(&bytes, ReaderOptions::new()).unwrap();
    let root = r.get_root().unwrap();
    let list = root.get_list_field(&mut r.arena, 0).unwrap();
    assert!(matches!(list.elem_size, ElementSize::InlineComposite));
    assert_eq!(list.count, 3);
    for i in 0..3u32 {
        let e = list.get_struct_element(&r.arena, i);
        assert_eq!(e.get_data_u32(&r.arena, 0, 0), 100 + i);
    }
}

#[test]
fn discriminant_error_description() {
    let d = NotInSchema(7).description();
    assert_eq!(d, "Enum value or union disriminant was not present in schema.");
    let e = capnp::Error::from_not_in_schema(NotInSchema(307));
    assert_eq!(e.reason, "Enum value or union discriminant 307 was not present in schema.");
    let e = capnp::Error::from_not_in_schema(NotInSchema(0));
    assert_eq!(e.reason, "Enum value or union discriminant 0 was not present in schema.");
}
