use binary_archive::schema::{check_field_version, check_struct_version, stored_or_default};
use binary_archive::{
    short_type_name, ArchiveError, ArchiveReader, ArchiveResult, ArchiveWriter, BinaryArchive,
    BinaryEncode, DeletedFieldPolicy, IoErrorKind,
};

fn message(err: ArchiveError) -> String {
    err.to_string()
}

#[test]
fn numbers_are_little_endian_and_round_trip() {
    assert_eq!((-2i16).to_bytes().unwrap(), vec![0xfe, 0xff]);
    assert_eq!(0x0102_0304u32.to_bytes().unwrap(), vec![4, 3, 2, 1]);
    assert_eq!((-1i64).to_bytes().unwrap(), vec![0xff; 8]);
    assert_eq!((-128i8).to_bytes().unwrap(), vec![0x80]);
    assert_eq!(i16::from_bytes(&[0xfe, 0xff]).unwrap(), -2);
    assert_eq!(i32::from_bytes(&(-7i32).to_bytes().unwrap()).unwrap(), -7);
    assert_eq!(u64::from_bytes(&u64::MAX.to_bytes().unwrap()).unwrap(), u64::MAX);
    assert_eq!(i8::from_bytes(&[0x80]).unwrap(), -128);
    assert_eq!(u16::from_bytes(&[1, 2]).unwrap(), 0x0201);
}

#[test]
fn composite_values_round_trip() {
    let words = vec![String::from("alpha"), String::new(), String::from("ünïcödé")];
    assert_eq!(Vec::<String>::from_bytes(&words.to_bytes().unwrap()).unwrap(), words);
    let nested = Some(Box::new(17u32));
    assert_eq!(
        Option::<Box<u32>>::from_bytes(&nested.to_bytes().unwrap()).unwrap(),
        nested
    );
    let array = [-1i32, 0, 1];
    assert_eq!(array.to_bytes().unwrap().len(), 12);
    assert_eq!(<[i32; 3]>::from_bytes(&array.to_bytes().unwrap()).unwrap(), array);
    assert_eq!(true.to_bytes().unwrap(), vec![1]);
    assert_eq!(None::<u8>.to_bytes().unwrap(), vec![0]);
    assert_eq!(String::from("hi").to_bytes().unwrap(), vec![2, 0, 0, 0, 0, 0, 0, 0, b'h', b'i']);
}

#[test]
fn decoding_errors_name_the_offending_value() {
    assert_eq!(
        message(bool::from_bytes(&[2]).unwrap_err()),
        "invalid data: invalid bool value: 2"
    );
    assert_eq!(
        message(Option::<u8>::from_bytes(&[7]).unwrap_err()),
        "invalid data: invalid Option marker: 7"
    );
    let mut bytes = 1u64.to_le_bytes().to_vec();
    bytes.push(255);
    assert_eq!(
        message(String::from_bytes(&bytes).unwrap_err()),
        "invalid data: invalid UTF-8: invalid utf-8 sequence of 1 bytes from index 0"
    );
    let err = u32::from_bytes(&[1, 2]).unwrap_err();
    assert!(matches!(&err, ArchiveError::Io(io) if io.kind == IoErrorKind::UnexpectedEof));
    assert_eq!(message(err), "I/O error: failed to fill whole buffer");
}

#[test]
fn error_texts_match_their_variants() {
    assert_eq!(
        message(ArchiveError::LengthOverflow { length: 1234 }),
        "length is too large for this platform: 1234"
    );
    assert_eq!(
        message(ArchiveError::LimitExceeded {
            kind: "string",
            value: 100,
            limit: 16
        }),
        "string is too large: 100 (limit: 16)"
    );
    assert_eq!(
        message(ArchiveError::ChunkNotFullyConsumed { remaining: 1 }),
        "chunk decoder left 1 bytes unread"
    );
    assert_eq!(
        message(ArchiveError::InvalidMagic {
            expected: "Record".into(),
            actual: "say \"hi\"".into()
        }),
        "invalid magic: expected \"Record\", actual \"say \\\"hi\\\"\""
    );
    assert!(ArchiveError::InvalidData("x".into()).source().is_none());
}

#[test]
fn limits_apply_to_strings_vectors_and_arrays() {
    let bytes = String::from("hello").to_bytes().unwrap();
    assert!(matches!(
        String::from_bytes_with_limit(&bytes, 4),
        Err(ArchiveError::LimitExceeded { kind: "string", value: 5, limit: 4 })
    ));
    assert_eq!(String::from_bytes_with_limit(&bytes, 5).unwrap(), "hello");
    assert!(matches!(
        Vec::<u64>::from_bytes(&u64::MAX.to_le_bytes()),
        Err(ArchiveError::LengthOverflow { length: u64::MAX })
    ));
    assert!(matches!(
        <[u8; 8]>::from_bytes_with_limit(&[0; 8], 7),
        Err(ArchiveError::LimitExceeded { kind: "collection allocation", value: 8, limit: 7 })
    ));
}

#[test]
fn short_type_names_drop_the_module_path() {
    assert_eq!(short_type_name("crate::module::Record"), "Record");
    assert_eq!(short_type_name("u32"), "u32");
    assert_eq!(short_type_name("alloc::vec::Vec<alloc::string::String>"), "String>");
    assert_eq!(short_type_name("a:::b"), "b");
    assert_eq!(short_type_name("::"), "");
}

#[test]
fn named_values_reject_other_names() {
    let mut writer = ArchiveWriter::new(Vec::new());
    writer.write_named("app::Project", &5u8).unwrap();
    let mut reader = ArchiveReader::new(writer.into_inner());
    match reader.read_named::<u8>("app::Other") {
        Err(ArchiveError::InvalidMagic { expected, actual }) => {
            assert_eq!(expected, "Other");
            assert_eq!(actual, "Project");
        }
        other => panic!("unexpected result {other:?}"),
    }
}

#[test]
fn writer_zero_fills_after_seeking_past_the_end() {
    let mut writer = ArchiveWriter::new(vec![9, 9]);
    writer.seek(4).unwrap();
    writer.write(&7u8).unwrap();
    assert_eq!(writer.position().unwrap(), 5);
    writer.seek(0).unwrap();
    writer.write(&1u8).unwrap();
    writer.flush().unwrap();
    assert_eq!(writer.into_inner(), vec![1, 9, 0, 0, 7]);
}

struct Rewind;

impl BinaryEncode for Rewind {
    fn encode(&self, writer: &mut ArchiveWriter) -> ArchiveResult<()> {
        writer.seek(0)
    }
}

#[test]
fn finishing_a_chunk_after_moving_backwards_is_an_error() {
    let mut writer = ArchiveWriter::new(Vec::new());
    let mut chunk = writer.begin_chunk(4).unwrap();
    chunk.write(&Rewind).unwrap();
    assert_eq!(
        message(chunk.finish().unwrap_err()),
        "invalid data: chunk position moved backwards"
    );
}

#[test]
fn chunk_layout_is_version_length_payload() {
    let mut writer = ArchiveWriter::new(Vec::new());
    let mut chunk = writer.begin_chunk(0x0a0b0c0d).unwrap();
    chunk.write(&1u16).unwrap();
    chunk.write(&2u8).unwrap();
    let header = chunk.finish().unwrap();
    assert_eq!(header.version, 0x0a0b0c0d);
    assert_eq!(header.length, 3);
    assert_eq!(
        writer.into_inner(),
        vec![0x0d, 0x0c, 0x0b, 0x0a, 3, 0, 0, 0, 0, 0, 0, 0, 1, 0, 2]
    );
}

#[test]
fn versioned_field_layout_matches_the_documented_format() {
    let mut writer = ArchiveWriter::new(Vec::new());
    writer
        .write_chunk(3, |chunk| {
            chunk.write(b"BARFLD01")?;
            chunk.write_versioned_field("id", 2, &9u8)
        })
        .unwrap();
    let mut expected = vec![3, 0, 0, 0, 31, 0, 0, 0, 0, 0, 0, 0];
    expected.extend_from_slice(b"BARFLD01");
    expected.extend_from_slice(&[2, 0, 0, 0, 0, 0, 0, 0, b'i', b'd']);
    expected.extend_from_slice(&[2, 0, 0, 0, 1, 0, 0, 0, 0, 0, 0, 0, 9]);
    assert_eq!(writer.into_inner(), expected);
}

#[test]
fn read_chunks_visits_every_chunk_and_skips_unread_payloads() {
    let mut writer = ArchiveWriter::new(Vec::new());
    writer.write_chunk(1, |chunk| chunk.write("first")).unwrap();
    writer.write_chunk(2, |chunk| chunk.write(&[7u8; 5])).unwrap();
    writer.write_chunk(1, |chunk| chunk.write("third")).unwrap();
    let bytes = writer.into_inner();
    let total = bytes.len() as u64;
    let mut reader = ArchiveReader::new(bytes);
    let mut seen = Vec::new();
    reader
        .read_chunks(|version, chunk| {
            if version == 1 {
                seen.push(chunk.read::<String>()?);
                chunk.finish()?;
            } else {
                seen.push(format!("skipped {}", chunk.remaining()));
            }
            Ok(())
        })
        .unwrap();
    assert_eq!(seen, ["first", "skipped 5", "third"]);
    assert_eq!(reader.position().unwrap(), total);
}

#[test]
fn read_chunks_rejects_a_truncated_stream_and_passes_callback_errors() {
    let mut writer = ArchiveWriter::new(Vec::new());
    writer.write_chunk(1, |chunk| chunk.write(&1u32)).unwrap();
    let mut bytes = writer.into_inner();
    bytes.push(0);
    let mut reader = ArchiveReader::new(bytes.clone());
    assert!(matches!(reader.read_chunks(|_, _| Ok(())), Err(ArchiveError::Io(_))));
    let mut reader = ArchiveReader::new(bytes);
    let result = reader.read_chunks(|_, _| Err(ArchiveError::InvalidData("stop".into())));
    assert!(matches!(result, Err(ArchiveError::InvalidData(m)) if m == "stop"));
}

#[test]
fn skipping_reports_overflow_and_truncation_precisely() {
    let mut bytes = 1u32.to_le_bytes().to_vec();
    bytes.extend_from_slice(&u64::MAX.to_le_bytes());
    let mut reader = ArchiveReader::new(bytes);
    assert_eq!(
        message(reader.skip_chunk().unwrap_err()),
        "invalid data: chunk end position overflow"
    );
    let mut bytes = 1u32.to_le_bytes().to_vec();
    bytes.extend_from_slice(&5u64.to_le_bytes());
    let mut reader = ArchiveReader::new(bytes);
    assert_eq!(
        message(reader.skip_chunk().unwrap_err()),
        "I/O error: truncated chunk payload"
    );
    let mut reader = ArchiveReader::new(Vec::new());
    reader.seek(u64::MAX).unwrap();
    assert_eq!(
        message(reader.skip(1).unwrap_err()),
        "invalid data: seek position overflow"
    );
    reader.seek(3).unwrap();
    reader.skip(4).unwrap();
    assert_eq!(reader.position().unwrap(), 7);
}

#[test]
fn chunk_readers_report_what_is_left() {
    let mut writer = ArchiveWriter::new(Vec::new());
    writer.write_chunk(1, |chunk| chunk.write(&[1u8, 2, 3])).unwrap();
    let mut reader = ArchiveReader::new(writer.into_inner());
    let mut chunk = reader.read_chunk().unwrap();
    assert_eq!(chunk.read::<u8>().unwrap(), 1);
    assert_eq!(chunk.remaining(), 2);
    assert!(matches!(
        chunk.finish(),
        Err(ArchiveError::ChunkNotFullyConsumed { remaining: 2 })
    ));
    chunk.skip_remaining();
    assert_eq!(chunk.remaining(), 0);
    chunk.finish().unwrap();
}

#[test]
fn versioned_metadata_errors_are_specific() {
    let mut writer = ArchiveWriter::new(Vec::new());
    writer.write_chunk(1, |chunk| chunk.write(b"BARFLD02")).unwrap();
    let mut reader = ArchiveReader::new(writer.into_inner());
    let mut chunk = reader.read_chunk().unwrap();
    assert_eq!(
        message(chunk.read_versioned_fields(|_, _, _| Ok(())).unwrap_err()),
        "invalid data: expected versioned field format; migrate legacy positional data first"
    );

    let mut writer = ArchiveWriter::new(Vec::new());
    writer
        .write_chunk(1, |chunk| {
            chunk.write(b"BARFLD01")?;
            chunk.write_versioned_field("value", 2, &1u8)
        })
        .unwrap();
    let mut reader = ArchiveReader::new(writer.into_inner());
    let mut chunk = reader.read_chunk().unwrap();
    assert_eq!(
        message(chunk.read_versioned_fields(|_, _, _| Ok(())).unwrap_err()),
        "invalid data: field \"value\" version 2 exceeds stored struct version 1"
    );

    let mut writer = ArchiveWriter::new(Vec::new());
    writer
        .write_chunk(1, |chunk| {
            chunk.write(b"BARFLD01")?;
            chunk.write_versioned_field("value", 1, &1u8)?;
            chunk.write_versioned_field("value", 1, &2u8)
        })
        .unwrap();
    let mut reader = ArchiveReader::new(writer.into_inner());
    let mut chunk = reader.read_chunk().unwrap();
    let mut calls = 0;
    let err = chunk
        .read_versioned_fields(|_, _, field| {
            calls += 1;
            field.skip_remaining();
            Ok(())
        })
        .unwrap_err();
    assert_eq!(calls, 1);
    assert_eq!(message(err), "invalid data: duplicate field \"value\"");
}

fn fields_old_and_future(struct_version: u32, policy: DeletedFieldPolicy) -> ArchiveReader {
    let mut writer = ArchiveWriter::new(Vec::new());
    writer
        .write_chunk(struct_version, |chunk| {
            chunk.write(b"BARFLD01")?;
            chunk.write_versioned_field("old", 1, &1u8)?;
            chunk.write_versioned_field("future", 3, &2u8)
        })
        .unwrap();
    ArchiveReader::new(writer.into_inner()).with_deleted_field_policy(policy)
}

#[test]
fn fields_newer_than_their_struct_are_rejected() {
    let mut reader = fields_old_and_future(2, DeletedFieldPolicy::Warn);
    let mut chunk = reader.read_chunk().unwrap();
    assert_eq!(chunk.deleted_field_policy(), DeletedFieldPolicy::Warn);
    let mut calls = 0;
    let err = chunk
        .read_versioned_fields(|name, _, field| {
            calls += 1;
            field.handle_deleted_field("Schema", name, 2)
        })
        .unwrap_err();
    assert_eq!(calls, 1);
    assert_eq!(
        message(err),
        "invalid data: field \"future\" version 3 exceeds stored struct version 2"
    );
}

#[test]
fn deleted_fields_warn_under_the_warn_policy() {
    let mut reader = fields_old_and_future(3, DeletedFieldPolicy::Warn);
    let mut chunk = reader.read_chunk().unwrap();
    chunk
        .read_versioned_fields(|name, _, field| field.handle_deleted_field("Schema", name, 2))
        .unwrap();
    reader.absorb_warnings(&mut chunk);
    assert_eq!(
        reader.warnings(),
        &vec![String::from(
            "stored field Schema.old (introduced in version 1) is absent from schema version 2; field discarded"
        )]
    );
    assert!(reader.take_warnings().len() == 1);
    assert!(reader.warnings().is_empty());
}

#[test]
fn deleted_fields_fail_under_the_error_policy() {
    let mut reader = fields_old_and_future(3, DeletedFieldPolicy::Error);
    let mut chunk = reader.read_chunk().unwrap();
    let err = chunk
        .read_versioned_fields(|name, _, field| field.handle_deleted_field("Schema", name, 2))
        .unwrap_err();
    assert_eq!(
        message(err),
        "invalid data: stored field Schema.old (introduced in version 1) is absent from schema version 2; field discarded"
    );
    assert!(reader.warnings().is_empty());
}

#[test]
fn schema_decisions_for_derived_decoders() {
    check_struct_version("Point", 2, 2).unwrap();
    assert_eq!(
        message(check_struct_version("Point", 2, 3).unwrap_err()),
        "invalid data: unsupported Point version: expected 2, actual 3"
    );
    check_field_version("Point", "x", 1, 1).unwrap();
    assert_eq!(
        message(check_field_version("Point", "x", 1, 2).unwrap_err()),
        "invalid data: field Point.x introduction version changed: expected 1, actual 2"
    );
    assert_eq!(stored_or_default(Some(5u32), 1, 1, "Point", "x", 0).unwrap(), 5);
    assert_eq!(stored_or_default(None, 1, 2, "Point", "y", 8u32).unwrap(), 8);
    assert_eq!(
        message(stored_or_default(None, 2, 2, "Point", "y", 8u32).unwrap_err()),
        "invalid data: missing field Point.y in stored schema version 2"
    );
}

#[test]
fn whole_buffer_decoding_requires_the_end() {
    let mut reader = ArchiveReader::new(vec![1, 2]);
    let first: u8 = reader.read().unwrap();
    assert_eq!(
        message(reader.expect_end(first).unwrap_err()),
        "invalid data: trailing bytes after value"
    );
    let second: u8 = reader.read().unwrap();
    assert_eq!(reader.expect_end(second).unwrap(), 2);
    assert!(matches!(
        u8::from_bytes_with_policy(&[3, 4], DeletedFieldPolicy::Error),
        Err(ArchiveError::InvalidData(_))
    ));
    assert_eq!(u8::from_bytes_with_policy(&[3], DeletedFieldPolicy::Error).unwrap(), 3);
}

#[test]
fn a_failing_chunk_closure_passes_its_error_on_and_leaves_the_length_zero() {
    let mut writer = ArchiveWriter::new(Vec::new());
    let err = writer
        .write_chunk(5, |chunk| {
            chunk.write(&9u8)?;
            Err(ArchiveError::InvalidData(String::from("stop")))
        })
        .unwrap_err();
    assert_eq!(message(err), "invalid data: stop");
    assert_eq!(writer.into_inner(), vec![5, 0, 0, 0, 0, 0, 0, 0, 0, 0, 0, 0, 9]);
}

#[test]
fn warnings_survive_a_failing_field_callback() {
    let mut writer = ArchiveWriter::new(Vec::new());
    writer
        .write_chunk(3, |chunk| {
            chunk.write(b"BARFLD01")?;
            chunk.write_versioned_field("old", 1, &1u8)
        })
        .unwrap();
    let mut reader = ArchiveReader::new(writer.into_inner());
    let mut chunk = reader.read_chunk().unwrap();
    let err = chunk
        .read_versioned_fields(|name, _, field| {
            field.handle_deleted_field("Schema", name, 2)?;
            Err(ArchiveError::InvalidData(String::from("callback failed")))
        })
        .unwrap_err();
    assert_eq!(message(err), "invalid data: callback failed");
    assert_eq!(
        chunk.take_warnings(),
        vec![String::from(
            "stored field Schema.old (introduced in version 1) is absent from schema version 2; field discarded"
        )]
    );
}

#[test]
fn a_mismatched_name_leaves_the_value_unread() {
    let mut writer = ArchiveWriter::new(Vec::new());
    writer.write_named("crate::Other", &7u32).unwrap();
    let mut reader = ArchiveReader::new(writer.into_inner());
    let err = reader.read_named::<u32>("crate::Expected").unwrap_err();
    assert!(matches!(err, ArchiveError::InvalidMagic { .. }));
    assert_eq!(reader.position().unwrap(), 8 + 5);
    assert_eq!(reader.read::<u32>().unwrap(), 7);
}

#[test]
fn the_panic_policy_is_decided_by_the_library() {
    let mut writer = ArchiveWriter::new(Vec::new());
    writer.write_chunk(3, |chunk| chunk.write(&1u8)).unwrap();
    let bytes = writer.into_inner();
    let mut reader = ArchiveReader::new(bytes.clone()).with_deleted_field_policy(DeletedFieldPolicy::Panic);
    let chunk = reader.read_chunk().unwrap();
    assert!(chunk.deleted_field_panics(3));
    assert!(!chunk.deleted_field_panics(2));
    assert_eq!(
        chunk.deleted_field_panic_message("S", "f", 4),
        "binary_archive: stored field S.f (introduced in version 3) is absent from schema version 4; field discarded"
    );
    let mut reader = ArchiveReader::new(bytes).with_deleted_field_policy(DeletedFieldPolicy::Warn);
    assert!(!reader.read_chunk().unwrap().deleted_field_panics(3));
}
