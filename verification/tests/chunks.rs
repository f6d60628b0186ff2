use binary_archive::{ArchiveError, ArchiveReader, ArchiveWriter};

#[test]
fn chunks_round_trip_and_skip() {
    let mut writer = ArchiveWriter::new(Vec::new());
    let first = writer.write_chunk(3, |chunk| chunk.write("hello")).unwrap();
    let second = writer
        .write_chunk(7, |chunk| chunk.write(&1234u32))
        .unwrap();
    assert_eq!(first.length, 13);
    assert_eq!(second.length, 4);

    let mut reader = ArchiveReader::new(writer.into_inner());
    let mut chunk = reader.read_chunk().unwrap();
    assert_eq!(chunk.read::<String>().unwrap(), "hello");
    chunk.finish().unwrap();
    assert_eq!(reader.skip_chunk().unwrap().version, 7);
}

#[test]
fn chunk_payload_is_bounded() {
    let mut bytes = Vec::new();
    bytes.extend_from_slice(&1u32.to_le_bytes());
    bytes.extend_from_slice(&100u64.to_le_bytes());
    bytes.extend_from_slice(&[0; 3]);
    let mut reader = ArchiveReader::new(bytes);
    assert!(matches!(reader.read_chunk(), Err(ArchiveError::Io(_))));
}

#[test]
fn named_values_validate_type_name() {
    let mut writer = ArchiveWriter::new(Vec::new());
    writer.write_named("u32", &123u32).unwrap();
    let mut reader = ArchiveReader::new(writer.into_inner());
    assert_eq!(reader.read_named::<u32>("u32").unwrap(), 123);
}
