use binary_archive::schema::{check_field_version, check_struct_version, stored_or_default};
use binary_archive::{
    ArchiveError, ArchiveReader, ArchiveResult, ArchiveWriter, BinaryArchive, BinaryDecode,
    BinaryEncode, ChunkReader, DeletedFieldPolicy,
};

// The codecs below are what `#[derive(BinaryArchive)]` generates for versioned
// structs: the field marker, then one named record per field.

/// What the generated decoder does with a stored field that its schema lacks.
fn deleted(field: &mut ChunkReader, struct_name: &str, name: &str, version: u32) -> ArchiveResult<()> {
    if field.deleted_field_panics(version) {
        panic!("{}", field.deleted_field_panic_message(struct_name, name, version));
    }
    field.handle_deleted_field(struct_name, name, version)
}

#[derive(Debug, PartialEq)]
struct V1 {
    name: String,
    removed: u64,
    count: u32,
}

impl BinaryEncode for V1 {
    fn encode(&self, writer: &mut ArchiveWriter) -> ArchiveResult<()> {
        writer.write_chunk(1, |chunk| {
            chunk.write(b"BARFLD01")?;
            chunk.write_versioned_field("name", 1, &self.name)?;
            chunk.write_versioned_field("removed", 1, &self.removed)?;
            chunk.write_versioned_field("count", 1, &self.count)?;
            Ok(())
        })?;
        Ok(())
    }
}

impl BinaryDecode for V1 {
    fn decode(reader: &mut ArchiveReader) -> ArchiveResult<Self> {
        let mut chunk = reader.read_chunk()?;
        let stored = chunk.header().version;
        let mut name: Option<String> = None;
        let mut removed: Option<u64> = None;
        let mut count: Option<u32> = None;
        chunk.read_versioned_fields(|id, version, field| {
            match id {
                "name" => {
                    check_field_version("V1", "name", 1, version)?;
                    name = Some(field.read::<String>()?);
                    field.finish()?;
                }
                "removed" => {
                    check_field_version("V1", "removed", 1, version)?;
                    removed = Some(field.read::<u64>()?);
                    field.finish()?;
                }
                "count" => {
                    check_field_version("V1", "count", 1, version)?;
                    count = Some(field.read::<u32>()?);
                    field.finish()?;
                }
                _ => deleted(field, "V1", id, 1)?,
            }
            Ok(())
        })?;
        reader.absorb_warnings(&mut chunk);
        Ok(V1 {
            name: stored_or_default(name, stored, 1, "V1", "name", String::default())?,
            removed: stored_or_default(removed, stored, 1, "V1", "removed", 0)?,
            count: stored_or_default(count, stored, 1, "V1", "count", 0)?,
        })
    }
}

#[derive(Debug, PartialEq)]
struct V2 {
    // Reordering is safe: fields are identified by stable names.
    count: u32,
    name: String,
    visible: bool,
    description: String,
}

impl BinaryEncode for V2 {
    fn encode(&self, writer: &mut ArchiveWriter) -> ArchiveResult<()> {
        writer.write_chunk(2, |chunk| {
            chunk.write(b"BARFLD01")?;
            chunk.write_versioned_field("count", 1, &self.count)?;
            chunk.write_versioned_field("name", 1, &self.name)?;
            chunk.write_versioned_field("visible", 2, &self.visible)?;
            chunk.write_versioned_field("description", 2, &self.description)?;
            Ok(())
        })?;
        Ok(())
    }
}

impl BinaryDecode for V2 {
    fn decode(reader: &mut ArchiveReader) -> ArchiveResult<Self> {
        let mut chunk = reader.read_chunk()?;
        let stored = chunk.header().version;
        let mut count: Option<u32> = None;
        let mut name: Option<String> = None;
        let mut visible: Option<bool> = None;
        let mut description: Option<String> = None;
        chunk.read_versioned_fields(|id, version, field| {
            match id {
                "count" => {
                    check_field_version("V2", "count", 1, version)?;
                    count = Some(field.read::<u32>()?);
                    field.finish()?;
                }
                "name" => {
                    check_field_version("V2", "name", 1, version)?;
                    name = Some(field.read::<String>()?);
                    field.finish()?;
                }
                "visible" => {
                    check_field_version("V2", "visible", 2, version)?;
                    visible = Some(field.read::<bool>()?);
                    field.finish()?;
                }
                "description" => {
                    check_field_version("V2", "description", 2, version)?;
                    description = Some(field.read::<String>()?);
                    field.finish()?;
                }
                _ => deleted(field, "V2", id, 2)?,
            }
            Ok(())
        })?;
        reader.absorb_warnings(&mut chunk);
        Ok(V2 {
            count: stored_or_default(count, stored, 1, "V2", "count", 0)?,
            name: stored_or_default(name, stored, 1, "V2", "name", String::default())?,
            visible: stored_or_default(visible, stored, 2, "V2", "visible", false)?,
            description: stored_or_default(
                description,
                stored,
                2,
                "V2",
                "description",
                String::from("new field"),
            )?,
        })
    }
}

fn old_value() -> V1 {
    V1 {
        name: "demo".into(),
        removed: 99,
        count: 7,
    }
}

fn new_value() -> V2 {
    V2 {
        count: 7,
        name: "demo".into(),
        visible: true,
        description: "saved".into(),
    }
}

#[test]
fn version_two_reads_version_one_and_defaults_new_fields() {
    let result = V2::from_bytes(&old_value().to_bytes().unwrap()).unwrap();
    assert_eq!(
        result,
        V2 {
            count: 7,
            name: "demo".into(),
            visible: false,
            description: "new field".into()
        }
    );
}

#[test]
fn default_warning_can_be_redirected_and_describes_deleted_field() {
    assert_eq!(DeletedFieldPolicy::default(), DeletedFieldPolicy::Warn);
    let bytes = old_value().to_bytes().unwrap();
    let mut reader = ArchiveReader::new(bytes);
    reader.read::<V2>().unwrap();
    let messages = reader.take_warnings();
    assert_eq!(messages.len(), 1);
    assert!(messages[0].contains("V2.removed"));
    assert!(messages[0].contains("introduced in version 1"));
}

#[derive(Debug, PartialEq)]
struct Earlier {
    name: String,
    count: u32,
}

impl BinaryEncode for Earlier {
    fn encode(&self, writer: &mut ArchiveWriter) -> ArchiveResult<()> {
        writer.write_chunk(1, |chunk| {
            chunk.write(b"BARFLD01")?;
            chunk.write_versioned_field("name", 1, &self.name)?;
            chunk.write_versioned_field("count", 1, &self.count)?;
            Ok(())
        })?;
        Ok(())
    }
}

impl BinaryDecode for Earlier {
    fn decode(reader: &mut ArchiveReader) -> ArchiveResult<Self> {
        let mut chunk = reader.read_chunk()?;
        let stored = chunk.header().version;
        let mut name: Option<String> = None;
        let mut count: Option<u32> = None;
        chunk.read_versioned_fields(|id, version, field| {
            match id {
                "name" => {
                    check_field_version("Earlier", "name", 1, version)?;
                    name = Some(field.read::<String>()?);
                    field.finish()?;
                }
                "count" => {
                    check_field_version("Earlier", "count", 1, version)?;
                    count = Some(field.read::<u32>()?);
                    field.finish()?;
                }
                _ => deleted(field, "Earlier", id, 1)?,
            }
            Ok(())
        })?;
        reader.absorb_warnings(&mut chunk);
        Ok(Earlier {
            name: stored_or_default(name, stored, 1, "Earlier", "name", String::default())?,
            count: stored_or_default(count, stored, 1, "Earlier", "count", 0)?,
        })
    }
}

#[test]
fn older_reader_silently_skips_fields_introduced_by_newer_schema() {
    let value =
        Earlier::from_bytes_with_policy(&new_value().to_bytes().unwrap(), DeletedFieldPolicy::Panic)
            .unwrap();
    assert_eq!(
        value,
        Earlier {
            name: "demo".into(),
            count: 7
        }
    );
}

#[test]
fn same_version_round_trip_and_field_metadata_inherit_struct_version() {
    assert_eq!(V2::from_bytes(&new_value().to_bytes().unwrap()).unwrap(), new_value());
    let mut reader = ArchiveReader::new(new_value().to_bytes().unwrap());
    let mut chunk = reader.read_chunk().unwrap();
    assert_eq!(chunk.header().version, 2);
    let mut fields = Vec::new();
    chunk
        .read_versioned_fields(|name, version, _| {
            fields.push((name.to_owned(), version));
            Ok(())
        })
        .unwrap();
    assert_eq!(
        fields,
        [
            ("count".into(), 1),
            ("name".into(), 1),
            ("visible".into(), 2),
            ("description".into(), 2)
        ]
    );
}

#[derive(Debug)]
struct Incorrect {
    name: String,
}

impl BinaryEncode for Incorrect {
    fn encode(&self, writer: &mut ArchiveWriter) -> ArchiveResult<()> {
        writer.write_chunk(2, |chunk| {
            chunk.write(b"BARFLD01")?;
            chunk.write_versioned_field("name", 2, &self.name)?;
            Ok(())
        })?;
        Ok(())
    }
}

impl BinaryDecode for Incorrect {
    fn decode(reader: &mut ArchiveReader) -> ArchiveResult<Self> {
        let mut chunk = reader.read_chunk()?;
        let stored = chunk.header().version;
        let mut name: Option<String> = None;
        chunk.read_versioned_fields(|id, version, field| {
            match id {
                "name" => {
                    check_field_version("Incorrect", "name", 2, version)?;
                    name = Some(field.read::<String>()?);
                    field.finish()?;
                }
                _ => deleted(field, "Incorrect", id, 2)?,
            }
            Ok(())
        })?;
        reader.absorb_warnings(&mut chunk);
        Ok(Incorrect {
            name: stored_or_default(name, stored, 2, "Incorrect", "name", String::default())?,
        })
    }
}

#[test]
fn introduction_version_must_remain_stable() {
    assert!(
        Incorrect::from_bytes(&old_value().to_bytes().unwrap())
            .unwrap_err()
            .to_string()
            .contains("introduction version changed")
    );
}

fn encoded_fields(version: u32, fields: &[(&str, u32, u32)]) -> Vec<u8> {
    let mut writer = ArchiveWriter::new(Vec::new());
    writer
        .write_chunk(version, |chunk| {
            chunk.write(b"BARFLD01")?;
            for (name, since, value) in fields {
                chunk.write_versioned_field(name, *since, value)?;
            }
            Ok(())
        })
        .unwrap();
    writer.into_inner()
}

#[derive(Debug)]
struct Required {
    value: u32,
}

impl BinaryEncode for Required {
    fn encode(&self, writer: &mut ArchiveWriter) -> ArchiveResult<()> {
        writer.write_chunk(1, |chunk| {
            chunk.write(b"BARFLD01")?;
            chunk.write_versioned_field("value", 1, &self.value)?;
            Ok(())
        })?;
        Ok(())
    }
}

impl BinaryDecode for Required {
    fn decode(reader: &mut ArchiveReader) -> ArchiveResult<Self> {
        let mut chunk = reader.read_chunk()?;
        let stored = chunk.header().version;
        let mut value: Option<u32> = None;
        chunk.read_versioned_fields(|id, version, field| {
            match id {
                "value" => {
                    check_field_version("Required", "value", 1, version)?;
                    value = Some(field.read::<u32>()?);
                    field.finish()?;
                }
                _ => deleted(field, "Required", id, 1)?,
            }
            Ok(())
        })?;
        reader.absorb_warnings(&mut chunk);
        Ok(Required {
            value: stored_or_default(value, stored, 1, "Required", "value", 0)?,
        })
    }
}

#[test]
fn missing_existing_fields_are_errors_not_defaults() {
    let bytes = encoded_fields(1, &[]);
    assert!(
        Required::from_bytes(&bytes)
            .unwrap_err()
            .to_string()
            .contains("missing field")
    );
}

#[test]
fn invalid_field_metadata_and_duplicates_are_rejected() {
    for fields in [
        vec![("value", 2, 1)],
        vec![("value", 1, 1), ("value", 1, 2)],
        vec![("unknown", 1, 1), ("unknown", 1, 2)],
    ] {
        assert!(matches!(
            Required::from_bytes(&encoded_fields(1, &fields)),
            Err(ArchiveError::InvalidData(_))
        ));
    }
}

#[test]
fn stored_field_payload_is_bounded_and_must_be_fully_read() {
    let mut bytes = encoded_fields(1, &[("value", 1, 1)]);
    // Outer chunk length is patched to add one extra payload byte to the field.
    let outer_length = bytes.len() as u64 - 12 + 1;
    bytes[4..12].copy_from_slice(&outer_length.to_le_bytes());
    let field_length_position = 12 + 8 + 8 + "value".len() + 4;
    bytes[field_length_position..field_length_position + 8].copy_from_slice(&5u64.to_le_bytes());
    bytes.push(0);
    assert!(matches!(
        Required::from_bytes(&bytes),
        Err(ArchiveError::ChunkNotFullyConsumed { remaining: 1 })
    ));
}

#[test]
fn every_truncated_versioned_record_is_rejected() {
    let bytes = new_value().to_bytes().unwrap();
    for length in 0..bytes.len() {
        assert!(V2::from_bytes(&bytes[..length]).is_err(), "length {length}");
    }
}

struct Legacy {
    value: u32,
}

impl BinaryEncode for Legacy {
    fn encode(&self, writer: &mut ArchiveWriter) -> ArchiveResult<()> {
        writer.write_chunk(1, |chunk| {
            chunk.write(&self.value)?;
            Ok(())
        })?;
        Ok(())
    }
}

impl BinaryDecode for Legacy {
    fn decode(reader: &mut ArchiveReader) -> ArchiveResult<Self> {
        let mut chunk = reader.read_chunk()?;
        check_struct_version("Legacy", 1, chunk.header().version)?;
        let value = Legacy {
            value: chunk.read()?,
        };
        chunk.finish()?;
        reader.absorb_warnings(&mut chunk);
        Ok(value)
    }
}

#[test]
fn legacy_positional_format_requires_explicit_migration() {
    assert!(Required::from_bytes(&Legacy { value: 7 }.to_bytes().unwrap()).is_err());
}

struct OldContainer {
    nested: V1,
}

impl BinaryEncode for OldContainer {
    fn encode(&self, writer: &mut ArchiveWriter) -> ArchiveResult<()> {
        writer.write_chunk(1, |chunk| {
            chunk.write(&self.nested)?;
            Ok(())
        })?;
        Ok(())
    }
}

impl BinaryDecode for OldContainer {
    fn decode(reader: &mut ArchiveReader) -> ArchiveResult<Self> {
        let mut chunk = reader.read_chunk()?;
        check_struct_version("OldContainer", 1, chunk.header().version)?;
        let value = OldContainer {
            nested: chunk.read()?,
        };
        chunk.finish()?;
        reader.absorb_warnings(&mut chunk);
        Ok(value)
    }
}

struct NewContainer {
    nested: V2,
}

impl BinaryEncode for NewContainer {
    fn encode(&self, writer: &mut ArchiveWriter) -> ArchiveResult<()> {
        writer.write_chunk(1, |chunk| {
            chunk.write(&self.nested)?;
            Ok(())
        })?;
        Ok(())
    }
}

impl BinaryDecode for NewContainer {
    fn decode(reader: &mut ArchiveReader) -> ArchiveResult<Self> {
        let mut chunk = reader.read_chunk()?;
        check_struct_version("NewContainer", 1, chunk.header().version)?;
        let value = NewContainer {
            nested: chunk.read()?,
        };
        chunk.finish()?;
        reader.absorb_warnings(&mut chunk);
        Ok(value)
    }
}

#[derive(Debug)]
struct Large {
    value: String,
}

impl BinaryEncode for Large {
    fn encode(&self, writer: &mut ArchiveWriter) -> ArchiveResult<()> {
        writer.write_chunk(1, |chunk| {
            chunk.write(b"BARFLD01")?;
            chunk.write_versioned_field("value", 1, &self.value)?;
            Ok(())
        })?;
        Ok(())
    }
}

impl BinaryDecode for Large {
    fn decode(reader: &mut ArchiveReader) -> ArchiveResult<Self> {
        let mut chunk = reader.read_chunk()?;
        let stored = chunk.header().version;
        let mut value: Option<String> = None;
        chunk.read_versioned_fields(|id, version, field| {
            match id {
                "value" => {
                    check_field_version("Large", "value", 1, version)?;
                    value = Some(field.read::<String>()?);
                    field.finish()?;
                }
                _ => deleted(field, "Large", id, 1)?,
            }
            Ok(())
        })?;
        reader.absorb_warnings(&mut chunk);
        Ok(Large {
            value: stored_or_default(value, stored, 1, "Large", "value", String::default())?,
        })
    }
}

#[test]
fn nested_fields_inherit_policy_and_allocation_limits() {
    let bytes = OldContainer { nested: old_value() }.to_bytes().unwrap();
    assert!(matches!(
        NewContainer::from_bytes_with_policy(&bytes, DeletedFieldPolicy::Error),
        Err(ArchiveError::InvalidData(_))
    ));

    let mut writer = ArchiveWriter::new(Vec::new());
    writer
        .write_chunk(1, |chunk| {
            chunk.write(b"BARFLD01")?;
            chunk.write_versioned_field("value", 1, &1000u64)
        })
        .unwrap();
    let bytes = writer.into_inner();
    assert!(matches!(
        Large::from_bytes_with_limit(&bytes, 100),
        Err(ArchiveError::LimitExceeded { limit: 100, .. })
    ));
}

#[derive(Debug, PartialEq)]
struct Renamed {
    renamed: u32,
}

impl BinaryEncode for Renamed {
    fn encode(&self, writer: &mut ArchiveWriter) -> ArchiveResult<()> {
        writer.write_chunk(2, |chunk| {
            chunk.write(b"BARFLD01")?;
            chunk.write_versioned_field("value", 1, &self.renamed)?;
            Ok(())
        })?;
        Ok(())
    }
}

impl BinaryDecode for Renamed {
    fn decode(reader: &mut ArchiveReader) -> ArchiveResult<Self> {
        let mut chunk = reader.read_chunk()?;
        let stored = chunk.header().version;
        let mut renamed: Option<u32> = None;
        chunk.read_versioned_fields(|id, version, field| {
            match id {
                "value" => {
                    check_field_version("Renamed", "value", 1, version)?;
                    renamed = Some(field.read::<u32>()?);
                    field.finish()?;
                }
                _ => deleted(field, "Renamed", id, 2)?,
            }
            Ok(())
        })?;
        reader.absorb_warnings(&mut chunk);
        Ok(Renamed {
            renamed: stored_or_default(renamed, stored, 1, "Renamed", "value", 0)?,
        })
    }
}

#[derive(Debug, PartialEq)]
struct Tuple(u32, bool);

impl BinaryEncode for Tuple {
    fn encode(&self, writer: &mut ArchiveWriter) -> ArchiveResult<()> {
        writer.write_chunk(2, |chunk| {
            chunk.write(b"BARFLD01")?;
            chunk.write_versioned_field("value", 1, &self.0)?;
            chunk.write_versioned_field("1", 2, &self.1)?;
            Ok(())
        })?;
        Ok(())
    }
}

impl BinaryDecode for Tuple {
    fn decode(reader: &mut ArchiveReader) -> ArchiveResult<Self> {
        let mut chunk = reader.read_chunk()?;
        let stored = chunk.header().version;
        let mut first: Option<u32> = None;
        let mut second: Option<bool> = None;
        chunk.read_versioned_fields(|id, version, field| {
            match id {
                "value" => {
                    check_field_version("Tuple", "value", 1, version)?;
                    first = Some(field.read::<u32>()?);
                    field.finish()?;
                }
                "1" => {
                    check_field_version("Tuple", "1", 2, version)?;
                    second = Some(field.read::<bool>()?);
                    field.finish()?;
                }
                _ => deleted(field, "Tuple", id, 2)?,
            }
            Ok(())
        })?;
        reader.absorb_warnings(&mut chunk);
        Ok(Tuple(
            stored_or_default(first, stored, 1, "Tuple", "value", 0)?,
            stored_or_default(second, stored, 2, "Tuple", "1", false)?,
        ))
    }
}

#[test]
fn renamed_and_tuple_fields_can_keep_explicit_stable_ids() {
    let bytes = encoded_fields(1, &[("value", 1, 42)]);
    assert_eq!(
        Renamed::from_bytes(&bytes).unwrap(),
        Renamed { renamed: 42 }
    );
    assert_eq!(Tuple::from_bytes(&bytes).unwrap(), Tuple(42, false));
}

#[derive(Debug, PartialEq)]
struct NoDefault {
    value: u32,
}

impl BinaryEncode for NoDefault {
    fn encode(&self, writer: &mut ArchiveWriter) -> ArchiveResult<()> {
        writer.write_chunk(1, |chunk| {
            chunk.write(&self.value)?;
            Ok(())
        })?;
        Ok(())
    }
}

impl BinaryDecode for NoDefault {
    fn decode(reader: &mut ArchiveReader) -> ArchiveResult<Self> {
        let mut chunk = reader.read_chunk()?;
        check_struct_version("NoDefault", 1, chunk.header().version)?;
        let value = NoDefault {
            value: chunk.read()?,
        };
        chunk.finish()?;
        reader.absorb_warnings(&mut chunk);
        Ok(value)
    }
}

#[derive(Debug, PartialEq)]
struct Generic<T> {
    value: T,
    added: NoDefault,
}

impl<T: BinaryEncode> BinaryEncode for Generic<T> {
    fn encode(&self, writer: &mut ArchiveWriter) -> ArchiveResult<()> {
        writer.write_chunk(2, |chunk| {
            chunk.write(b"BARFLD01")?;
            chunk.write_versioned_field("value", 1, &self.value)?;
            chunk.write_versioned_field("added", 2, &self.added)?;
            Ok(())
        })?;
        Ok(())
    }
}

impl<T: BinaryDecode + Default> BinaryDecode for Generic<T> {
    fn decode(reader: &mut ArchiveReader) -> ArchiveResult<Self> {
        let mut chunk = reader.read_chunk()?;
        let stored = chunk.header().version;
        let mut value: Option<T> = None;
        let mut added: Option<NoDefault> = None;
        chunk.read_versioned_fields(|id, version, field| {
            match id {
                "value" => {
                    check_field_version("Generic", "value", 1, version)?;
                    value = Some(field.read::<T>()?);
                    field.finish()?;
                }
                "added" => {
                    check_field_version("Generic", "added", 2, version)?;
                    added = Some(field.read::<NoDefault>()?);
                    field.finish()?;
                }
                _ => deleted(field, "Generic", id, 2)?,
            }
            Ok(())
        })?;
        reader.absorb_warnings(&mut chunk);
        Ok(Generic {
            value: stored_or_default(value, stored, 1, "Generic", "value", T::default())?,
            added: stored_or_default(added, stored, 2, "Generic", "added", NoDefault { value: 99 })?,
        })
    }
}

#[test]
fn custom_defaults_support_non_default_field_types_and_generic_structs() {
    let value = Generic::<u32>::from_bytes(&encoded_fields(1, &[("value", 1, 3)])).unwrap();
    assert_eq!(
        value,
        Generic {
            value: 3,
            added: NoDefault { value: 99 }
        }
    );
    assert_eq!(
        Generic::<u32>::from_bytes(&value.to_bytes().unwrap()).unwrap(),
        value
    );
}

#[derive(Debug, PartialEq)]
struct Implicit {
    value: u32,
}

impl BinaryEncode for Implicit {
    fn encode(&self, writer: &mut ArchiveWriter) -> ArchiveResult<()> {
        writer.write_chunk(1, |chunk| {
            chunk.write(b"BARFLD01")?;
            chunk.write_versioned_field("value", 1, &self.value)?;
            Ok(())
        })?;
        Ok(())
    }
}

impl BinaryDecode for Implicit {
    fn decode(reader: &mut ArchiveReader) -> ArchiveResult<Self> {
        let mut chunk = reader.read_chunk()?;
        let stored = chunk.header().version;
        let mut value: Option<u32> = None;
        chunk.read_versioned_fields(|id, version, field| {
            match id {
                "value" => {
                    check_field_version("Implicit", "value", 1, version)?;
                    value = Some(field.read::<u32>()?);
                    field.finish()?;
                }
                _ => deleted(field, "Implicit", id, 1)?,
            }
            Ok(())
        })?;
        reader.absorb_warnings(&mut chunk);
        Ok(Implicit {
            value: stored_or_default(value, stored, 1, "Implicit", "value", 0)?,
        })
    }
}

#[derive(Debug, PartialEq)]
struct Empty;

impl BinaryEncode for Empty {
    fn encode(&self, writer: &mut ArchiveWriter) -> ArchiveResult<()> {
        writer.write_chunk(1, |chunk| {
            chunk.write(b"BARFLD01")?;
            Ok(())
        })?;
        Ok(())
    }
}

impl BinaryDecode for Empty {
    fn decode(reader: &mut ArchiveReader) -> ArchiveResult<Self> {
        let mut chunk = reader.read_chunk()?;
        chunk.read_versioned_fields(|id, _version, field| {
            deleted(field, "Empty", id, 1)?;
            Ok(())
        })?;
        reader.absorb_warnings(&mut chunk);
        Ok(Empty)
    }
}

#[test]
fn field_annotations_enable_new_format_and_empty_structs_work() {
    assert_eq!(
        Implicit::from_bytes(&encoded_fields(1, &[("value", 1, 3)])).unwrap(),
        Implicit { value: 3 }
    );
    assert_eq!(Empty::from_bytes(&encoded_fields(1, &[])).unwrap(), Empty);
}

#[test]
fn consecutive_versioned_objects_leave_stream_aligned() {
    let mut writer = ArchiveWriter::new(Vec::new());
    writer.write_named("versioned::V2", &new_value()).unwrap();
    writer.write_named("versioned::V2", &new_value()).unwrap();
    let mut reader = ArchiveReader::new(writer.into_inner());
    assert_eq!(reader.read_named::<V2>("versioned::V2").unwrap(), new_value());
    assert_eq!(reader.read_named::<V2>("versioned::V2").unwrap(), new_value());
}

#[test]
fn whole_buffer_decoding_can_report_its_warnings() {
    let bytes = old_value().to_bytes().unwrap();
    let (value, warnings) = V2::from_bytes_reporting(&bytes, DeletedFieldPolicy::Warn);
    value.unwrap();
    assert_eq!(warnings.len(), 1);
    assert!(warnings[0].contains("V2.removed"));
    let (value, warnings) = V2::from_bytes_reporting(&bytes, DeletedFieldPolicy::Error);
    assert!(matches!(value, Err(ArchiveError::InvalidData(_))));
    assert!(warnings.is_empty());
}
