use crate::archive::policy::{DecodeOptions, DeletedFieldPolicy};
use crate::archive::reader::{is_out_of_memory, ArchiveReader, DEFAULT_MAX_ALLOCATION};
use crate::archive::writer::{write_at, ArchiveWriter};
use crate::codec::traits::{BinaryDecode, BinaryEncode};
use crate::error::{is_invalid_data, ArchiveError, ArchiveResult};
use vstd::prelude::*;
use vstd::slice::slice_to_vec;
use vstd::string::*;

verus! {

/// The settings a new reader starts with.
pub open spec fn default_options() -> DecodeOptions {
    DecodeOptions { deleted_fields: DeletedFieldPolicy::Warn }
}

/// Writing anything at the start of an empty buffer yields exactly what was written.
pub proof fn lemma_write_into_empty(data: Seq<u8>)
    ensures
        write_at(Seq::<u8>::empty(), 0, data) == data,
{
    assert(write_at(Seq::<u8>::empty(), 0, data) =~= data);
}

impl ArchiveReader {
    /// Accepts `value` only when the whole stream has been read.
    pub fn expect_end<T>(&mut self, value: T) -> (r: ArchiveResult<T>)
        ensures
            *final(self) == *old(self),
            old(self).pos() == old(self).input().len() ==> r == Ok::<T, ArchiveError>(value),
            old(self).pos() != old(self).input().len() ==> (r matches Err(e) && is_invalid_data(
                e,
                "trailing bytes after value"@,
            )),
    {
        proof {
            reveal_strlit("trailing bytes after value");
        }
        if self.pos_u64() != self.len_u64() {
            return Err(ArchiveError::InvalidData(String::from_str("trailing bytes after value")));
        }
        Ok(value)
    }
}

/// Decoding exactly one value from all of `input` is owed to succeed, unless a
/// buffer cannot be allocated: decoding is owed, and whatever value decodes
/// uses up the whole input.
pub open spec fn decode_whole_owed<T: BinaryDecode>(
    input: Seq<u8>,
    max_allocation: u64,
    options: DecodeOptions,
) -> bool {
    &&& T::spec_decode_owed(input, max_allocation, options)
    &&& forall|value: T, consumed: int|
        #[trigger] T::spec_decodes(input, max_allocation, options, value, consumed)
            ==> consumed == input.len()
}

/// Decoding from `input` is owed to succeed, but no value that decodes uses up
/// the whole input, so bytes are left over after it (or it ends past the input).
pub open spec fn decode_leaves_trailing<T: BinaryDecode>(
    input: Seq<u8>,
    max_allocation: u64,
    options: DecodeOptions,
) -> bool {
    &&& T::spec_decode_owed(input, max_allocation, options)
    &&& forall|value: T, consumed: int|
        #[trigger] T::spec_decodes(input, max_allocation, options, value, consumed)
            ==> consumed != input.len()
}

/// The error that whole-buffer decoding reports for bytes left over after the value.
pub open spec fn is_trailing_bytes(e: ArchiveError) -> bool {
    is_invalid_data(e, "trailing bytes after value"@)
}

/// Some value decodes from `input` but stops short of its end (or runs past it).
pub open spec fn decodes_short<T: BinaryDecode>(
    input: Seq<u8>,
    max_allocation: u64,
    options: DecodeOptions,
) -> bool {
    exists|value: T, consumed: int|
        #[trigger] T::spec_decodes(input, max_allocation, options, value, consumed)
            && consumed != input.len()
}

/// What decoding exactly one value from all of `input` returns: success when it
/// is owed; the trailing-bytes error when every value that decodes stops short;
/// otherwise the decoder's own result, unchanged, unless some value decoded and
/// stopped short; and a returned value decodes from the whole input.
pub open spec fn whole_decode_outcome<T: BinaryDecode>(
    input: Seq<u8>,
    max_allocation: u64,
    options: DecodeOptions,
    r: ArchiveResult<T>,
) -> bool {
    &&& decode_whole_owed::<T>(input, max_allocation, options) ==> r is Ok || (r matches Err(e)
        && is_out_of_memory(e))
    &&& decode_leaves_trailing::<T>(input, max_allocation, options) ==> (r matches Err(e) && (
    is_trailing_bytes(e) || is_out_of_memory(e)))
    &&& !(r matches Err(e) && is_trailing_bytes(e)) ==> T::spec_decode_result(
        input,
        max_allocation,
        options,
        r,
    )
    &&& r is Err && !decodes_short::<T>(input, max_allocation, options) ==> T::spec_decode_result(
        input,
        max_allocation,
        options,
        r,
    )
    &&& r matches Ok(v) ==> T::spec_decodes(input, max_allocation, options, v, input.len() as int)
}

/// Decodes exactly one value from `reader`, which is positioned at the start of
/// its input, and returns it with the warnings recorded while decoding.
fn decode_whole<T: BinaryDecode>(reader: ArchiveReader) -> (r: (ArchiveResult<T>, Vec<String>))
    requires
        reader.pos() == 0,
        reader.warning_log() == Seq::<Seq<char>>::empty(),
    ensures
        whole_decode_outcome::<T>(reader.input(), reader.max_allocation(), reader.options(), r.0),
        T::spec_decode_warnings(reader.input(), reader.max_allocation(), reader.options()) matches Some(
            w,
        ) ==> r.1@.map_values(|s: String| s@) == w,
{
    let mut reader = reader;
    proof {
        assert(reader.input().skip(0) =~= reader.input());
    }
    let ghost start = reader;
    let value = match reader.read::<T>() {
        Ok(value) => value,
        Err(e) => {
            return (Err(e), reader.take_warnings());
        },
    };
    proof {
        if reader.pos() != reader.input().len() {
            assert(T::spec_decodes(
                start.input(),
                start.max_allocation(),
                start.options(),
                value,
                reader.pos() - start.pos(),
            ));
            assert(decodes_short::<T>(start.input(), start.max_allocation(), start.options()));
        }
    }
    let r = reader.expect_end(value);
    (r, reader.take_warnings())
}

/// Convenience methods automatically available to every encodable, decodable type.
pub trait BinaryArchive: BinaryEncode + BinaryDecode {
    /// Encodes one value into an owned byte buffer, without a type-name prefix.
    fn to_bytes(&self) -> (r: ArchiveResult<Vec<u8>>)
        ensures
            Self::spec_encoding_stated() ==> (r is Ok <==> self.spec_encode_ok(0)),
            Self::spec_encoding_stated() ==> (r matches Ok(b) ==> b@ == self.spec_encoding()),
    {
        let mut writer = ArchiveWriter::new(Vec::new());
        writer.write(self)?;
        proof {
            lemma_write_into_empty(self.spec_encoding());
        }
        Ok(writer.into_inner())
    }

    /// Decodes exactly one value with the default 64 MiB allocation limit.
    /// Trailing bytes are rejected; use `ArchiveReader` for a stream of values.
    fn from_bytes(bytes: &[u8]) -> (r: ArchiveResult<Self>)
        ensures
            whole_decode_outcome::<Self>(bytes@, DEFAULT_MAX_ALLOCATION, default_options(), r),
    {
        decode_whole(ArchiveReader::new(slice_to_vec(bytes))).0
    }

    /// Decodes exactly one value using a custom per-allocation limit in bytes.
    fn from_bytes_with_limit(bytes: &[u8], max_bytes: u64) -> (r: ArchiveResult<Self>)
        ensures
            whole_decode_outcome::<Self>(bytes@, max_bytes, default_options(), r),
    {
        decode_whole(ArchiveReader::new(slice_to_vec(bytes)).with_max_allocation(max_bytes)).0
    }

    /// Decodes exactly one value with the default limit and the given policy for
    /// stored fields that the current schema lacks.
    fn from_bytes_with_policy(bytes: &[u8], policy: DeletedFieldPolicy) -> (r: ArchiveResult<Self>)
        ensures
            whole_decode_outcome::<Self>(bytes@, DEFAULT_MAX_ALLOCATION, (DecodeOptions { deleted_fields: policy }), r),
    {
        decode_whole(ArchiveReader::new(slice_to_vec(bytes)).with_deleted_field_policy(policy)).0
    }

    /// Decodes exactly one value with the default limit and the given policy
    /// for stored fields that the current schema lacks, and returns with it the
    /// warnings recorded while decoding, oldest first, for the caller to report.
    fn from_bytes_reporting(bytes: &[u8], policy: DeletedFieldPolicy) -> (r: (
        ArchiveResult<Self>,
        Vec<String>,
    ))
        ensures
            whole_decode_outcome::<Self>(
                bytes@,
                DEFAULT_MAX_ALLOCATION,
                (DecodeOptions { deleted_fields: policy }),
                r.0,
            ),
            Self::spec_decode_warnings(
                bytes@,
                DEFAULT_MAX_ALLOCATION,
                (DecodeOptions { deleted_fields: policy }),
            ) matches Some(w) ==> r.1@.map_values(|s: String| s@) == w,
    {
        decode_whole(ArchiveReader::new(slice_to_vec(bytes)).with_deleted_field_policy(policy))
    }
}

impl<T: BinaryEncode + BinaryDecode> BinaryArchive for T {

}

} // verus!
