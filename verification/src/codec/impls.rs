use crate::archive::policy::DecodeOptions;
use crate::archive::reader::{
    allocation_failure, collection_bytes, is_allocation_failure, is_out_of_memory, unread_from,
    ArchiveReader,
};
use crate::archive::writer::{lemma_wrote_in_turn, wrote_or_no_room, ArchiveWriter};
use crate::codec::traits::{
    concat_encodings, decode_owed_seq, decodes_at, decodes_seq, encodes_ok_from, seq_start,
    BinaryDecode, BinaryEncode,
};
use crate::error::{is_invalid_data, is_io, ArchiveError, ArchiveResult, IoErrorKind};
use crate::text::{decimal, decimal_string};
use vstd::bytes::*;
use vstd::prelude::*;
use vstd::string::*;
use vstd::utf8::*;

verus! {

/// The outcome of reading a value of `width` bytes: success exactly when that
/// many bytes are left, and the end of the stream otherwise.
pub open spec fn fixed_width_outcome<T>(
    r: ArchiveResult<T>,
    before: ArchiveReader,
    after: ArchiveReader,
    width: int,
) -> bool {
    if before.unread().len() >= width {
        r is Ok && after.advanced(before, width)
    } else {
        (r matches Err(e) && is_io(e, IoErrorKind::UnexpectedEof)) && after.hit_end(before)
    }
}

/// The result of reading a value of `width` bytes from `input`: a value when
/// that many bytes are there, and the end of the stream otherwise.
pub open spec fn fixed_width_result<T>(input: Seq<u8>, width: int, r: ArchiveResult<T>) -> bool {
    if input.len() >= width {
        r is Ok
    } else {
        r matches Err(e) && is_io(e, IoErrorKind::UnexpectedEof)
    }
}

/// Reads exactly `width` bytes.
fn read_fixed(reader: &mut ArchiveReader, width: usize) -> (r: ArchiveResult<Vec<u8>>)
    ensures
        fixed_width_outcome(r, *old(reader), *final(reader), width as int),
        r matches Ok(v) ==> v@ == old(reader).unread().take(width as int),
{
    let mut buffer: Vec<u8> = Vec::new();
    reader.read_raw(&mut buffer, width)?;
    assert(buffer@ =~= old(reader).unread().take(width as int));
    Ok(buffer)
}

impl BinaryEncode for u8 {
    open spec fn spec_encoding_stated() -> bool {
        true
    }

    open spec fn spec_encoding(&self) -> Seq<u8> {
        seq![*self]
    }

    fn encode(&self, writer: &mut ArchiveWriter) -> (r: ArchiveResult<()>)
        ensures
            wrote_or_no_room(r, *old(writer), *final(writer), self.spec_encoding()),
    {
        let buffer = [*self];
        let r = writer.write_raw(&buffer);
        assert(buffer@ =~= self.spec_encoding());
        r
    }
}

impl BinaryDecode for u8 {
    open spec fn spec_decodes(
        input: Seq<u8>,
        max_allocation: u64,
        options: DecodeOptions,
        value: Self,
        consumed: int,
    ) -> bool {
        consumed == 1 && input.len() >= 1 && value == input[0]
    }

    open spec fn spec_decode_result(
        input: Seq<u8>,
        max_allocation: u64,
        options: DecodeOptions,
        r: ArchiveResult<Self>,
    ) -> bool {
        fixed_width_result(input, 1, r)
    }

    open spec fn spec_decode_owed(
        input: Seq<u8>,
        max_allocation: u64,
        options: DecodeOptions,
    ) -> bool {
        input.len() >= 1
    }

    open spec fn spec_decode_warnings(
        input: Seq<u8>,
        max_allocation: u64,
        options: DecodeOptions,
    ) -> Option<Seq<Seq<char>>> {
        Some(Seq::empty())
    }

    fn decode(reader: &mut ArchiveReader) -> (r: ArchiveResult<Self>)
        ensures
            fixed_width_outcome(r, *old(reader), *final(reader), 1),
    {
        let buffer = read_fixed(reader, 1)?;
        Ok(buffer[0])
    }
}

impl BinaryEncode for i8 {
    open spec fn spec_encoding_stated() -> bool {
        true
    }

    open spec fn spec_encoding(&self) -> Seq<u8> {
        seq![*self as u8]
    }

    fn encode(&self, writer: &mut ArchiveWriter) -> (r: ArchiveResult<()>)
        ensures
            wrote_or_no_room(r, *old(writer), *final(writer), self.spec_encoding()),
    {
        let buffer = [*self as u8];
        let r = writer.write_raw(&buffer);
        assert(buffer@ =~= self.spec_encoding());
        r
    }
}

impl BinaryDecode for i8 {
    open spec fn spec_decodes(
        input: Seq<u8>,
        max_allocation: u64,
        options: DecodeOptions,
        value: Self,
        consumed: int,
    ) -> bool {
        consumed == 1 && input.len() >= 1 && value == input[0] as i8
    }

    open spec fn spec_decode_result(
        input: Seq<u8>,
        max_allocation: u64,
        options: DecodeOptions,
        r: ArchiveResult<Self>,
    ) -> bool {
        fixed_width_result(input, 1, r)
    }

    open spec fn spec_decode_owed(
        input: Seq<u8>,
        max_allocation: u64,
        options: DecodeOptions,
    ) -> bool {
        input.len() >= 1
    }

    open spec fn spec_decode_warnings(
        input: Seq<u8>,
        max_allocation: u64,
        options: DecodeOptions,
    ) -> Option<Seq<Seq<char>>> {
        Some(Seq::empty())
    }

    fn decode(reader: &mut ArchiveReader) -> (r: ArchiveResult<Self>)
        ensures
            fixed_width_outcome(r, *old(reader), *final(reader), 1),
    {
        let value = u8::decode(reader)?;
        Ok(value as i8)
    }
}

impl BinaryEncode for u16 {
    open spec fn spec_encoding_stated() -> bool {
        true
    }

    open spec fn spec_encoding(&self) -> Seq<u8> {
        spec_u16_to_le_bytes(*self)
    }

    fn encode(&self, writer: &mut ArchiveWriter) -> (r: ArchiveResult<()>)
        ensures
            wrote_or_no_room(r, *old(writer), *final(writer), self.spec_encoding()),
    {
        let buffer = u16_to_le_bytes(*self);
        writer.write_raw(buffer.as_slice())
    }
}

impl BinaryDecode for u16 {
    open spec fn spec_decodes(
        input: Seq<u8>,
        max_allocation: u64,
        options: DecodeOptions,
        value: Self,
        consumed: int,
    ) -> bool {
        consumed == 2 && input.len() >= 2 && value == spec_u16_from_le_bytes(input.take(2))
    }

    open spec fn spec_decode_result(
        input: Seq<u8>,
        max_allocation: u64,
        options: DecodeOptions,
        r: ArchiveResult<Self>,
    ) -> bool {
        fixed_width_result(input, 2, r)
    }

    open spec fn spec_decode_owed(
        input: Seq<u8>,
        max_allocation: u64,
        options: DecodeOptions,
    ) -> bool {
        input.len() >= 2
    }

    open spec fn spec_decode_warnings(
        input: Seq<u8>,
        max_allocation: u64,
        options: DecodeOptions,
    ) -> Option<Seq<Seq<char>>> {
        Some(Seq::empty())
    }

    fn decode(reader: &mut ArchiveReader) -> (r: ArchiveResult<Self>)
        ensures
            fixed_width_outcome(r, *old(reader), *final(reader), 2),
    {
        let buffer = read_fixed(reader, 2)?;
        Ok(u16_from_le_bytes(buffer.as_slice()))
    }
}

impl BinaryEncode for i16 {
    open spec fn spec_encoding_stated() -> bool {
        true
    }

    open spec fn spec_encoding(&self) -> Seq<u8> {
        spec_u16_to_le_bytes(*self as u16)
    }

    fn encode(&self, writer: &mut ArchiveWriter) -> (r: ArchiveResult<()>)
        ensures
            wrote_or_no_room(r, *old(writer), *final(writer), self.spec_encoding()),
    {
        (*self as u16).encode(writer)
    }
}

impl BinaryDecode for i16 {
    open spec fn spec_decodes(
        input: Seq<u8>,
        max_allocation: u64,
        options: DecodeOptions,
        value: Self,
        consumed: int,
    ) -> bool {
        consumed == 2 && input.len() >= 2 && value == spec_u16_from_le_bytes(input.take(2)) as i16
    }

    open spec fn spec_decode_result(
        input: Seq<u8>,
        max_allocation: u64,
        options: DecodeOptions,
        r: ArchiveResult<Self>,
    ) -> bool {
        fixed_width_result(input, 2, r)
    }

    open spec fn spec_decode_owed(
        input: Seq<u8>,
        max_allocation: u64,
        options: DecodeOptions,
    ) -> bool {
        input.len() >= 2
    }

    open spec fn spec_decode_warnings(
        input: Seq<u8>,
        max_allocation: u64,
        options: DecodeOptions,
    ) -> Option<Seq<Seq<char>>> {
        Some(Seq::empty())
    }

    fn decode(reader: &mut ArchiveReader) -> (r: ArchiveResult<Self>)
        ensures
            fixed_width_outcome(r, *old(reader), *final(reader), 2),
    {
        let value = u16::decode(reader)?;
        Ok(value as i16)
    }
}

impl BinaryEncode for u32 {
    open spec fn spec_encoding_stated() -> bool {
        true
    }

    open spec fn spec_encoding(&self) -> Seq<u8> {
        spec_u32_to_le_bytes(*self)
    }

    fn encode(&self, writer: &mut ArchiveWriter) -> (r: ArchiveResult<()>)
        ensures
            wrote_or_no_room(r, *old(writer), *final(writer), self.spec_encoding()),
    {
        let buffer = u32_to_le_bytes(*self);
        writer.write_raw(buffer.as_slice())
    }
}

impl BinaryDecode for u32 {
    open spec fn spec_decodes(
        input: Seq<u8>,
        max_allocation: u64,
        options: DecodeOptions,
        value: Self,
        consumed: int,
    ) -> bool {
        consumed == 4 && input.len() >= 4 && value == spec_u32_from_le_bytes(input.take(4))
    }

    open spec fn spec_decode_result(
        input: Seq<u8>,
        max_allocation: u64,
        options: DecodeOptions,
        r: ArchiveResult<Self>,
    ) -> bool {
        fixed_width_result(input, 4, r)
    }

    open spec fn spec_decode_owed(
        input: Seq<u8>,
        max_allocation: u64,
        options: DecodeOptions,
    ) -> bool {
        input.len() >= 4
    }

    open spec fn spec_decode_warnings(
        input: Seq<u8>,
        max_allocation: u64,
        options: DecodeOptions,
    ) -> Option<Seq<Seq<char>>> {
        Some(Seq::empty())
    }

    fn decode(reader: &mut ArchiveReader) -> (r: ArchiveResult<Self>)
        ensures
            fixed_width_outcome(r, *old(reader), *final(reader), 4),
    {
        let buffer = read_fixed(reader, 4)?;
        Ok(u32_from_le_bytes(buffer.as_slice()))
    }
}

impl BinaryEncode for i32 {
    open spec fn spec_encoding_stated() -> bool {
        true
    }

    open spec fn spec_encoding(&self) -> Seq<u8> {
        spec_u32_to_le_bytes(*self as u32)
    }

    fn encode(&self, writer: &mut ArchiveWriter) -> (r: ArchiveResult<()>)
        ensures
            wrote_or_no_room(r, *old(writer), *final(writer), self.spec_encoding()),
    {
        (*self as u32).encode(writer)
    }
}

impl BinaryDecode for i32 {
    open spec fn spec_decodes(
        input: Seq<u8>,
        max_allocation: u64,
        options: DecodeOptions,
        value: Self,
        consumed: int,
    ) -> bool {
        consumed == 4 && input.len() >= 4 && value == spec_u32_from_le_bytes(input.take(4)) as i32
    }

    open spec fn spec_decode_result(
        input: Seq<u8>,
        max_allocation: u64,
        options: DecodeOptions,
        r: ArchiveResult<Self>,
    ) -> bool {
        fixed_width_result(input, 4, r)
    }

    open spec fn spec_decode_owed(
        input: Seq<u8>,
        max_allocation: u64,
        options: DecodeOptions,
    ) -> bool {
        input.len() >= 4
    }

    open spec fn spec_decode_warnings(
        input: Seq<u8>,
        max_allocation: u64,
        options: DecodeOptions,
    ) -> Option<Seq<Seq<char>>> {
        Some(Seq::empty())
    }

    fn decode(reader: &mut ArchiveReader) -> (r: ArchiveResult<Self>)
        ensures
            fixed_width_outcome(r, *old(reader), *final(reader), 4),
    {
        let value = u32::decode(reader)?;
        Ok(value as i32)
    }
}

impl BinaryEncode for u64 {
    open spec fn spec_encoding_stated() -> bool {
        true
    }

    open spec fn spec_encoding(&self) -> Seq<u8> {
        spec_u64_to_le_bytes(*self)
    }

    fn encode(&self, writer: &mut ArchiveWriter) -> (r: ArchiveResult<()>)
        ensures
            wrote_or_no_room(r, *old(writer), *final(writer), self.spec_encoding()),
    {
        let buffer = u64_to_le_bytes(*self);
        writer.write_raw(buffer.as_slice())
    }
}

impl BinaryDecode for u64 {
    open spec fn spec_decodes(
        input: Seq<u8>,
        max_allocation: u64,
        options: DecodeOptions,
        value: Self,
        consumed: int,
    ) -> bool {
        consumed == 8 && input.len() >= 8 && value == spec_u64_from_le_bytes(input.take(8))
    }

    open spec fn spec_decode_result(
        input: Seq<u8>,
        max_allocation: u64,
        options: DecodeOptions,
        r: ArchiveResult<Self>,
    ) -> bool {
        fixed_width_result(input, 8, r)
    }

    open spec fn spec_decode_owed(
        input: Seq<u8>,
        max_allocation: u64,
        options: DecodeOptions,
    ) -> bool {
        input.len() >= 8
    }

    open spec fn spec_decode_warnings(
        input: Seq<u8>,
        max_allocation: u64,
        options: DecodeOptions,
    ) -> Option<Seq<Seq<char>>> {
        Some(Seq::empty())
    }

    fn decode(reader: &mut ArchiveReader) -> (r: ArchiveResult<Self>)
        ensures
            fixed_width_outcome(r, *old(reader), *final(reader), 8),
    {
        let buffer = read_fixed(reader, 8)?;
        Ok(u64_from_le_bytes(buffer.as_slice()))
    }
}

impl BinaryEncode for i64 {
    open spec fn spec_encoding_stated() -> bool {
        true
    }

    open spec fn spec_encoding(&self) -> Seq<u8> {
        spec_u64_to_le_bytes(*self as u64)
    }

    fn encode(&self, writer: &mut ArchiveWriter) -> (r: ArchiveResult<()>)
        ensures
            wrote_or_no_room(r, *old(writer), *final(writer), self.spec_encoding()),
    {
        (*self as u64).encode(writer)
    }
}

impl BinaryDecode for i64 {
    open spec fn spec_decodes(
        input: Seq<u8>,
        max_allocation: u64,
        options: DecodeOptions,
        value: Self,
        consumed: int,
    ) -> bool {
        consumed == 8 && input.len() >= 8 && value == spec_u64_from_le_bytes(input.take(8)) as i64
    }

    open spec fn spec_decode_result(
        input: Seq<u8>,
        max_allocation: u64,
        options: DecodeOptions,
        r: ArchiveResult<Self>,
    ) -> bool {
        fixed_width_result(input, 8, r)
    }

    open spec fn spec_decode_owed(
        input: Seq<u8>,
        max_allocation: u64,
        options: DecodeOptions,
    ) -> bool {
        input.len() >= 8
    }

    open spec fn spec_decode_warnings(
        input: Seq<u8>,
        max_allocation: u64,
        options: DecodeOptions,
    ) -> Option<Seq<Seq<char>>> {
        Some(Seq::empty())
    }

    fn decode(reader: &mut ArchiveReader) -> (r: ArchiveResult<Self>)
        ensures
            fixed_width_outcome(r, *old(reader), *final(reader), 8),
    {
        let value = u64::decode(reader)?;
        Ok(value as i64)
    }
}

/// The message of a `bool` byte other than 0 or 1.
pub open spec fn invalid_bool_message(value: u8) -> Seq<char> {
    "invalid bool value: "@ + decimal(value as nat)
}

/// The message of an `Option` marker other than 0 or 1.
pub open spec fn invalid_option_message(marker: u8) -> Seq<char> {
    "invalid Option marker: "@ + decimal(marker as nat)
}

/// Builds `prefix` followed by `value` in decimal.
fn message_with_number(prefix: &str, value: u64) -> (m: String)
    ensures
        m@ == prefix@ + decimal(value as nat),
{
    let mut m = String::from_str(prefix);
    m.append(decimal_string(value).as_str());
    m
}

impl BinaryEncode for bool {
    open spec fn spec_encoding_stated() -> bool {
        true
    }

    open spec fn spec_encoding(&self) -> Seq<u8> {
        seq![if *self { 1u8 } else { 0u8 }]
    }

    fn encode(&self, writer: &mut ArchiveWriter) -> (r: ArchiveResult<()>)
        ensures
            wrote_or_no_room(r, *old(writer), *final(writer), self.spec_encoding()),
    {
        let value: u8 = if *self {
            1
        } else {
            0
        };
        value.encode(writer)
    }
}

impl BinaryDecode for bool {
    open spec fn spec_decodes(
        input: Seq<u8>,
        max_allocation: u64,
        options: DecodeOptions,
        value: Self,
        consumed: int,
    ) -> bool {
        &&& consumed == 1
        &&& input.len() >= 1
        &&& (input[0] == 0 && !value) || (input[0] == 1 && value)
    }

    open spec fn spec_decode_result(
        input: Seq<u8>,
        max_allocation: u64,
        options: DecodeOptions,
        r: ArchiveResult<Self>,
    ) -> bool {
        &&& input.len() < 1 ==> (r matches Err(e) && is_io(e, IoErrorKind::UnexpectedEof))
        &&& input.len() >= 1 && input[0] == 0 ==> r == Ok::<bool, ArchiveError>(false)
        &&& input.len() >= 1 && input[0] == 1 ==> r == Ok::<bool, ArchiveError>(true)
        &&& input.len() >= 1 && input[0] > 1 ==> (r matches Err(e) && is_invalid_data(
            e,
            invalid_bool_message(input[0]),
        ))
    }

    open spec fn spec_decode_owed(
        input: Seq<u8>,
        max_allocation: u64,
        options: DecodeOptions,
    ) -> bool {
        input.len() >= 1 && input[0] <= 1
    }

    open spec fn spec_decode_warnings(
        input: Seq<u8>,
        max_allocation: u64,
        options: DecodeOptions,
    ) -> Option<Seq<Seq<char>>> {
        Some(Seq::empty())
    }

    fn decode(reader: &mut ArchiveReader) -> (r: ArchiveResult<Self>)
        ensures
            old(reader).unread().len() < 1 ==> (r matches Err(e) && is_io(e, IoErrorKind::UnexpectedEof))
                && final(reader).hit_end(*old(reader)),
            old(reader).unread().len() >= 1 ==> final(reader).advanced(*old(reader), 1),
            old(reader).unread().len() >= 1 && old(reader).unread()[0] == 0 ==> r == Ok::<bool, ArchiveError>(false),
            old(reader).unread().len() >= 1 && old(reader).unread()[0] == 1 ==> r == Ok::<bool, ArchiveError>(true),
            old(reader).unread().len() >= 1 && old(reader).unread()[0] > 1 ==> (r matches Err(e)
                && is_invalid_data(e, invalid_bool_message(old(reader).unread()[0]))),
    {
        let value = u8::decode(reader)?;
        match value {
            0 => Ok(false),
            1 => Ok(true),
            _ => {
                proof {
                    reveal_strlit("invalid bool value: ");
                }
                Err(ArchiveError::InvalidData(message_with_number("invalid bool value: ", value as u64)))
            },
        }
    }
}

/// The number stored in the first eight bytes of `input`.
pub open spec fn length_prefix(input: Seq<u8>) -> int {
    spec_u64_from_le_bytes(input.take(8)) as int
}

/// The length-prefixed byte string at the start of `input`.
pub open spec fn prefixed_bytes(input: Seq<u8>) -> Seq<u8> {
    input.subrange(8, 8 + length_prefix(input))
}

/// `input` starts with a complete length-prefixed byte string that fits `max_allocation`.
pub open spec fn has_prefixed_bytes(input: Seq<u8>, max_allocation: u64) -> bool {
    &&& input.len() >= 8
    &&& length_prefix(input) <= max_allocation
    &&& length_prefix(input) <= usize::MAX
    &&& input.len() >= 8 + length_prefix(input)
}

/// The text of the error that UTF-8 validation reports for `bytes`.
pub uninterp spec fn utf8_error_message(bytes: Seq<u8>) -> Seq<char>;

/// Converts bytes to a `String` with std's `String::from_utf8`. Trusted: it
/// succeeds exactly on valid UTF-8 and then holds the decoded characters; on
/// failure the text of its `FromUtf8Error` depends on the bytes alone.
#[verifier::external_body]
fn string_from_utf8(bytes: Vec<u8>) -> (r: Result<String, String>)
    ensures
        r is Ok <==> valid_utf8(bytes@),
        r matches Ok(s) ==> s@ == decode_utf8(bytes@),
        r matches Err(m) ==> m@ == utf8_error_message(bytes@),
{
    match String::from_utf8(bytes) {
        Ok(s) => Ok(s),
        Err(err) => Err(err.to_string()),
    }
}

/// The message of a string whose bytes are not UTF-8.
pub open spec fn invalid_utf8_message(bytes: Seq<u8>) -> Seq<char> {
    "invalid UTF-8: "@ + utf8_error_message(bytes)
}

/// The encoding of a string with the characters `chars`: its UTF-8 length, then its UTF-8 bytes.
pub open spec fn str_encoding(chars: Seq<char>) -> Seq<u8> {
    spec_u64_to_le_bytes(encode_utf8(chars).len() as u64) + encode_utf8(chars)
}

impl BinaryEncode for str {
    open spec fn spec_encoding_stated() -> bool {
        true
    }

    open spec fn spec_encoding(&self) -> Seq<u8> {
        str_encoding(self@)
    }

    fn encode(&self, writer: &mut ArchiveWriter) -> (r: ArchiveResult<()>)
        ensures
            wrote_or_no_room(r, *old(writer), *final(writer), self.spec_encoding()),
    {
        let bytes = self.as_bytes();
        let length = bytes.len() as u64;
        proof {
            lemma_auto_spec_u64_to_from_le_bytes();
            old(writer).lemma_pos_nonneg();
        }
        length.encode(writer)?;
        let ghost middle = *writer;
        let r = writer.write_raw(bytes);
        proof {
            if r is Ok {
                lemma_wrote_in_turn(*old(writer), middle, *writer, length.spec_encoding(), bytes@);
            }
        }
        r
    }
}

impl BinaryEncode for String {
    open spec fn spec_encoding_stated() -> bool {
        true
    }

    open spec fn spec_encoding(&self) -> Seq<u8> {
        str_encoding(self@)
    }

    fn encode(&self, writer: &mut ArchiveWriter) -> (r: ArchiveResult<()>)
        ensures
            wrote_or_no_room(r, *old(writer), *final(writer), self.spec_encoding()),
    {
        self.as_str().encode(writer)
    }
}

impl BinaryDecode for String {
    open spec fn spec_decodes(
        input: Seq<u8>,
        max_allocation: u64,
        options: DecodeOptions,
        value: Self,
        consumed: int,
    ) -> bool {
        &&& has_prefixed_bytes(input, max_allocation)
        &&& consumed == 8 + length_prefix(input)
        &&& valid_utf8(prefixed_bytes(input))
        &&& value@ == decode_utf8(prefixed_bytes(input))
    }

    open spec fn spec_decode_result(
        input: Seq<u8>,
        max_allocation: u64,
        options: DecodeOptions,
        r: ArchiveResult<Self>,
    ) -> bool {
        &&& input.len() < 8 ==> (r matches Err(e) && is_io(e, IoErrorKind::UnexpectedEof))
        &&& input.len() >= 8 && length_prefix(input) > max_allocation ==> (r matches Err(e)
            && crate::error::is_limit_exceeded(
            e,
            "string"@,
            length_prefix(input) as u64,
            max_allocation,
        ))
        &&& input.len() >= 8 && length_prefix(input) <= max_allocation && length_prefix(input)
            > usize::MAX ==> (r matches Err(ArchiveError::LengthOverflow { length: l }) && l
            == length_prefix(input))
        &&& input.len() >= 8 && length_prefix(input) <= max_allocation && length_prefix(input)
            <= usize::MAX && input.len() < 8 + length_prefix(input) ==> (r matches Err(e) && (is_io(
            e,
            IoErrorKind::UnexpectedEof,
        ) || is_allocation_failure(e, "string"@)))
        &&& has_prefixed_bytes(input, max_allocation) && !valid_utf8(prefixed_bytes(input)) ==> (r matches Err(
            e,
        ) && (is_invalid_data(e, invalid_utf8_message(prefixed_bytes(input)))
            || is_allocation_failure(e, "string"@)))
        &&& r matches Ok(v) ==> has_prefixed_bytes(input, max_allocation) && valid_utf8(
            prefixed_bytes(input),
        ) && v@ == decode_utf8(prefixed_bytes(input))
    }

    open spec fn spec_decode_owed(
        input: Seq<u8>,
        max_allocation: u64,
        options: DecodeOptions,
    ) -> bool {
        has_prefixed_bytes(input, max_allocation) && valid_utf8(prefixed_bytes(input))
    }

    fn decode(reader: &mut ArchiveReader) -> (r: ArchiveResult<Self>)
        ensures
            old(reader).unread().len() < 8 ==> (r matches Err(e) && is_io(e, IoErrorKind::UnexpectedEof))
                && final(reader).hit_end(*old(reader)),
            old(reader).unread().len() >= 8 && length_prefix(old(reader).unread())
                > old(reader).max_allocation() ==> (r matches Err(e) && crate::error::is_limit_exceeded(
                e,
                "string"@,
                length_prefix(old(reader).unread()) as u64,
                old(reader).max_allocation(),
            )) && final(reader).advanced(*old(reader), 8),
            old(reader).unread().len() >= 8 && length_prefix(old(reader).unread())
                <= old(reader).max_allocation() && length_prefix(old(reader).unread()) > usize::MAX ==> (r matches Err(
                ArchiveError::LengthOverflow { length: l },
            ) && l == length_prefix(old(reader).unread())),
            old(reader).unread().len() >= 8 && length_prefix(old(reader).unread())
                <= old(reader).max_allocation() && old(reader).unread().len() < 8 + length_prefix(
                old(reader).unread(),
            ) ==> r is Err,
            r matches Ok(s) ==> has_prefixed_bytes(old(reader).unread(), old(reader).max_allocation())
                && valid_utf8(prefixed_bytes(old(reader).unread())) && s@ == decode_utf8(
                prefixed_bytes(old(reader).unread()),
            ) && final(reader).advanced(*old(reader), 8 + length_prefix(old(reader).unread())),
            has_prefixed_bytes(old(reader).unread(), old(reader).max_allocation()) ==> {
                ||| r is Ok && valid_utf8(prefixed_bytes(old(reader).unread()))
                ||| (r matches Err(e) && is_invalid_data(
                    e,
                    invalid_utf8_message(prefixed_bytes(old(reader).unread())),
                )) && !valid_utf8(prefixed_bytes(old(reader).unread())) && final(reader).advanced(
                    *old(reader),
                    8 + length_prefix(old(reader).unread()),
                )
                ||| (r matches Err(e) && is_allocation_failure(e, "string"@)) && final(reader).advanced(
                    *old(reader),
                    8,
                )
            },
    {
        proof {
            reveal_strlit("string");
            reveal_strlit("invalid UTF-8: ");
            old(reader).lemma_pos_nonneg();
        }
        let length = u64::decode(reader)?;
        let ghost after_length = *reader;
        proof {
            reader.lemma_advanced_unread(*old(reader), 8);
        }
        let bytes = reader.read_bytes(length, "string")?;
        proof {
            assert(bytes@ =~= prefixed_bytes(old(reader).unread()));
            reader.lemma_advanced_unread(after_length, length as int);
        }
        match string_from_utf8(bytes) {
            Ok(s) => Ok(s),
            Err(detail) => {
                let mut m = String::from_str("invalid UTF-8: ");
                m.append(detail.as_str());
                Err(ArchiveError::InvalidData(m))
            },
        }
    }
}

impl<T: BinaryEncode> BinaryEncode for Option<T> {
    open spec fn spec_encoding_stated() -> bool {
        T::spec_encoding_stated()
    }

    open spec fn spec_encoding(&self) -> Seq<u8> {
        match self {
            Some(value) => seq![1u8] + value.spec_encoding(),
            None => seq![0u8],
        }
    }

    open spec fn spec_encode_ok(&self, pos: int) -> bool {
        &&& pos + 1 <= usize::MAX
        &&& self matches Some(value) ==> value.spec_encode_ok(pos + 1)
    }

    fn encode(&self, writer: &mut ArchiveWriter) -> (r: ArchiveResult<()>)
        ensures
            *self is None ==> wrote_or_no_room(r, *old(writer), *final(writer), self.spec_encoding()),
    {
        match self {
            Some(value) => {
                let marker: u8 = 1;
                proof {
                    old(writer).lemma_pos_nonneg();
                }
                marker.encode(writer)?;
                let ghost middle = *writer;
                let r = value.encode(writer);
                proof {
                    if r is Ok && T::spec_encoding_stated() {
                        lemma_wrote_in_turn(
                            *old(writer),
                            middle,
                            *writer,
                            marker.spec_encoding(),
                            value.spec_encoding(),
                        );
                    }
                }
                r
            },
            None => {
                let marker: u8 = 0;
                marker.encode(writer)
            },
        }
    }
}

impl<T: BinaryDecode> BinaryDecode for Option<T> {
    open spec fn spec_decodes(
        input: Seq<u8>,
        max_allocation: u64,
        options: DecodeOptions,
        value: Self,
        consumed: int,
    ) -> bool {
        &&& input.len() >= 1
        &&& match value {
            None => input[0] == 0 && consumed == 1,
            Some(v) => input[0] == 1 && T::spec_decodes(
                input.skip(1),
                max_allocation,
                options,
                v,
                consumed - 1,
            ),
        }
    }

    open spec fn spec_decode_owed(
        input: Seq<u8>,
        max_allocation: u64,
        options: DecodeOptions,
    ) -> bool {
        &&& input.len() >= 1
        &&& input[0] == 0 || (input[0] == 1 && T::spec_decode_owed(
            input.skip(1),
            max_allocation,
            options,
        ))
    }

    open spec fn spec_decode_result(
        input: Seq<u8>,
        max_allocation: u64,
        options: DecodeOptions,
        r: ArchiveResult<Self>,
    ) -> bool {
        &&& input.len() < 1 ==> (r matches Err(e) && is_io(e, IoErrorKind::UnexpectedEof))
        &&& input.len() >= 1 && input[0] == 0 ==> r is Ok && r->Ok_0 is None
        &&& input.len() >= 1 && input[0] == 1 ==> !(r matches Ok(None)) && T::spec_decode_result(
            input.skip(1),
            max_allocation,
            options,
            present_result(r),
        )
        &&& input.len() >= 1 && input[0] > 1 ==> (r matches Err(e) && is_invalid_data(
            e,
            invalid_option_message(input[0]),
        ))
    }

    fn decode(reader: &mut ArchiveReader) -> (r: ArchiveResult<Self>)
        ensures
            old(reader).unread().len() < 1 ==> (r matches Err(e) && is_io(e, IoErrorKind::UnexpectedEof))
                && final(reader).hit_end(*old(reader)),
            old(reader).unread().len() >= 1 && old(reader).unread()[0] == 0 ==> r is Ok && r->Ok_0 is None
                && final(reader).advanced(*old(reader), 1),
            old(reader).unread().len() >= 1 && old(reader).unread()[0] > 1 ==> (r matches Err(e)
                && is_invalid_data(e, invalid_option_message(old(reader).unread()[0])))
                && final(reader).advanced(*old(reader), 1),
    {
        proof {
            old(reader).lemma_pos_nonneg();
        }
        let marker = u8::decode(reader)?;
        proof {
            reader.lemma_advanced_unread(*old(reader), 1);
        }
        match marker {
            0 => Ok(None),
            1 => {
                let value = T::decode(reader)?;
                Ok(Some(value))
            },
            _ => {
                proof {
                    reveal_strlit("invalid Option marker: ");
                }
                Err(
                    ArchiveError::InvalidData(
                        message_with_number("invalid Option marker: ", marker as u64),
                    ),
                )
            },
        }
    }
}

/// The inner result of decoding an optional value that is present.
pub open spec fn present_result<T>(r: ArchiveResult<Option<T>>) -> ArchiveResult<T> {
    match r {
        Ok(Some(v)) => Ok(v),
        Ok(None) => arbitrary(),
        Err(e) => Err(e),
    }
}

/// The encodings of the first `i + 1` values are those of the first `i`, then the next one.
proof fn lemma_concat_encodings_step<T: BinaryEncode>(values: Seq<T>, i: int)
    requires
        0 <= i < values.len(),
    ensures
        concat_encodings(values.take(i + 1)) == concat_encodings(values.take(i))
            + values[i].spec_encoding(),
{
    assert(values.take(i + 1).drop_last() =~= values.take(i));
}

/// Encodes `values` one after another at the writer's position.
fn encode_all<T: BinaryEncode>(values: &[T], writer: &mut ArchiveWriter) -> (r: ArchiveResult<()>)
    ensures
        T::spec_encoding_stated() ==> (r is Ok <==> encodes_ok_from(values@, old(writer).pos())),
        T::spec_encoding_stated() && r is Ok ==> final(writer).wrote(
            *old(writer),
            concat_encodings(values@),
        ),
{
    let mut i: usize = 0;
    proof {
        assert(values@.take(0) =~= Seq::<T>::empty());
    }
    while i < values.len()
        invariant
            i <= values@.len(),
            T::spec_encoding_stated() ==> writer.wrote(
                *old(writer),
                concat_encodings(values@.take(i as int)),
            ),
            T::spec_encoding_stated() ==> forall|j: int|
                0 <= j < i ==> #[trigger] values@[j].spec_encode_ok(
                    old(writer).pos() + concat_encodings(values@.take(j)).len(),
                ),
        decreases values@.len() - i,
    {
        let ghost before = *writer;
        let outcome = values[i].encode(writer);
        if outcome.is_err() {
            proof {
                if T::spec_encoding_stated() {
                    assert(!values@[i as int].spec_encode_ok(
                        old(writer).pos() + concat_encodings(values@.take(i as int)).len(),
                    ));
                }
            }
            return outcome;
        }
        proof {
            old(writer).lemma_pos_nonneg();
            lemma_concat_encodings_step(values@, i as int);
            if T::spec_encoding_stated() {
                lemma_wrote_in_turn(
                    *old(writer),
                    before,
                    *writer,
                    concat_encodings(values@.take(i as int)),
                    values@[i as int].spec_encoding(),
                );
            }
        }
        i = i + 1;
    }
    assert(values@.take(values@.len() as int) =~= values@);
    Ok(())
}

/// Decodes `count` values one after another, appending them to `values`.
fn decode_all<T: BinaryDecode>(reader: &mut ArchiveReader, count: usize, values: &mut Vec<T>) -> (r:
    ArchiveResult<()>)
    requires
        old(values)@.len() == 0,
    ensures
        decode_owed_seq::<T>(
            old(reader).unread(),
            old(reader).max_allocation(),
            old(reader).options(),
            count as nat,
        ) ==> r is Ok || (r matches Err(e) && is_out_of_memory(e)),
        final(reader).same_source(*old(reader)),
        r is Ok ==> final(reader).pos() >= old(reader).pos() && final(values)@.len() == count
            && decodes_seq(
            old(reader).unread(),
            old(reader).max_allocation(),
            old(reader).options(),
            final(values)@,
            final(reader).pos() - old(reader).pos(),
        ),
{
    let mut i: usize = 0;
    let ghost start = *reader;
    let ghost mut ends: Seq<int> = Seq::empty();
    let ghost owed = decode_owed_seq::<T>(
        start.unread(),
        start.max_allocation(),
        start.options(),
        count as nat,
    );
    proof {
        start.lemma_pos_nonneg();
    }
    while i < count
        invariant
            owed == decode_owed_seq::<T>(
                start.unread(),
                start.max_allocation(),
                start.options(),
                count as nat,
            ),
            owed ==> decode_owed_seq::<T>(
                reader.unread(),
                start.max_allocation(),
                start.options(),
                (count - i) as nat,
            ),
            i <= count,
            values@.len() == i,
            start == *old(reader),
            reader.same_source(start),
            start.pos() >= 0,
            decodes_at(start.unread(), start.max_allocation(), start.options(), values@, ends),
            reader.pos() - start.pos() == seq_start(ends, i as int),
            seq_start(ends, i as int) >= 0,
        decreases count - i,
    {
        let ghost before = *reader;
        let ghost k = reader.pos() - start.pos();
        proof {
            before.lemma_advanced_unread(start, k);
            if owed {
                assert(T::spec_decode_owed(
                    before.unread(),
                    before.max_allocation(),
                    before.options(),
                ));
            }
        }
        let value = match T::decode(reader) {
            Ok(value) => value,
            Err(e) => {
                return Err(e);
            },
        };
        proof {
            reader.lemma_advanced_unread(before, reader.pos() - before.pos());
        }
        let ghost old_values = values@;
        let ghost old_ends = ends;
        values.push(value);
        proof {
            ends = ends.push(reader.pos() - start.pos());
            assert forall|j: int| 0 <= j < values@.len() implies 0 <= seq_start(ends, j)
                <= #[trigger] ends[j] && T::spec_decodes(
                unread_from(start.unread(), seq_start(ends, j)),
                start.max_allocation(),
                start.options(),
                values@[j],
                ends[j] - seq_start(ends, j),
            ) by {
                if j < i {
                    assert(ends[j] == old_ends[j]);
                    assert(seq_start(ends, j) == seq_start(old_ends, j));
                    assert(values@[j] == old_values[j]);
                }
            }
        }
        i = i + 1;
    }
    proof {
        assert(decodes_at(start.unread(), start.max_allocation(), start.options(), values@, ends));
    }
    Ok(())
}

impl<T: BinaryEncode> BinaryEncode for Vec<T> {
    open spec fn spec_encoding_stated() -> bool {
        T::spec_encoding_stated()
    }

    open spec fn spec_encoding(&self) -> Seq<u8> {
        spec_u64_to_le_bytes(self@.len() as u64) + concat_encodings(self@)
    }

    open spec fn spec_encode_ok(&self, pos: int) -> bool {
        &&& pos + 8 <= usize::MAX
        &&& encodes_ok_from(self@, pos + 8)
    }

    fn encode(&self, writer: &mut ArchiveWriter) -> (r: ArchiveResult<()>) {
        let count = self.len() as u64;
        proof {
            old(writer).lemma_pos_nonneg();
            lemma_auto_spec_u64_to_from_le_bytes();
        }
        let counted = count.encode(writer);
        if counted.is_err() {
            return counted;
        }
        let ghost middle = *writer;
        let r = encode_all(self.as_slice(), writer);
        proof {
            if r is Ok && T::spec_encoding_stated() {
                lemma_wrote_in_turn(
                    *old(writer),
                    middle,
                    *writer,
                    count.spec_encoding(),
                    concat_encodings(self@),
                );
            }
        }
        r
    }
}

impl<T: BinaryDecode> BinaryDecode for Vec<T> {
    open spec fn spec_decodes(
        input: Seq<u8>,
        max_allocation: u64,
        options: DecodeOptions,
        value: Self,
        consumed: int,
    ) -> bool {
        &&& input.len() >= 8
        &&& collection_bytes(length_prefix(input), vstd::layout::size_of::<T>() as int)
            <= max_allocation
        &&& collection_bytes(length_prefix(input), vstd::layout::size_of::<T>() as int)
            <= usize::MAX
        &&& value@.len() == length_prefix(input)
        &&& decodes_seq(input.skip(8), max_allocation, options, value@, consumed - 8)
    }

    open spec fn spec_decode_owed(
        input: Seq<u8>,
        max_allocation: u64,
        options: DecodeOptions,
    ) -> bool {
        &&& input.len() >= 8
        &&& collection_bytes(length_prefix(input), vstd::layout::size_of::<T>() as int)
            <= max_allocation
        &&& collection_bytes(length_prefix(input), vstd::layout::size_of::<T>() as int)
            <= usize::MAX
        &&& decode_owed_seq::<T>(
            input.skip(8),
            max_allocation,
            options,
            length_prefix(input) as nat,
        )
    }

    open spec fn spec_decode_result(
        input: Seq<u8>,
        max_allocation: u64,
        options: DecodeOptions,
        r: ArchiveResult<Self>,
    ) -> bool {
        let bytes = collection_bytes(length_prefix(input), vstd::layout::size_of::<T>() as int);
        &&& input.len() < 8 ==> (r matches Err(e) && is_io(e, IoErrorKind::UnexpectedEof))
        &&& input.len() >= 8 && bytes > u64::MAX ==> (r matches Err(
            ArchiveError::LengthOverflow { length: l },
        ) && l == length_prefix(input))
        &&& input.len() >= 8 && bytes <= u64::MAX && bytes > max_allocation ==> (r matches Err(e)
            && crate::error::is_limit_exceeded(
            e,
            "collection allocation"@,
            bytes as u64,
            max_allocation,
        ))
    }

    fn decode(reader: &mut ArchiveReader) -> (r: ArchiveResult<Self>)
        ensures
            old(reader).unread().len() < 8 ==> (r matches Err(e) && is_io(e, IoErrorKind::UnexpectedEof))
                && final(reader).hit_end(*old(reader)),
            old(reader).unread().len() >= 8 && collection_bytes(
                length_prefix(old(reader).unread()),
                vstd::layout::size_of::<T>() as int,
            ) > u64::MAX ==> (r matches Err(ArchiveError::LengthOverflow { length: l }) && l
                == length_prefix(old(reader).unread())),
            old(reader).unread().len() >= 8 && collection_bytes(
                length_prefix(old(reader).unread()),
                vstd::layout::size_of::<T>() as int,
            ) <= u64::MAX && collection_bytes(
                length_prefix(old(reader).unread()),
                vstd::layout::size_of::<T>() as int,
            ) > old(reader).max_allocation() ==> (r matches Err(e)
                && crate::error::is_limit_exceeded(
                e,
                "collection allocation"@,
                collection_bytes(
                    length_prefix(old(reader).unread()),
                    vstd::layout::size_of::<T>() as int,
                ) as u64,
                old(reader).max_allocation(),
            )),
    {
        proof {
            old(reader).lemma_pos_nonneg();
        }
        let count = u64::decode(reader)?;
        let ghost after_count = *reader;
        proof {
            reader.lemma_advanced_unread(*old(reader), 8);
        }
        let count = reader.checked_count::<T>(count)?;
        let mut values: Vec<T> = Vec::new();
        if let Err(err) = values.try_reserve(count) {
            return Err(allocation_failure("vector", err));
        }
        decode_all(reader, count, &mut values)?;
        proof {
            assert(after_count.unread() == old(reader).unread().skip(8));
        }
        Ok(values)
    }
}

/// Converts a vector into an array with std's `TryFrom<Vec<T>>` for `[T; N]`.
/// Trusted: it succeeds exactly when the vector holds `N` values, keeping their order.
#[verifier::external_body]
fn vec_into_array<T, const N: usize>(values: Vec<T>) -> (r: Result<[T; N], Vec<T>>)
    ensures
        r is Ok <==> values@.len() == N,
        r matches Ok(a) ==> a@ == values@,
{
    values.try_into()
}

impl<T: BinaryEncode, const N: usize> BinaryEncode for [T; N] {
    open spec fn spec_encoding_stated() -> bool {
        T::spec_encoding_stated()
    }

    open spec fn spec_encoding(&self) -> Seq<u8> {
        concat_encodings(self@)
    }

    open spec fn spec_encode_ok(&self, pos: int) -> bool {
        encodes_ok_from(self@, pos)
    }

    fn encode(&self, writer: &mut ArchiveWriter) -> (r: ArchiveResult<()>) {
        encode_all(self.as_slice(), writer)
    }
}

impl<T: BinaryDecode, const N: usize> BinaryDecode for [T; N] {
    open spec fn spec_decodes(
        input: Seq<u8>,
        max_allocation: u64,
        options: DecodeOptions,
        value: Self,
        consumed: int,
    ) -> bool {
        &&& collection_bytes(N as int, vstd::layout::size_of::<T>() as int) <= max_allocation
        &&& collection_bytes(N as int, vstd::layout::size_of::<T>() as int) <= usize::MAX
        &&& decodes_seq(input, max_allocation, options, value@, consumed)
    }

    open spec fn spec_decode_owed(
        input: Seq<u8>,
        max_allocation: u64,
        options: DecodeOptions,
    ) -> bool {
        &&& collection_bytes(N as int, vstd::layout::size_of::<T>() as int) <= max_allocation
        &&& collection_bytes(N as int, vstd::layout::size_of::<T>() as int) <= usize::MAX
        &&& decode_owed_seq::<T>(input, max_allocation, options, N as nat)
    }

    open spec fn spec_decode_result(
        input: Seq<u8>,
        max_allocation: u64,
        options: DecodeOptions,
        r: ArchiveResult<Self>,
    ) -> bool {
        let bytes = collection_bytes(N as int, vstd::layout::size_of::<T>() as int);
        &&& bytes > u64::MAX ==> (r matches Err(ArchiveError::LengthOverflow { length: l }) && l
            == N)
        &&& bytes <= u64::MAX && bytes > max_allocation ==> (r matches Err(e)
            && crate::error::is_limit_exceeded(
            e,
            "collection allocation"@,
            bytes as u64,
            max_allocation,
        ))
    }

    fn decode(reader: &mut ArchiveReader) -> (r: ArchiveResult<Self>)
        ensures
            collection_bytes(N as int, vstd::layout::size_of::<T>() as int) > u64::MAX ==> (r matches Err(
                ArchiveError::LengthOverflow { length: l },
            ) && l == N),
            collection_bytes(N as int, vstd::layout::size_of::<T>() as int) <= u64::MAX
                && collection_bytes(N as int, vstd::layout::size_of::<T>() as int)
                > old(reader).max_allocation() ==> (r matches Err(e)
                && crate::error::is_limit_exceeded(
                e,
                "collection allocation"@,
                collection_bytes(N as int, vstd::layout::size_of::<T>() as int) as u64,
                old(reader).max_allocation(),
            )),
    {
        reader.checked_count::<T>(N as u64)?;
        let mut values: Vec<T> = Vec::new();
        if let Err(err) = values.try_reserve(N) {
            return Err(allocation_failure("array buffer", err));
        }
        decode_all(reader, N, &mut values)?;
        match vec_into_array::<T, N>(values) {
            Ok(array) => Ok(array),
            Err(_) => Err(
                ArchiveError::InvalidData(
                    message_with_number("failed to create array of length ", N as u64),
                ),
            ),
        }
    }
}

/// The inner result of decoding a boxed value.
pub open spec fn unboxed_result<T>(r: ArchiveResult<Box<T>>) -> ArchiveResult<T> {
    match r {
        Ok(v) => Ok(*v),
        Err(e) => Err(e),
    }
}

impl<T: BinaryEncode> BinaryEncode for Box<T> {
    open spec fn spec_encoding_stated() -> bool {
        T::spec_encoding_stated()
    }

    open spec fn spec_encoding(&self) -> Seq<u8> {
        (**self).spec_encoding()
    }

    open spec fn spec_encode_ok(&self, pos: int) -> bool {
        (**self).spec_encode_ok(pos)
    }

    fn encode(&self, writer: &mut ArchiveWriter) -> (r: ArchiveResult<()>) {
        (**self).encode(writer)
    }
}

impl<T: BinaryDecode> BinaryDecode for Box<T> {
    open spec fn spec_decodes(
        input: Seq<u8>,
        max_allocation: u64,
        options: DecodeOptions,
        value: Self,
        consumed: int,
    ) -> bool {
        T::spec_decodes(input, max_allocation, options, *value, consumed)
    }

    open spec fn spec_decode_owed(
        input: Seq<u8>,
        max_allocation: u64,
        options: DecodeOptions,
    ) -> bool {
        T::spec_decode_owed(input, max_allocation, options)
    }

    open spec fn spec_decode_result(
        input: Seq<u8>,
        max_allocation: u64,
        options: DecodeOptions,
        r: ArchiveResult<Self>,
    ) -> bool {
        T::spec_decode_result(input, max_allocation, options, unboxed_result(r))
    }

    fn decode(reader: &mut ArchiveReader) -> (r: ArchiveResult<Self>) {
        let value = T::decode(reader)?;
        Ok(Box::new(value))
    }
}

} // verus!
