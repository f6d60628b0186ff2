//! Versioned, length-delimited records for forward-compatible archives.

use crate::archive::policy::{DecodeOptions, DeletedFieldPolicy};
use crate::archive::reader::{
    allocation_failure, collection_bytes, is_allocation_failure, is_out_of_memory, unread_from,
    ArchiveReader,
};
use crate::archive::writer::{
    lemma_write_at_keeps_prefix, lemma_write_at_patch, lemma_write_at_read_back, lemma_wrote_in_turn,
    write_at, ArchiveWriter,
};
use crate::codec::impls::{has_prefixed_bytes, invalid_utf8_message, length_prefix, prefixed_bytes};
use crate::codec::traits::{BinaryDecode, BinaryEncode};
use crate::error::{
    is_invalid_data, is_io, is_limit_exceeded, ArchiveError, ArchiveResult, IoError, IoErrorKind,
};
use crate::text::{debug_quoted, decimal, decimal_string, quote_debug};
use vstd::bytes::*;
use vstd::prelude::*;
use vstd::string::*;
use vstd::utf8::*;

verus! {

/// Fixed header written before every chunk: `version (u32)`, `length (u64)`.
#[derive(Debug, Clone, Copy, PartialEq, Eq, Structural)]
pub struct ChunkHeader {
    /// Schema version of this chunk payload.
    pub version: u32,
    /// Payload size in bytes, excluding this header.
    pub length: u64,
}

/// The twelve header bytes of a chunk: version, then payload length, little-endian.
pub open spec fn chunk_header_bytes(version: u32, length: u64) -> Seq<u8> {
    spec_u32_to_le_bytes(version) + spec_u64_to_le_bytes(length)
}

/// A complete chunk: its header followed by its payload.
pub open spec fn chunk_bytes(version: u32, payload: Seq<u8>) -> Seq<u8> {
    chunk_header_bytes(version, payload.len() as u64) + payload
}

/// Writing a chunk header with a zero length, then the payload, then patching
/// the length field with the payload's length, writes the complete chunk.
pub proof fn lemma_chunk_patch(
    before: ArchiveWriter,
    started: ArchiveWriter,
    written: ArchiveWriter,
    version: u32,
    payload: Seq<u8>,
)
    requires
        started.wrote(before, chunk_header_bytes(version, 0)),
        written.wrote(started, payload),
        payload.len() <= u64::MAX,
    ensures
        write_at(
            written.bytes(),
            before.pos() + 4,
            spec_u64_to_le_bytes(payload.len() as u64),
        ) == write_at(before.bytes(), before.pos(), chunk_bytes(version, payload)),
        written.pos() == before.pos() + chunk_bytes(version, payload).len(),
{
    lemma_auto_spec_u32_to_from_le_bytes();
    lemma_auto_spec_u64_to_from_le_bytes();
    before.lemma_pos_nonneg();
    lemma_wrote_in_turn(before, started, written, chunk_header_bytes(version, 0), payload);
    assert(chunk_header_bytes(version, 0) + payload =~= spec_u32_to_le_bytes(version)
        + spec_u64_to_le_bytes(0) + payload);
    lemma_write_at_patch(
        before.bytes(),
        before.pos(),
        spec_u32_to_le_bytes(version),
        spec_u64_to_le_bytes(0),
        payload,
        spec_u64_to_le_bytes(payload.len() as u64),
    );
    assert(spec_u32_to_le_bytes(version) + spec_u64_to_le_bytes(payload.len() as u64) + payload
        =~= chunk_bytes(version, payload));
}

/// Writing a chunk holding `value` at write position `pos` succeeds: the header
/// fits, and so does the value after it.
pub open spec fn chunk_of_ok<T: BinaryEncode + ?Sized>(pos: int, value: &T) -> bool {
    &&& pos + 12 <= usize::MAX
    &&& value.spec_encode_ok(pos + 12)
}

/// A streaming writer for one chunk payload.
pub struct ChunkWriter<'a> {
    archive: &'a mut ArchiveWriter,
    header: ChunkHeader,
    length_pos: u64,
    payload_pos: u64,
}

impl<'a> ChunkWriter<'a> {
    /// The writer that the payload goes to.
    pub closed spec fn archive(&self) -> &'a mut ArchiveWriter {
        self.archive
    }

    /// The state of the writer that the payload goes to.
    pub closed spec fn current(&self) -> ArchiveWriter {
        *self.archive
    }

    /// The chunk's version.
    pub closed spec fn version(&self) -> u32 {
        self.header.version
    }

    /// Where the length field of the header lies.
    pub closed spec fn length_pos(&self) -> int {
        self.length_pos as int
    }

    /// Where the payload begins.
    pub closed spec fn payload_pos(&self) -> int {
        self.payload_pos as int
    }

    /// `self` writes into the same writer, at the same header, as `other`.
    pub open spec fn same_chunk(&self, other: ChunkWriter<'a>) -> bool {
        &&& self.version() == other.version()
        &&& self.length_pos() == other.length_pos()
        &&& self.payload_pos() == other.payload_pos()
    }

    /// Writes a value into this chunk.
    pub fn write<T: BinaryEncode + ?Sized>(&mut self, value: &T) -> (r: ArchiveResult<()>)
        ensures
            final(self).same_chunk(*old(self)),
            *final(final(self).archive()) == *final(old(self).archive()),
            T::spec_encoding_stated() ==> (r is Ok <==> value.spec_encode_ok(
                old(self).current().pos(),
            )),
            T::spec_encoding_stated() && r is Ok ==> final(self).current().wrote(
                old(self).current(),
                value.spec_encoding(),
            ),
    {
        self.archive.write(value)
    }

    /// Writes a named, length-delimited field with its introduction version:
    /// the name as a string, then a chunk of that version holding the value.
    pub fn write_versioned_field<T: BinaryEncode + ?Sized>(
        &mut self,
        name: &str,
        version: u32,
        value: &T,
    ) -> (r: ArchiveResult<()>)
        ensures
            final(self).same_chunk(*old(self)),
            *final(final(self).archive()) == *final(old(self).archive()),
            T::spec_encoding_stated() ==> (r is Ok <==> old(self).current().has_room(
                name.spec_encoding().len() as int,
            ) && chunk_of_ok(old(self).current().pos() + name.spec_encoding().len(), value)),
            T::spec_encoding_stated() && r is Ok ==> final(self).current().wrote(
                old(self).current(),
                name.spec_encoding() + chunk_bytes(version, value.spec_encoding()),
            ),
    {
        proof {
            old(self).current().lemma_pos_nonneg();
        }
        let name_written = self.archive.write(name);
        if name_written.is_err() {
            return name_written;
        }
        let ghost named = *self.archive;
        if let Err(e) = self.archive.write_chunk_of(version, value) {
            return Err(e);
        }
        proof {
            if T::spec_encoding_stated() {
                lemma_wrote_in_turn(
                    old(self).current(),
                    named,
                    *self.archive,
                    name.spec_encoding(),
                    chunk_bytes(version, value.spec_encoding()),
                );
            }
        }
        Ok(())
    }

    /// Completes the chunk and patches its payload length in the header.
    pub fn finish(self) -> (r: ArchiveResult<ChunkHeader>)
        ensures
            self.current().pos() < self.payload_pos() ==> (r matches Err(e) && is_invalid_data(
                e,
                "chunk position moved backwards"@,
            )) && *final(self.archive()) == self.current(),
            self.current().pos() >= self.payload_pos() && self.length_pos() + 8 > usize::MAX ==> (r matches Err(
                ArchiveError::Io(io),
            ) && io.kind == IoErrorKind::InvalidInput),
            self.current().pos() >= self.payload_pos() && self.length_pos() + 8 <= usize::MAX ==> (r matches Ok(h)
                && h.version == self.version() && h.length == self.current().pos() - self.payload_pos()
                && final(self.archive()).bytes() == write_at(
                self.current().bytes(),
                self.length_pos(),
                spec_u64_to_le_bytes(h.length),
            ) && final(self.archive()).pos() == self.current().pos()),
    {
        proof {
            reveal_strlit("chunk position moved backwards");
            lemma_auto_spec_u64_to_from_le_bytes();
        }
        let end = self.archive.position()?;
        let length = match end.checked_sub(self.payload_pos) {
            Some(length) => length,
            None => {
                return Err(
                    ArchiveError::InvalidData(String::from_str("chunk position moved backwards")),
                );
            },
        };
        self.archive.seek(self.length_pos)?;
        length.encode(self.archive)?;
        self.archive.seek(end)?;
        Ok(ChunkHeader { version: self.header.version, length })
    }
}

impl ArchiveWriter {
    /// Starts a chunk and returns a streaming payload writer.
    ///
    /// Prefer [`Self::write_chunk`] when possible: it makes completion explicit
    /// and prevents accidentally leaving an unpatched length field behind.
    pub fn begin_chunk(&mut self, version: u32) -> (r: ArchiveResult<ChunkWriter<'_>>)
        ensures
            r is Ok <==> old(self).has_room(12),
            r matches Err(e) ==> e matches ArchiveError::Io(io) && io.kind == IoErrorKind::InvalidInput,
            r matches Ok(c) ==> c.current().wrote(*old(self), chunk_header_bytes(version, 0))
                && c.version() == version && c.length_pos() == old(self).pos() + 4
                && c.payload_pos() == old(self).pos() + 12 && *final(self) == *final(c.archive()),
    {
        proof {
            old(self).lemma_pos_nonneg();
            lemma_auto_spec_u32_to_from_le_bytes();
            lemma_auto_spec_u64_to_from_le_bytes();
        }
        version.encode(self)?;
        let ghost versioned = *self;
        let length_pos = self.pos_u64();
        let zero: u64 = 0;
        zero.encode(self)?;
        proof {
            lemma_wrote_in_turn(
                *old(self),
                versioned,
                *self,
                version.spec_encoding(),
                zero.spec_encoding(),
            );
        }
        let payload_pos = self.pos_u64();
        Ok(
            ChunkWriter {
                archive: self,
                header: ChunkHeader { version, length: 0 },
                length_pos,
                payload_pos,
            },
        )
    }

    /// Writes one chunk holding exactly `value`.
    pub(crate) fn write_chunk_of<T: BinaryEncode + ?Sized>(&mut self, version: u32, value: &T) -> (r:
        ArchiveResult<ChunkHeader>)
        ensures
            T::spec_encoding_stated() ==> (r is Ok <==> chunk_of_ok(old(self).pos(), value)),
            r matches Ok(h) ==> h.version == version,
            T::spec_encoding_stated() ==> (r matches Ok(h) ==> h.length == value.spec_encoding().len()
                && final(self).wrote(*old(self), chunk_bytes(version, value.spec_encoding()))),
    {
        proof {
            old(self).lemma_pos_nonneg();
            lemma_auto_spec_u32_to_from_le_bytes();
            lemma_auto_spec_u64_to_from_le_bytes();
        }
        let mut chunk = self.begin_chunk(version)?;
        let ghost started = chunk.current();
        chunk.write(value)?;
        let ghost written = chunk.current();
        let r = chunk.finish();
        proof {
            if r is Ok && T::spec_encoding_stated() {
                lemma_chunk_patch(*old(self), started, written, version, value.spec_encoding());
            }
        }
        r
    }

    /// Writes a complete chunk using a closure and returns its header.
    /// The length is patched only after the closure succeeds.
    ///
    /// The closure writes the payload through the chunk writer it is given;
    /// whatever it appends there becomes the payload of the chunk.
    pub fn write_chunk<F>(&mut self, version: u32, f: F) -> (r: ArchiveResult<ChunkHeader>)
        where
            F: FnOnce(&mut ChunkWriter<'_>) -> ArchiveResult<()>,
        requires
            forall|c: &mut ChunkWriter<'_>| call_requires(f, (c,)),
            forall|c: &mut ChunkWriter<'_>, res: ArchiveResult<()>|
                call_ensures(f, (c,), res) ==> *final(final(c).archive()) == *final(c.archive()),
        ensures
            !old(self).has_room(12) ==> (r matches Err(e) && e matches ArchiveError::Io(io)
                && io.kind == IoErrorKind::InvalidInput),
            old(self).has_room(12) ==> exists|c: &mut ChunkWriter<'_>, res: ArchiveResult<()>|
                #[trigger] call_ensures(f, (c,), res) && handed_writer(*c, *old(self), version)
                    && chunk_outcome(res, *final(c), r, *final(self)) && appended_outcome(
                    *old(self),
                    version,
                    res,
                    *c,
                    *final(c),
                    r,
                    *final(self),
                ),
    {
        proof {
            old(self).lemma_pos_nonneg();
            lemma_auto_spec_u32_to_from_le_bytes();
            lemma_auto_spec_u64_to_from_le_bytes();
        }
        let mut chunk = self.begin_chunk(version)?;
        let ghost handed = chunk;
        let outcome = f(&mut chunk);
        let ghost after = chunk;
        if let Err(e) = outcome {
            return Err(e);
        }
        let r = chunk.finish();
        proof {
            if r is Ok && after.same_chunk(handed) {
                assert forall|p: Seq<u8>| #[trigger] after.current().wrote(handed.current(), p)
                    implies r == Ok::<ChunkHeader, ArchiveError>(
                    (ChunkHeader { version, length: p.len() as u64 }),
                ) && final(self).wrote(*old(self), chunk_bytes(version, p)) by {
                    after.current().lemma_pos_bounded();
                    lemma_chunk_patch(*old(self), handed.current(), after.current(), version, p);
                }
            }
        }
        r
    }
}

/// `c` is the chunk writer handed to a payload closure after `before` started a
/// chunk of `version`: the header is written with a zero length, and the
/// payload begins right after it.
pub open spec fn handed_writer<'a>(c: ChunkWriter<'a>, before: ArchiveWriter, version: u32) -> bool {
    &&& c.current().wrote(before, chunk_header_bytes(version, 0))
    &&& c.version() == version
    &&& c.length_pos() == before.pos() + 4
    &&& c.payload_pos() == before.pos() + 12
}

/// While a chunk's payload is written, its header stays as it was started, with
/// a zero length: whatever is appended after the header leaves it in place.
pub proof fn lemma_length_field_stays_zero<'a>(
    before: ArchiveWriter,
    version: u32,
    handed: ChunkWriter<'a>,
    after: ChunkWriter<'a>,
    payload: Seq<u8>,
)
    requires
        handed_writer(handed, before, version),
        after.current().wrote(handed.current(), payload),
    ensures
        after.current().bytes().len() >= before.pos() + 12,
        after.current().bytes().subrange(before.pos(), before.pos() + 12) == chunk_header_bytes(
            version,
            0,
        ),
{
    lemma_auto_spec_u32_to_from_le_bytes();
    lemma_auto_spec_u64_to_from_le_bytes();
    before.lemma_pos_nonneg();
    let header = chunk_header_bytes(version, 0);
    lemma_write_at_read_back(before.bytes(), before.pos(), header);
    let mid = handed.current().bytes();
    lemma_write_at_keeps_prefix(mid, before.pos() + 12, payload);
    assert(after.current().bytes().subrange(before.pos(), before.pos() + 12) =~= mid.subrange(
        before.pos(),
        before.pos() + 12,
    ));
}

/// What completing a chunk gives once its payload closure returned `res`,
/// leaving the chunk writer as `after` and the stream as `written`: the
/// closure's error unchanged, with the length field left at zero; or the
/// outcome of `ChunkWriter::finish` on `after`.
pub open spec fn chunk_outcome<'a>(
    res: ArchiveResult<()>,
    after: ChunkWriter<'a>,
    r: ArchiveResult<ChunkHeader>,
    written: ArchiveWriter,
) -> bool {
    &&& res matches Err(e) ==> (r matches Err(e2) && e2 == e) && written == after.current()
    &&& res is Ok && after.current().pos() < after.payload_pos() ==> (r matches Err(e)
        && is_invalid_data(e, "chunk position moved backwards"@)) && written == after.current()
    &&& res is Ok && after.current().pos() >= after.payload_pos() && after.length_pos() + 8
        > usize::MAX ==> (r matches Err(ArchiveError::Io(io)) && io.kind == IoErrorKind::InvalidInput)
    &&& res is Ok && after.current().pos() >= after.payload_pos() && after.length_pos() + 8
        <= usize::MAX ==> (r matches Ok(h) && h.version == after.version() && h.length
        == after.current().pos() - after.payload_pos() && written.bytes() == write_at(
        after.current().bytes(),
        after.length_pos(),
        spec_u64_to_le_bytes(h.length),
    ) && written.pos() == after.current().pos())
}

/// When the payload closure succeeded after appending exactly `p` to its chunk,
/// the chunk written is `version`'s header with the length of `p`, then `p`.
pub open spec fn appended_outcome<'a>(
    before: ArchiveWriter,
    version: u32,
    res: ArchiveResult<()>,
    handed: ChunkWriter<'a>,
    after: ChunkWriter<'a>,
    r: ArchiveResult<ChunkHeader>,
    written: ArchiveWriter,
) -> bool {
    res is Ok && after.same_chunk(handed) ==> forall|p: Seq<u8>|
        #[trigger] after.current().wrote(handed.current(), p) ==> r == Ok::<ChunkHeader, ArchiveError>(
            (ChunkHeader { version, length: p.len() as u64 }),
        ) && written.wrote(before, chunk_bytes(version, p))
}

/// The version in the chunk header at the start of `input`.
pub open spec fn chunk_version(input: Seq<u8>) -> u32 {
    spec_u32_from_le_bytes(input.take(4))
}

/// The payload length in the chunk header at the start of `input`.
pub open spec fn chunk_length(input: Seq<u8>) -> int {
    spec_u64_from_le_bytes(input.subrange(4, 12)) as int
}

/// `input` starts with a complete chunk whose payload fits `max_allocation`.
pub open spec fn has_chunk(input: Seq<u8>, max_allocation: u64) -> bool {
    &&& input.len() >= 12
    &&& chunk_length(input) <= max_allocation
    &&& chunk_length(input) <= usize::MAX
    &&& input.len() >= 12 + chunk_length(input)
}

/// The payload of the chunk at the start of `input`.
pub open spec fn chunk_payload(input: Seq<u8>) -> Seq<u8> {
    input.subrange(12, 12 + chunk_length(input))
}

/// A chunk payload loaded with its exact length, preventing reads into the next chunk.
pub struct ChunkReader {
    header: ChunkHeader,
    payload: ArchiveReader,
}

impl ChunkReader {
    /// The chunk metadata.
    pub closed spec fn head(&self) -> ChunkHeader {
        self.header
    }

    /// The reader over the payload; it inherits the limit and options of its parent.
    pub closed spec fn payload(&self) -> ArchiveReader {
        self.payload
    }

    /// The number of payload bytes left; none once past the end.
    pub open spec fn spec_remaining(&self) -> int {
        if self.payload().pos() <= self.payload().input().len() {
            self.payload().input().len() - self.payload().pos()
        } else {
            0
        }
    }

    /// Returns the chunk metadata.
    pub fn header(&self) -> (h: ChunkHeader)
        ensures
            h == self.head(),
    {
        self.header
    }

    /// The policy for stored fields that the current schema does not know.
    pub fn deleted_field_policy(&self) -> (p: DeletedFieldPolicy)
        ensures
            p == self.payload().options().deleted_fields,
    {
        self.payload.decode_options().deleted_fields
    }

    /// Reads one value from the current payload position.
    pub fn read<T: BinaryDecode>(&mut self) -> (r: ArchiveResult<T>)
        ensures
            T::spec_decode_warnings(
                old(self).payload().unread(),
                old(self).payload().max_allocation(),
                old(self).payload().options(),
            ) matches Some(w) ==> final(self).payload().warning_log() == old(self).payload().warning_log()
                + w,
            T::spec_decode_result(
                old(self).payload().unread(),
                old(self).payload().max_allocation(),
                old(self).payload().options(),
                r,
            ),
            T::spec_decode_owed(
                old(self).payload().unread(),
                old(self).payload().max_allocation(),
                old(self).payload().options(),
            ) ==> r is Ok || (r matches Err(e) && is_out_of_memory(e)),
            final(self).head() == old(self).head(),
            final(self).payload().same_source(old(self).payload()),
            r is Ok ==> final(self).payload().pos() >= old(self).payload().pos(),
            r matches Ok(v) ==> T::spec_decodes(
                old(self).payload().unread(),
                old(self).payload().max_allocation(),
                old(self).payload().options(),
                v,
                final(self).payload().pos() - old(self).payload().pos(),
            ),
    {
        T::decode(&mut self.payload)
    }

    /// Returns the number of unread payload bytes.
    pub fn remaining(&self) -> (n: u64)
        ensures
            n == self.spec_remaining(),
    {
        let len = self.payload.len_u64();
        let pos = self.payload.pos_u64();
        if pos <= len {
            len - pos
        } else {
            0
        }
    }

    /// Requires that the decoder consumed the complete payload.
    pub fn finish(&self) -> (r: ArchiveResult<()>)
        ensures
            self.payload().pos() > self.payload().input().len() ==> (r matches Err(e) && is_invalid_data(
                e,
                "decoder moved beyond chunk payload"@,
            )),
            self.payload().pos() < self.payload().input().len() ==> (r matches Err(
                ArchiveError::ChunkNotFullyConsumed { remaining: n },
            ) && n == self.spec_remaining()),
            self.payload().pos() == self.payload().input().len() ==> r is Ok,
    {
        proof {
            reveal_strlit("decoder moved beyond chunk payload");
        }
        if self.payload.pos_u64() > self.payload.len_u64() {
            return Err(
                ArchiveError::InvalidData(String::from_str("decoder moved beyond chunk payload")),
            );
        }
        let remaining = self.remaining();
        if remaining == 0 {
            Ok(())
        } else {
            Err(ArchiveError::ChunkNotFullyConsumed { remaining })
        }
    }

    /// Discards unread payload bytes so iteration can continue with the next chunk.
    pub fn skip_remaining(&mut self)
        ensures
            final(self).head() == old(self).head(),
            final(self).payload().same_source(old(self).payload()),
            final(self).payload().warning_log() == old(self).payload().warning_log(),
            final(self).payload().pos() == old(self).payload().input().len(),
    {
        let len = self.payload.len_u64();
        let _ = self.payload.seek(len);
    }

    /// Removes and returns the warnings recorded while reading this chunk.
    pub fn take_warnings(&mut self) -> (w: Vec<String>)
        ensures
            w@.map_values(|s: String| s@) == old(self).payload().warning_log(),
            final(self).payload().warning_log() == Seq::<Seq<char>>::empty(),
            final(self).payload().same_source(old(self).payload()),
            final(self).payload().pos() == old(self).payload().pos(),
            final(self).head() == old(self).head(),
    {
        self.payload.take_warnings()
    }
}

impl ArchiveReader {
    /// Reads the next chunk, including exactly its declared payload bytes.
    pub fn read_chunk(&mut self) -> (r: ArchiveResult<ChunkReader>)
        ensures
            final(self).same_source(*old(self)),
            old(self).unread().len() < 12 ==> (r matches Err(e) && is_io(e, IoErrorKind::UnexpectedEof))
                && final(self).hit_end(*old(self)),
            old(self).unread().len() >= 12 && chunk_length(old(self).unread())
                > old(self).max_allocation() ==> (r matches Err(e) && is_limit_exceeded(
                e,
                "chunk payload"@,
                chunk_length(old(self).unread()) as u64,
                old(self).max_allocation(),
            )) && final(self).advanced(*old(self), 12),
            old(self).unread().len() >= 12 && chunk_length(old(self).unread())
                <= old(self).max_allocation() && chunk_length(old(self).unread()) > usize::MAX ==> (r matches Err(
                ArchiveError::LengthOverflow { length: l },
            ) && l == chunk_length(old(self).unread())),
            old(self).unread().len() >= 12 && chunk_length(old(self).unread())
                <= old(self).max_allocation() && chunk_length(old(self).unread()) <= usize::MAX
                && old(self).unread().len() < 12 + chunk_length(old(self).unread()) ==> (r matches Err(
                e,
            ) && (is_io(e, IoErrorKind::UnexpectedEof) || is_allocation_failure(
                e,
                "chunk payload"@,
            ))),
            has_chunk(old(self).unread(), old(self).max_allocation()) ==> r is Ok || (r matches Err(e)
                && is_allocation_failure(e, "chunk payload"@)),
            r matches Ok(c) ==> {
                &&& has_chunk(old(self).unread(), old(self).max_allocation())
                &&& c.head().version == chunk_version(old(self).unread())
                &&& c.head().length == chunk_length(old(self).unread())
                &&& c.payload().input() == chunk_payload(old(self).unread())
                &&& c.payload().pos() == 0
                &&& c.payload().max_allocation() == old(self).max_allocation()
                &&& c.payload().options() == old(self).options()
                &&& c.payload().warning_log() == Seq::<Seq<char>>::empty()
                &&& final(self).advanced(*old(self), 12 + chunk_length(old(self).unread()))
            },
    {
        proof {
            reveal_strlit("chunk payload");
            old(self).lemma_pos_nonneg();
        }
        let version = u32::decode(self)?;
        let ghost after_version = *self;
        proof {
            self.lemma_advanced_unread(*old(self), 4);
        }
        let length = u64::decode(self)?;
        let ghost after_length = *self;
        proof {
            self.lemma_advanced_unread(after_version, 8);
            self.lemma_advanced_unread(*old(self), 12);
            assert(after_version.unread().take(8) =~= old(self).unread().subrange(4, 12));
        }
        let payload = self.read_bytes(length, "chunk payload")?;
        proof {
            assert(payload@ =~= chunk_payload(old(self).unread()));
        }
        let reader = ArchiveReader::nested(payload, self.limit(), self.decode_options());
        Ok(ChunkReader { header: ChunkHeader { version, length }, payload: reader })
    }
}

/// The positions, relative to the start of `input`, where consecutive chunks begin:
/// each chunk is complete and the next one begins right after it.
pub open spec fn chunk_bounds(input: Seq<u8>, max_allocation: u64, bounds: Seq<int>) -> bool {
    &&& bounds.len() >= 1
    &&& bounds[0] == 0
    &&& forall|i: int|
        0 <= i < bounds.len() - 1 ==> 0 <= #[trigger] bounds[i] <= input.len() && has_chunk(
            unread_from(input, bounds[i]),
            max_allocation,
        ) && bounds[i + 1] == bounds[i] + 12 + chunk_length(unread_from(input, bounds[i]))
}

/// The warnings of `logs`, one log after another.
pub open spec fn concat_logs(logs: Seq<Seq<Seq<char>>>) -> Seq<Seq<char>>
    decreases logs.len(),
{
    if logs.len() == 0 {
        Seq::empty()
    } else {
        concat_logs(logs.drop_last()) + logs.last()
    }
}

/// `bounds` divide `input` into chunks, and for each chunk walked there is the
/// reader handed to the callback, the callback's result and the warning log
/// the callback left in that reader.
pub open spec fn chunk_visits(
    input: Seq<u8>,
    max_allocation: u64,
    bounds: Seq<int>,
    readers: Seq<&mut ChunkReader>,
    results: Seq<ArchiveResult<()>>,
    logs: Seq<Seq<Seq<char>>>,
) -> bool {
    &&& chunk_bounds(input, max_allocation, bounds)
    &&& logs.len() == bounds.len() - 1
    &&& readers.len() == logs.len()
    &&& results.len() == logs.len()
}

/// `e` is an error that reading a chunk reports: the stream ends inside it, its
/// payload is over the limit or too large for this platform, or its payload
/// buffer cannot be allocated.
pub open spec fn is_chunk_read_error(e: ArchiveError, max_allocation: u64) -> bool {
    ||| is_io(e, IoErrorKind::UnexpectedEof)
    ||| exists|value: u64| #[trigger] is_limit_exceeded(e, "chunk payload"@, value, max_allocation)
    ||| e is LengthOverflow
    ||| is_allocation_failure(e, "chunk payload"@)
}

/// `c` is the reader handed out for the chunk at the start of `input`: its
/// header, a reader over exactly its payload from the start, with the limit and
/// options of the reader it came from and no warnings yet.
pub open spec fn handed_chunk(
    c: ChunkReader,
    input: Seq<u8>,
    max_allocation: u64,
    options: DecodeOptions,
) -> bool {
    &&& c.head() == (ChunkHeader {
        version: chunk_version(input),
        length: chunk_length(input) as u64,
    })
    &&& c.payload().input() == chunk_payload(input)
    &&& c.payload().pos() == 0
    &&& c.payload().max_allocation() == max_allocation
    &&& c.payload().options() == options
    &&& c.payload().warning_log() == Seq::<Seq<char>>::empty()
}

/// The chunk that starts `at` bytes into `input` was handed to `f`, with its
/// version and its reader, and `f` returned `Ok`.
pub open spec fn chunks_visited<F: FnMut(u32, &mut ChunkReader) -> ArchiveResult<()>>(
    f: F,
    input: Seq<u8>,
    max_allocation: u64,
    options: DecodeOptions,
    at: int,
) -> bool {
    exists|c: &mut ChunkReader, res: ArchiveResult<()>|
        #[trigger] call_ensures(f, (chunk_version(unread_from(input, at)), c), res) && res is Ok
            && handed_chunk(*c, unread_from(input, at), max_allocation, options)
}

/// Two divisions of `input` into consecutive chunks agree where both are defined.
proof fn lemma_chunk_bounds_agree_at(
    input: Seq<u8>,
    max_allocation: u64,
    b1: Seq<int>,
    b2: Seq<int>,
    i: int,
)
    requires
        chunk_bounds(input, max_allocation, b1),
        chunk_bounds(input, max_allocation, b2),
        0 <= i < b1.len(),
        i < b2.len(),
    ensures
        b1[i] == b2[i],
    decreases i,
{
    if i > 0 {
        lemma_chunk_bounds_agree_at(input, max_allocation, b1, b2, i - 1);
        assert(b1[i - 1] == b2[i - 1]);
    }
}

/// Each position of a division into chunks lies before the next, and none after the last.
proof fn lemma_chunk_bounds_below_last(input: Seq<u8>, max_allocation: u64, b: Seq<int>, i: int)
    requires
        chunk_bounds(input, max_allocation, b),
        0 <= i < b.len() - 1,
    ensures
        b[i] < b.last(),
    decreases b.len() - i,
{
    assert(b[i + 1] == b[i] + 12 + chunk_length(unread_from(input, b[i])));
    if i + 1 < b.len() - 1 {
        lemma_chunk_bounds_below_last(input, max_allocation, b, i + 1);
    }
}

/// In a stream of chunks, every position that a partial walk reached before
/// its end is where a complete chunk begins.
proof fn lemma_chunk_stream_continues(input: Seq<u8>, max_allocation: u64, walked: Seq<int>)
    requires
        is_chunk_stream(input, max_allocation),
        chunk_bounds(input, max_allocation, walked),
        walked.last() < input.len(),
    ensures
        has_chunk(unread_from(input, walked.last()), max_allocation),
{
    let all = choose|bounds: Seq<int>|
        #[trigger] chunk_bounds(input, max_allocation, bounds) && bounds.last() == input.len();
    let k = walked.len() - 1;
    if all.len() <= walked.len() {
        let j = all.len() - 1;
        lemma_chunk_bounds_agree_at(input, max_allocation, walked, all, j);
        if j < k {
            lemma_chunk_bounds_below_last(input, max_allocation, walked, j);
        }
        assert(false);
    }
    lemma_chunk_bounds_agree_at(input, max_allocation, walked, all, k);
    assert(all[k] == walked.last());
}

/// `input` is nothing but complete chunks, each fitting `max_allocation`.
pub open spec fn is_chunk_stream(input: Seq<u8>, max_allocation: u64) -> bool {
    exists|bounds: Seq<int>|
        #[trigger] chunk_bounds(input, max_allocation, bounds) && bounds.last() == input.len()
}

/// The message of a stored field that the current schema lacks.
pub open spec fn deleted_field_message(
    struct_name: Seq<char>,
    field_name: Seq<char>,
    introduced: u32,
    target_version: u32,
) -> Seq<char> {
    "stored field "@ + struct_name + "."@ + field_name + " (introduced in version "@ + decimal(
        introduced as nat,
    ) + ") is absent from schema version "@ + decimal(target_version as nat)
        + "; field discarded"@
}

/// Builds the message of a stored field that the current schema lacks.
fn deleted_field_text(
    struct_name: &str,
    field_name: &str,
    introduced: u32,
    target_version: u32,
) -> (m: String)
    ensures
        m@ == deleted_field_message(struct_name@, field_name@, introduced, target_version),
{
    let mut message = String::from_str("stored field ");
    message.append(struct_name);
    message.append(".");
    message.append(field_name);
    message.append(" (introduced in version ");
    message.append(decimal_string(introduced as u64).as_str());
    message.append(") is absent from schema version ");
    message.append(decimal_string(target_version as u64).as_str());
    message.append("; field discarded");
    proof {
        reveal_strlit("stored field ");
        reveal_strlit(".");
        reveal_strlit(" (introduced in version ");
        reveal_strlit(") is absent from schema version ");
        reveal_strlit("; field discarded");
    }
    message
}

impl ChunkReader {
    /// Applies the inherited policy to a stored field missing from the local schema.
    /// A field introduced after `target_version` is skipped silently; otherwise the
    /// policy records a warning or returns an error. Under the `Panic` policy the
    /// caller panics instead of calling this.
    pub fn handle_deleted_field(
        &mut self,
        struct_name: &str,
        field_name: &str,
        target_version: u32,
    ) -> (r: ArchiveResult<()>)
        requires
            !(old(self).payload().options().deleted_fields == DeletedFieldPolicy::Panic
                && old(self).head().version <= target_version),
        ensures
            final(self).head() == old(self).head(),
            final(self).payload().same_source(old(self).payload()),
            final(self).payload().pos() == old(self).payload().pos(),
            old(self).head().version > target_version ==> r is Ok && final(self).payload().warning_log()
                == old(self).payload().warning_log(),
            old(self).head().version <= target_version && old(self).payload().options().deleted_fields
                == DeletedFieldPolicy::Warn ==> r is Ok && final(self).payload().warning_log()
                == old(self).payload().warning_log().push(
                deleted_field_message(struct_name@, field_name@, old(self).head().version, target_version),
            ),
            old(self).head().version <= target_version && old(self).payload().options().deleted_fields
                == DeletedFieldPolicy::Error ==> (r matches Err(e) && is_invalid_data(
                e,
                deleted_field_message(struct_name@, field_name@, old(self).head().version, target_version),
            )) && final(self).payload().warning_log() == old(self).payload().warning_log(),
    {
        if self.header.version > target_version {
            return Ok(());
        }
        let message = deleted_field_text(struct_name, field_name, self.header.version, target_version);
        self.payload.deleted_field(message)
    }

    /// Whether a stored field of this chunk that the schema of `target_version`
    /// lacks calls for a panic: the inherited policy is `Panic` and the field was
    /// introduced no later than that version. Callers panic in that case, with
    /// [`Self::deleted_field_panic_message`], instead of calling
    /// [`Self::handle_deleted_field`].
    pub fn deleted_field_panics(&self, target_version: u32) -> (b: bool)
        ensures
            b == (self.payload().options().deleted_fields == DeletedFieldPolicy::Panic
                && self.head().version <= target_version),
    {
        match self.payload.decode_options().deleted_fields {
            DeletedFieldPolicy::Panic => self.header.version <= target_version,
            _ => false,
        }
    }

    /// The message of the panic that the `Panic` policy calls for.
    pub fn deleted_field_panic_message(
        &self,
        struct_name: &str,
        field_name: &str,
        target_version: u32,
    ) -> (m: String)
        ensures
            m@ == "binary_archive: "@ + deleted_field_message(
                struct_name@,
                field_name@,
                self.head().version,
                target_version,
            ),
    {
        let mut m = String::from_str("binary_archive: ");
        proof {
            reveal_strlit("binary_archive: ");
        }
        let text = deleted_field_text(struct_name, field_name, self.header.version, target_version);
        m.append(text.as_str());
        m
    }
}

impl ArchiveReader {
    /// Moves the warnings recorded while reading `chunk` to this reader, after its own.
    pub fn absorb_warnings(&mut self, chunk: &mut ChunkReader)
        ensures
            final(self).warning_log() == old(self).warning_log() + old(chunk).payload().warning_log(),
            final(self).same_source(*old(self)),
            final(self).pos() == old(self).pos(),
            final(chunk).payload().warning_log() == Seq::<Seq<char>>::empty(),
            final(chunk).payload().same_source(old(chunk).payload()),
            final(chunk).payload().pos() == old(chunk).payload().pos(),
            final(chunk).head() == old(chunk).head(),
    {
        let mut moved = chunk.take_warnings();
        self.append_warnings(&mut moved);
    }

    /// Reads and discards the next chunk without allocating its payload.
    pub fn skip_chunk(&mut self) -> (r: ArchiveResult<ChunkHeader>)
        ensures
            old(self).unread().len() < 12 ==> (r matches Err(e) && is_io(e, IoErrorKind::UnexpectedEof))
                && final(self).hit_end(*old(self)),
            old(self).unread().len() >= 12 && old(self).pos() + 12 + chunk_length(old(self).unread())
                > u64::MAX ==> (r matches Err(e) && is_invalid_data(
                e,
                "chunk end position overflow"@,
            )) && final(self).advanced(*old(self), 12),
            old(self).unread().len() >= 12 && old(self).pos() + 12 + chunk_length(old(self).unread())
                <= u64::MAX && old(self).unread().len() < 12 + chunk_length(old(self).unread()) ==> (r matches Err(
                ArchiveError::Io(io),
            ) && io.kind == IoErrorKind::UnexpectedEof && io.message@ == "truncated chunk payload"@)
                && final(self).advanced(*old(self), 12),
            old(self).unread().len() >= 12 + chunk_length(old(self).unread()) ==> r == Ok::<
                ChunkHeader,
                ArchiveError,
            >(
                (ChunkHeader {
                    version: chunk_version(old(self).unread()),
                    length: chunk_length(old(self).unread()) as u64,
                }),
            ) && final(self).advanced(*old(self), 12 + chunk_length(old(self).unread())),
    {
        proof {
            reveal_strlit("chunk end position overflow");
            reveal_strlit("truncated chunk payload");
            old(self).lemma_pos_nonneg();
        }
        let version = u32::decode(self)?;
        let ghost after_version = *self;
        proof {
            self.lemma_advanced_unread(*old(self), 4);
        }
        let length = u64::decode(self)?;
        proof {
            self.lemma_advanced_unread(after_version, 8);
            self.lemma_advanced_unread(*old(self), 12);
            assert(after_version.unread().take(8) =~= old(self).unread().subrange(4, 12));
        }
        let total = self.len_u64();
        let target = match self.pos_u64().checked_add(length) {
            Some(target) => target,
            None => {
                return Err(ArchiveError::InvalidData(String::from_str("chunk end position overflow")));
            },
        };
        if target > total {
            return Err(
                ArchiveError::Io(
                    IoError { kind: IoErrorKind::UnexpectedEof, message: "truncated chunk payload" },
                ),
            );
        }
        let _ = self.seek(target);
        Ok(ChunkHeader { version, length })
    }

    /// Reads every chunk until the end of the stream.
    ///
    /// The callback is called once per chunk, in stream order; when it fails,
    /// the warnings recorded in that chunk are kept and its error is returned.
    /// Each callback receives the chunk schema version and a reader bounded to
    /// that chunk's payload. Unknown versions can be ignored safely by simply
    /// not reading from the callback reader: whatever it leaves unread is skipped.
    pub fn read_chunks<F>(&mut self, f: F) -> (r: ArchiveResult<()>)
        where
            F: FnMut(u32, &mut ChunkReader) -> ArchiveResult<()>,
        requires
            forall|version: u32, chunk: &mut ChunkReader| call_requires(f, (version, chunk)),
        ensures
            final(self).same_source(*old(self)),
            r is Ok ==> is_chunk_stream(old(self).unread(), old(self).max_allocation()),
            r is Ok && old(self).pos() <= old(self).input().len() ==> final(self).pos()
                == old(self).input().len(),
            r matches Err(e) ==> !is_chunk_stream(old(self).unread(), old(self).max_allocation())
                || is_allocation_failure(e, "chunk payload"@) || exists|
                version: u32,
                chunk: &mut ChunkReader,
            | #[trigger] call_ensures(f, (version, chunk), r),
            r matches Err(e) ==> is_chunk_read_error(e, old(self).max_allocation()) || exists|
                version: u32,
                chunk: &mut ChunkReader,
            | #[trigger] call_ensures(f, (version, chunk), r),
            r is Ok ==> exists|
                bounds: Seq<int>,
                readers: Seq<&mut ChunkReader>,
                results: Seq<ArchiveResult<()>>,
                logs: Seq<Seq<Seq<char>>>,
            |
                #[trigger] chunk_visits(
                    old(self).unread(),
                    old(self).max_allocation(),
                    bounds,
                    readers,
                    results,
                    logs,
                ) && bounds.last() == old(self).unread().len() && final(self).warning_log()
                    == old(self).warning_log() + concat_logs(logs) && forall|i: int|
                    0 <= i < logs.len() ==> call_ensures(
                        f,
                        (chunk_version(unread_from(old(self).unread(), bounds[i])), readers[i]),
                        results[i],
                    ) && results[i] is Ok && handed_chunk(
                        *readers[i],
                        unread_from(old(self).unread(), bounds[i]),
                        old(self).max_allocation(),
                        old(self).options(),
                    ) && final(#[trigger] readers[i]).payload().warning_log() == logs[i],
            r is Ok ==> exists|bounds: Seq<int>|
                #[trigger] chunk_bounds(old(self).unread(), old(self).max_allocation(), bounds)
                    && bounds.last() == old(self).unread().len() && forall|i: int|
                    0 <= i < bounds.len() - 1 ==> chunks_visited(
                        f,
                        old(self).unread(),
                        old(self).max_allocation(),
                        old(self).options(),
                        #[trigger] bounds[i],
                    ),
    {
        let end = self.len_u64();
        let ghost start = *self;
        let mut callback = f;
        let ghost mut bounds: Seq<int> = seq![0int];
        let ghost mut logs: Seq<Seq<Seq<char>>> = Seq::empty();
        proof {
            start.lemma_pos_nonneg();
            assert(start.warning_log() + concat_logs(logs) =~= start.warning_log());
            assert(chunk_visits(
                start.unread(),
                start.max_allocation(),
                bounds,
                Seq::<&mut ChunkReader>::empty(),
                Seq::<ArchiveResult<()>>::empty(),
                logs,
            ));
        }
        while self.pos_u64() < end
            invariant
                start == *old(self),
                callback == f,
                logs.len() == bounds.len() - 1,
                self.warning_log() == start.warning_log() + concat_logs(logs),
                exists|readers: Seq<&mut ChunkReader>, results: Seq<ArchiveResult<()>>|
                    #[trigger] chunk_visits(
                        start.unread(),
                        start.max_allocation(),
                        bounds,
                        readers,
                        results,
                        logs,
                    ) && forall|i: int|
                        0 <= i < logs.len() ==> call_ensures(
                            f,
                            (chunk_version(unread_from(start.unread(), bounds[i])), readers[i]),
                            results[i],
                        ) && results[i] is Ok && handed_chunk(
                            *readers[i],
                            unread_from(start.unread(), bounds[i]),
                            start.max_allocation(),
                            start.options(),
                        ) && final(#[trigger] readers[i]).payload().warning_log() == logs[i],
                self.same_source(start),
                end == start.input().len(),
                start.pos() >= 0,
                self.pos() >= start.pos(),
                self.pos() <= end || self.pos() == start.pos(),
                forall|version: u32, chunk: &mut ChunkReader| call_requires(f, (version, chunk)),
                chunk_bounds(start.unread(), start.max_allocation(), bounds),
                bounds.last() == self.pos() - start.pos(),
                forall|i: int|
                    0 <= i < bounds.len() - 1 ==> chunks_visited(
                        f,
                        start.unread(),
                        start.max_allocation(),
                        start.options(),
                        #[trigger] bounds[i],
                    ),
            decreases end - self.pos(),
        {
            let ghost before = *self;
            proof {
                before.lemma_advanced_unread(start, self.pos() - start.pos());
            }
            let mut chunk = match self.read_chunk() {
                Ok(chunk) => chunk,
                Err(e) => {
                    proof {
                        if before.unread().len() >= 12 && chunk_length(before.unread())
                            > start.max_allocation() {
                            assert(is_limit_exceeded(
                                e,
                                "chunk payload"@,
                                chunk_length(before.unread()) as u64,
                                start.max_allocation(),
                            ));
                        }
                        if is_chunk_stream(start.unread(), start.max_allocation()) {
                            lemma_chunk_stream_continues(
                                start.unread(),
                                start.max_allocation(),
                                bounds,
                            );
                        }
                    }
                    return Err(e);
                },
            };
            let version = chunk.header().version;
            let ghost handed = chunk;
            let outcome = callback(version, &mut chunk);
            let ghost visited = chunk;
            self.absorb_warnings(&mut chunk);
            if outcome.is_err() {
                return outcome;
            }
            chunk.skip_remaining();
            proof {
                let b = before.pos() - start.pos();
                let (reader, result) = choose|c: &mut ChunkReader, res: ArchiveResult<()>|
                    #[trigger] call_ensures(f, (version, c), res) && res is Ok && *c == handed
                        && *final(c) == visited;
                let old_logs = logs;
                let (old_readers, old_results) = choose|
                    rs: Seq<&mut ChunkReader>,
                    os: Seq<ArchiveResult<()>>,
                |
                    #[trigger] chunk_visits(
                        start.unread(),
                        start.max_allocation(),
                        bounds,
                        rs,
                        os,
                        logs,
                    ) && forall|i: int|
                        0 <= i < logs.len() ==> call_ensures(
                            f,
                            (chunk_version(unread_from(start.unread(), bounds[i])), rs[i]),
                            os[i],
                        ) && os[i] is Ok && handed_chunk(
                            *rs[i],
                            unread_from(start.unread(), bounds[i]),
                            start.max_allocation(),
                            start.options(),
                        ) && final(#[trigger] rs[i]).payload().warning_log() == logs[i];
                logs = logs.push(visited.payload().warning_log());
                let readers = old_readers.push(reader);
                let results = old_results.push(result);
                assert(logs.drop_last() =~= old_logs);
                assert(self.warning_log() =~= start.warning_log() + concat_logs(logs));
                assert(handed_chunk(handed, before.unread(), start.max_allocation(), start.options()));
                assert(version == chunk_version(unread_from(start.unread(), b)));
                assert(chunks_visited(f, start.unread(), start.max_allocation(), start.options(), b));
                let old_bounds = bounds;
                bounds = bounds.push(self.pos() - start.pos());
                assert forall|i: int| 0 <= i < bounds.len() - 1 implies 0 <= #[trigger] bounds[i]
                    <= start.unread().len() && has_chunk(
                    unread_from(start.unread(), bounds[i]),
                    start.max_allocation(),
                ) && bounds[i + 1] == bounds[i] + 12 + chunk_length(
                    unread_from(start.unread(), bounds[i]),
                ) by {
                    if i < old_bounds.len() - 1 {
                        assert(bounds[i] == old_bounds[i]);
                        assert(bounds[i + 1] == old_bounds[i + 1]);
                    } else {
                        assert(bounds[i] == b);
                    }
                }
                assert forall|i: int| 0 <= i < bounds.len() - 1 implies chunks_visited(
                    f,
                    start.unread(),
                    start.max_allocation(),
                    start.options(),
                    #[trigger] bounds[i],
                ) by {
                    if i < old_bounds.len() - 1 {
                        assert(bounds[i] == old_bounds[i]);
                    } else {
                        assert(bounds[i] == b);
                    }
                }
                assert forall|i: int| 0 <= i < logs.len() implies call_ensures(
                    f,
                    (chunk_version(unread_from(start.unread(), bounds[i])), readers[i]),
                    results[i],
                ) && results[i] is Ok && handed_chunk(
                    *readers[i],
                    unread_from(start.unread(), bounds[i]),
                    start.max_allocation(),
                    start.options(),
                ) && final(#[trigger] readers[i]).payload().warning_log() == logs[i] by {
                    if i < old_logs.len() {
                        assert(bounds[i] == old_bounds[i]);
                        assert(readers[i] == old_readers[i]);
                        assert(results[i] == old_results[i]);
                        assert(logs[i] == old_logs[i]);
                    } else {
                        assert(bounds[i] == b);
                        assert(before.unread() == unread_from(start.unread(), b));
                    }
                }
                assert(chunk_visits(
                    start.unread(),
                    start.max_allocation(),
                    bounds,
                    readers,
                    results,
                    logs,
                ));
            }
        }
        proof {
            if start.pos() <= end {
                assert(bounds.last() == start.unread().len());
            } else {
                assert(start.unread().len() == 0);
            }
        }
        Ok(())
    }
}

/// The eight bytes that begin the payload of a versioned struct: `BARFLD01`.
pub open spec fn field_marker() -> Seq<u8> {
    seq![66u8, 65u8, 82u8, 70u8, 76u8, 68u8, 48u8, 49u8]
}

/// The message of a payload that does not begin with the field marker.
pub open spec fn missing_marker_message() -> Seq<char> {
    "expected versioned field format; migrate legacy positional data first"@
}

/// The message of a stored field whose version exceeds that of its struct.
pub open spec fn field_version_message(name: Seq<char>, version: u32, struct_version: u32) -> Seq<
    char,
> {
    "field "@ + debug_quoted(name) + " version "@ + decimal(version as nat)
        + " exceeds stored struct version "@ + decimal(struct_version as nat)
}

/// The message of a field name stored twice.
pub open spec fn duplicate_field_message(name: Seq<char>) -> Seq<char> {
    "duplicate field "@ + debug_quoted(name)
}

/// The chunk of the field record at the start of `input`, after its name.
pub open spec fn field_chunk(input: Seq<u8>) -> Seq<u8> {
    input.skip(8 + length_prefix(input))
}

/// `input` starts with a complete field record: a UTF-8 name, then a chunk.
pub open spec fn has_field(input: Seq<u8>, max_allocation: u64) -> bool {
    &&& has_prefixed_bytes(input, max_allocation)
    &&& valid_utf8(prefixed_bytes(input))
    &&& has_chunk(field_chunk(input), max_allocation)
}

/// The name of the field record at the start of `input`.
pub open spec fn field_name(input: Seq<u8>) -> Seq<char> {
    decode_utf8(prefixed_bytes(input))
}

/// The introduction version of the field record at the start of `input`.
pub open spec fn field_version(input: Seq<u8>) -> u32 {
    chunk_version(field_chunk(input))
}

/// The length of the field record at the start of `input`.
pub open spec fn field_len(input: Seq<u8>) -> int {
    8 + length_prefix(input) + 12 + chunk_length(field_chunk(input))
}

/// The positions, relative to the start of `input`, where consecutive field
/// records begin: each record is complete and the next begins right after it.
pub open spec fn field_bounds(input: Seq<u8>, max_allocation: u64, bounds: Seq<int>) -> bool {
    &&& bounds.len() >= 1
    &&& bounds[0] == 0
    &&& forall|i: int|
        0 <= i < bounds.len() - 1 ==> 0 <= #[trigger] bounds[i] <= input.len() && has_field(
            unread_from(input, bounds[i]),
            max_allocation,
        ) && bounds[i + 1] == bounds[i] + field_len(unread_from(input, bounds[i]))
}

/// Two divisions of `input` into consecutive field records agree where both are defined.
proof fn lemma_field_bounds_agree_at(
    input: Seq<u8>,
    max_allocation: u64,
    b1: Seq<int>,
    b2: Seq<int>,
    i: int,
)
    requires
        field_bounds(input, max_allocation, b1),
        field_bounds(input, max_allocation, b2),
        0 <= i < b1.len(),
        i < b2.len(),
    ensures
        b1[i] == b2[i],
    decreases i,
{
    if i > 0 {
        lemma_field_bounds_agree_at(input, max_allocation, b1, b2, i - 1);
        assert(b1[i - 1] == b2[i - 1]);
    }
}

/// Each position of a division into field records lies before the last.
proof fn lemma_field_bounds_below_last(input: Seq<u8>, max_allocation: u64, b: Seq<int>, i: int)
    requires
        field_bounds(input, max_allocation, b),
        0 <= i < b.len() - 1,
    ensures
        b[i] < b.last(),
    decreases b.len() - i,
{
    assert(b[i + 1] == b[i] + field_len(unread_from(input, b[i])));
    if i + 1 < b.len() - 1 {
        lemma_field_bounds_below_last(input, max_allocation, b, i + 1);
    }
}

/// In a valid field list, every position that a partial walk reached before its
/// end is where a complete record begins, of an allowed version, whose name
/// differs from those of the records walked so far.
proof fn lemma_field_list_continues(
    input: Seq<u8>,
    max_allocation: u64,
    struct_version: u32,
    walked: Seq<int>,
)
    requires
        is_field_list(input, max_allocation, struct_version),
        field_bounds(input, max_allocation, walked),
        walked.last() < input.len(),
    ensures
        has_field(unread_from(input, walked.last()), max_allocation),
        field_version(unread_from(input, walked.last())) <= struct_version,
        forall|i: int|
            0 <= i < walked.len() - 1 ==> field_name(unread_from(input, #[trigger] walked[i]))
                != field_name(unread_from(input, walked.last())),
{
    let all = choose|bounds: Seq<int>|
        #[trigger] field_bounds(input, max_allocation, bounds) && bounds.last() == input.len()
            && (forall|i: int|
            0 <= i < bounds.len() - 1 ==> field_version(unread_from(input, #[trigger] bounds[i]))
                <= struct_version) && (forall|i: int, j: int|
            0 <= i < j < bounds.len() - 1 ==> field_name(unread_from(input, #[trigger] bounds[i]))
                != field_name(unread_from(input, #[trigger] bounds[j])));
    let k = walked.len() - 1;
    if all.len() <= walked.len() {
        let j = all.len() - 1;
        lemma_field_bounds_agree_at(input, max_allocation, walked, all, j);
        if j < k {
            lemma_field_bounds_below_last(input, max_allocation, walked, j);
        }
        assert(false);
    }
    lemma_field_bounds_agree_at(input, max_allocation, walked, all, k);
    assert(all[k] == walked.last());
    assert forall|i: int| 0 <= i < walked.len() - 1 implies field_name(
        unread_from(input, #[trigger] walked[i]),
    ) != field_name(unread_from(input, walked.last())) by {
        lemma_field_bounds_agree_at(input, max_allocation, walked, all, i);
        assert(all[i] == walked[i]);
    }
}

/// `input` is nothing but field records, each fitting `max_allocation`, none
/// introduced after `struct_version`, no name stored twice.
pub open spec fn is_field_list(input: Seq<u8>, max_allocation: u64, struct_version: u32) -> bool {
    exists|bounds: Seq<int>|
        #[trigger] field_bounds(input, max_allocation, bounds) && bounds.last() == input.len()
            && (forall|i: int|
            0 <= i < bounds.len() - 1 ==> field_version(unread_from(input, #[trigger] bounds[i]))
                <= struct_version) && (forall|i: int, j: int|
            0 <= i < j < bounds.len() - 1 ==> field_name(unread_from(input, #[trigger] bounds[i]))
                != field_name(unread_from(input, #[trigger] bounds[j])))
}

/// The message of the first malformed record met when walking the field list
/// `list` from `pos`, after records named `seen`: a name that is not UTF-8, a
/// field introduced after `struct_version`, or a name stored twice. None when
/// the walk ends first, or stops at a record that is cut short or over the limit.
pub open spec fn first_field_defect(
    list: Seq<u8>,
    max_allocation: u64,
    struct_version: u32,
    pos: int,
    seen: Seq<Seq<char>>,
) -> Option<Seq<char>>
    decreases list.len() - pos,
{
    if pos < 0 || pos >= list.len() {
        None
    } else {
        let here = list.skip(pos);
        if !has_prefixed_bytes(here, max_allocation) {
            None
        } else if !valid_utf8(prefixed_bytes(here)) {
            Some(invalid_utf8_message(prefixed_bytes(here)))
        } else if !has_chunk(field_chunk(here), max_allocation) {
            None
        } else if field_version(here) > struct_version {
            Some(field_version_message(field_name(here), field_version(here), struct_version))
        } else if seen.contains(field_name(here)) {
            Some(duplicate_field_message(field_name(here)))
        } else {
            first_field_defect(
                list,
                max_allocation,
                struct_version,
                pos + field_len(here),
                seen.push(field_name(here)),
            )
        }
    }
}

/// Where the walk described by `first_field_defect` stops: at the malformed
/// record it reports, or where the walk ends otherwise.
pub open spec fn first_field_defect_at(
    list: Seq<u8>,
    max_allocation: u64,
    struct_version: u32,
    pos: int,
    seen: Seq<Seq<char>>,
) -> int
    decreases list.len() - pos,
{
    if pos < 0 || pos >= list.len() {
        pos
    } else {
        let here = list.skip(pos);
        if !has_prefixed_bytes(here, max_allocation) || !valid_utf8(prefixed_bytes(here))
            || !has_chunk(field_chunk(here), max_allocation) || field_version(here)
            > struct_version || seen.contains(field_name(here)) {
            pos
        } else {
            first_field_defect_at(
                list,
                max_allocation,
                struct_version,
                pos + field_len(here),
                seen.push(field_name(here)),
            )
        }
    }
}

/// The payload of a versioned struct: the field marker, then a field list.
/// The marker is read as an eight-byte buffer, so the limit must allow eight bytes.
pub open spec fn is_versioned_payload(payload: Seq<u8>, max_allocation: u64, struct_version: u32) -> bool {
    &&& 8 <= max_allocation
    &&& payload.len() >= 8
    &&& payload.take(8) == field_marker()
    &&& is_field_list(payload.skip(8), max_allocation, struct_version)
}

/// Some value in `names` has the characters `name`.
fn contains_name(names: &Vec<String>, name: &String) -> (b: bool)
    ensures
        b <==> exists|i: int| 0 <= i < names@.len() && (#[trigger] names@[i])@ == name@,
{
    let mut i: usize = 0;
    while i < names.len()
        invariant
            i <= names@.len(),
            forall|j: int| 0 <= j < i ==> (#[trigger] names@[j])@ != name@,
        decreases names@.len() - i,
    {
        if names[i] == *name {
            return true;
        }
        i = i + 1;
    }
    false
}

/// The bytes are the field marker.
fn is_field_marker(bytes: &Vec<u8>) -> (b: bool)
    requires
        bytes@.len() == 8,
    ensures
        b <==> bytes@ == field_marker(),
{
    let b = bytes[0] == 66 && bytes[1] == 65 && bytes[2] == 82 && bytes[3] == 70 && bytes[4] == 76
        && bytes[5] == 68 && bytes[6] == 48 && bytes[7] == 49;
    if b {
        assert(bytes@ =~= field_marker());
    }
    b
}

/// Builds `"field {name:?} version {version} exceeds stored struct version {struct_version}"`.
fn field_version_error(name: &String, version: u32, struct_version: u32) -> (e: ArchiveError)
    ensures
        is_invalid_data(e, field_version_message(name@, version, struct_version)),
{
    let mut m = String::from_str("field ");
    m.append(quote_debug(name.as_str()).as_str());
    m.append(" version ");
    m.append(decimal_string(version as u64).as_str());
    m.append(" exceeds stored struct version ");
    m.append(decimal_string(struct_version as u64).as_str());
    proof {
        reveal_strlit("field ");
        reveal_strlit(" version ");
        reveal_strlit(" exceeds stored struct version ");
    }
    ArchiveError::InvalidData(m)
}

/// Builds `"duplicate field {name:?}"`.
fn duplicate_field_error(name: &String) -> (e: ArchiveError)
    ensures
        is_invalid_data(e, duplicate_field_message(name@)),
{
    let mut m = String::from_str("duplicate field ");
    m.append(quote_debug(name.as_str()).as_str());
    proof {
        reveal_strlit("duplicate field ");
    }
    ArchiveError::InvalidData(m)
}

/// The field record that starts `at` bytes into `input` was handed to `f`: its
/// name, its introduction version and a reader over its value, and `f`
/// returned `Ok`.
pub open spec fn fields_visited<F: FnMut(&str, u32, &mut ChunkReader) -> ArchiveResult<()>>(
    f: F,
    input: Seq<u8>,
    max_allocation: u64,
    options: DecodeOptions,
    at: int,
) -> bool {
    exists|name: &str, c: &mut ChunkReader, res: ArchiveResult<()>|
        #[trigger] call_ensures(f, (name, field_version(unread_from(input, at)), c), res)
            && res is Ok && name@ == field_name(unread_from(input, at)) && handed_chunk(
            *c,
            field_chunk(unread_from(input, at)),
            max_allocation,
            options,
        )
}

/// `e` reports that a buffer needed while walking a field list could not be allocated.
pub open spec fn is_field_walk_allocation_failure(e: ArchiveError) -> bool {
    ||| is_allocation_failure(e, "array buffer"@)
    ||| is_allocation_failure(e, "string"@)
    ||| is_allocation_failure(e, "chunk payload"@)
    ||| is_allocation_failure(e, "field index"@)
}

impl ChunkReader {
    /// Reads the eight marker bytes, accounting them as an eight-element buffer.
    fn read_marker(&mut self) -> (r: ArchiveResult<Vec<u8>>)
        ensures
            final(self).head() == old(self).head(),
            final(self).payload().same_source(old(self).payload()),
            r matches Ok(m) ==> m@ == old(self).payload().unread().take(8)
                && old(self).payload().unread().len() >= 8 && final(self).payload().advanced(
                old(self).payload(),
                8,
            ),
            collection_bytes(8, 1) > old(self).payload().max_allocation() ==> r is Err,
            old(self).payload().unread().len() < 8 ==> r is Err,
            old(self).payload().unread().len() >= 8 && 8 <= old(self).payload().max_allocation() ==> r is Ok
                || (r matches Err(e) && is_allocation_failure(e, "array buffer"@)),
    {
        broadcast use vstd::layout::layout_of_primitives;

        let count = self.payload.checked_count::<u8>(8)?;
        let mut marker: Vec<u8> = Vec::new();
        if let Err(err) = marker.try_reserve(count) {
            return Err(allocation_failure("array buffer", err));
        }
        self.payload.read_raw(&mut marker, count)?;
        Ok(marker)
    }

    /// Iterates the named fields of a versioned struct, validating their metadata.
    /// Each callback receives a field's name, its introduction version and a reader
    /// bounded to its value. The payload must begin with the field marker, no field
    /// may be introduced after the struct's stored version, no name may repeat,
    /// and the field records must fill the payload exactly.
    pub fn read_versioned_fields<F>(&mut self, f: F) -> (r: ArchiveResult<()>)
        where
            F: FnMut(&str, u32, &mut ChunkReader) -> ArchiveResult<()>,
        requires
            forall|name: &str, version: u32, field: &mut ChunkReader|
                call_requires(f, (name, version, field)),
        ensures
            final(self).head() == old(self).head(),
            final(self).payload().same_source(old(self).payload()),
            r is Ok ==> is_versioned_payload(
                old(self).payload().unread(),
                old(self).payload().max_allocation(),
                old(self).head().version,
            ) && final(self).payload().pos() == final(self).payload().input().len(),
            old(self).payload().unread().len() >= 8 && 8 <= old(self).payload().max_allocation()
                && old(self).payload().unread().take(8) != field_marker() ==> (r matches Err(e)
                && (is_invalid_data(e, missing_marker_message()) || is_allocation_failure(
                e,
                "array buffer"@,
            ))),
            old(self).payload().unread().len() < 8 ==> r is Err,
            old(self).payload().unread().len() >= 8 && 8 <= old(self).payload().max_allocation()
                && old(self).payload().unread().take(8) == field_marker() ==> (first_field_defect(
                old(self).payload().unread().skip(8),
                old(self).payload().max_allocation(),
                old(self).head().version,
                0,
                Seq::<Seq<char>>::empty(),
            ) matches Some(message) ==> r matches Err(e) && ((is_invalid_data(e, message)
                && exists|bounds: Seq<int>|
                #[trigger] field_bounds(
                    old(self).payload().unread().skip(8),
                    old(self).payload().max_allocation(),
                    bounds,
                ) && bounds.last() == first_field_defect_at(
                    old(self).payload().unread().skip(8),
                    old(self).payload().max_allocation(),
                    old(self).head().version,
                    0,
                    Seq::<Seq<char>>::empty(),
                ) && forall|i: int|
                    0 <= i < bounds.len() - 1 ==> fields_visited(
                        f,
                        old(self).payload().unread().skip(8),
                        old(self).payload().max_allocation(),
                        old(self).payload().options(),
                        #[trigger] bounds[i],
                    )) || is_out_of_memory(e) || exists|
                name: &str,
                version: u32,
                field: &mut ChunkReader,
            | #[trigger] call_ensures(f, (name, version, field), r))),
            r is Ok ==> exists|bounds: Seq<int>|
                #[trigger] field_bounds(
                    old(self).payload().unread().skip(8),
                    old(self).payload().max_allocation(),
                    bounds,
                ) && bounds.last() == old(self).payload().unread().skip(8).len() && forall|i: int|
                    0 <= i < bounds.len() - 1 ==> fields_visited(
                        f,
                        old(self).payload().unread().skip(8),
                        old(self).payload().max_allocation(),
                        old(self).payload().options(),
                        #[trigger] bounds[i],
                    ),
            r matches Err(e) ==> !is_versioned_payload(
                old(self).payload().unread(),
                old(self).payload().max_allocation(),
                old(self).head().version,
            ) || is_field_walk_allocation_failure(e) || exists|
                name: &str,
                version: u32,
                field: &mut ChunkReader,
            | #[trigger] call_ensures(f, (name, version, field), r),
    {
        proof {
            old(self).payload().lemma_pos_nonneg();
            reveal_strlit("expected versioned field format; migrate legacy positional data first");
        }
        let marker = self.read_marker()?;
        if !is_field_marker(&marker) {
            return Err(
                ArchiveError::InvalidData(
                    String::from_str(
                        "expected versioned field format; migrate legacy positional data first",
                    ),
                ),
            );
        }
        let ghost start = self.payload();
        let mut callback = f;
        let ghost well_formed = is_versioned_payload(
            old(self).payload().unread(),
            old(self).payload().max_allocation(),
            old(self).head().version,
        );
        let limit = self.payload.limit();
        let mut names: Vec<String> = Vec::new();
        let ghost mut bounds: Seq<int> = seq![0int];
        proof {
            start.lemma_advanced_unread(old(self).payload(), 8);
            assert(old(self).payload().unread().skip(8) == start.unread());
            assert(names@.map_values(|n: String| n@) =~= Seq::<Seq<char>>::empty());
        }
        while self.remaining() != 0
            invariant
                callback == f,
                old(self).payload().unread().skip(8) == start.unread(),
                first_field_defect_at(
                    start.unread(),
                    limit,
                    old(self).head().version,
                    0,
                    Seq::<Seq<char>>::empty(),
                ) == first_field_defect_at(
                    start.unread(),
                    limit,
                    old(self).head().version,
                    bounds.last(),
                    names@.map_values(|n: String| n@),
                ),
                first_field_defect(
                    start.unread(),
                    limit,
                    old(self).head().version,
                    0,
                    Seq::<Seq<char>>::empty(),
                ) == first_field_defect(
                    start.unread(),
                    limit,
                    old(self).head().version,
                    bounds.last(),
                    names@.map_values(|n: String| n@),
                ),
                old(self).payload().unread().len() >= 8,
                old(self).payload().unread().take(8) == field_marker(),
                well_formed == is_versioned_payload(
                    old(self).payload().unread(),
                    old(self).payload().max_allocation(),
                    old(self).head().version,
                ),
                well_formed ==> is_field_list(start.unread(), limit, old(self).head().version),
                self.head() == old(self).head(),
                self.payload().same_source(start),
                start.same_source(old(self).payload()),
                limit == start.max_allocation(),
                start.pos() >= 0,
                start.pos() <= start.input().len(),
                self.payload().pos() >= start.pos(),
                self.payload().pos() <= start.input().len(),
                forall|name: &str, version: u32, field: &mut ChunkReader|
                    call_requires(f, (name, version, field)),
                field_bounds(start.unread(), limit, bounds),
                bounds.last() == self.payload().pos() - start.pos(),
                names@.len() == bounds.len() - 1,
                forall|i: int|
                    0 <= i < names@.len() ==> (#[trigger] names@[i])@ == field_name(
                        unread_from(start.unread(), bounds[i]),
                    ),
                forall|i: int|
                    0 <= i < names@.len() ==> field_version(
                        unread_from(start.unread(), #[trigger] bounds[i]),
                    ) <= self.head().version,
                forall|i: int, j: int|
                    0 <= i < j < names@.len() ==> (#[trigger] names@[i])@ != (#[trigger] names@[j])@,
                forall|i: int|
                    0 <= i < bounds.len() - 1 ==> fields_visited(
                        f,
                        start.unread(),
                        limit,
                        start.options(),
                        #[trigger] bounds[i],
                    ),
            decreases self.spec_remaining(),
        {
            let ghost before = self.payload();
            let ghost b = before.pos() - start.pos();
            proof {
                before.lemma_advanced_unread(start, b);
                if well_formed {
                    lemma_field_list_continues(
                        start.unread(),
                        limit,
                        self.head().version,
                        bounds,
                    );
                }
            }
            proof {
                assert(before.unread() == start.unread().skip(b));
            }
            let name = match String::decode(&mut self.payload) {
                Ok(name) => name,
                Err(e) => {
                    proof {
                        if has_prefixed_bytes(before.unread(), limit) {
                            assert(is_allocation_failure(e, "string"@) || is_invalid_data(
                                e,
                                invalid_utf8_message(prefixed_bytes(before.unread())),
                            ));
                        }
                    }
                    return Err(e);
                },
            };
            let ghost named = self.payload();
            proof {
                named.lemma_advanced_unread(before, 8 + length_prefix(before.unread()));
            }
            let mut field = match self.payload.read_chunk() {
                Ok(field) => field,
                Err(e) => {
                    proof {
                        if has_chunk(field_chunk(before.unread()), limit) {
                            assert(named.unread() == field_chunk(before.unread()));
                            assert(is_allocation_failure(e, "chunk payload"@));
                        }
                    }
                    return Err(e);
                },
            };
            let version = field.header().version;
            if version > self.header.version {
                return Err(field_version_error(&name, version, self.header.version));
            }
            if let Err(err) = names.try_reserve(1) {
                return Err(allocation_failure("field index", err));
            }
            if contains_name(&names, &name) {
                proof {
                    let i = choose|i: int| 0 <= i < names@.len() && (#[trigger] names@[i])@ == name@;
                    assert(names@.map_values(|n: String| n@)[i] == name@);
                }
                return Err(duplicate_field_error(&name));
            }
            let ghost old_names = names@;
            names.push(name.clone());
            let ghost handed = field;
            let name_str = name.as_str();
            let outcome = callback(name_str, version, &mut field);
            self.payload.absorb_warnings(&mut field);
            if outcome.is_err() {
                return outcome;
            }
            proof {
                let old_bounds = bounds;
                let here = unread_from(start.unread(), b);
                assert(here == before.unread());
                assert(named.unread() == field_chunk(here));
                assert(has_field(here, limit));
                assert(handed_chunk(handed, field_chunk(here), limit, start.options()));
                assert(name_str@ == field_name(here));
                assert(version == field_version(here));
                assert(fields_visited(f, start.unread(), limit, start.options(), b));
                let seen = old_names.map_values(|n: String| n@);
                assert(!seen.contains(field_name(here))) by {
                    if seen.contains(field_name(here)) {
                        let i = choose|i: int| 0 <= i < seen.len() && seen[i] == field_name(here);
                        assert(old_names[i]@ == name@);
                    }
                }
                assert(names@.map_values(|n: String| n@) =~= seen.push(field_name(here)));
                assert(here == start.unread().skip(b));
                assert(first_field_defect_at(start.unread(), limit, old(self).head().version, b, seen)
                    == first_field_defect_at(
                    start.unread(),
                    limit,
                    old(self).head().version,
                    b + field_len(here),
                    seen.push(field_name(here)),
                ));
                assert(first_field_defect(start.unread(), limit, old(self).head().version, b, seen)
                    == first_field_defect(
                    start.unread(),
                    limit,
                    old(self).head().version,
                    b + field_len(here),
                    seen.push(field_name(here)),
                ));
                bounds = bounds.push(self.payload().pos() - start.pos());
                assert forall|i: int| 0 <= i < bounds.len() - 1 implies 0 <= #[trigger] bounds[i]
                    <= start.unread().len() && has_field(
                    unread_from(start.unread(), bounds[i]),
                    limit,
                ) && bounds[i + 1] == bounds[i] + field_len(
                    unread_from(start.unread(), bounds[i]),
                ) by {
                    if i < old_bounds.len() - 1 {
                        assert(bounds[i] == old_bounds[i]);
                        assert(bounds[i + 1] == old_bounds[i + 1]);
                    } else {
                        assert(bounds[i] == b);
                    }
                }
                assert forall|i: int| 0 <= i < names@.len() implies (#[trigger] names@[i])@
                    == field_name(unread_from(start.unread(), bounds[i])) by {
                    if i < old_names.len() {
                        assert(names@[i] == old_names[i]);
                        assert(bounds[i] == old_bounds[i]);
                    }
                }
                assert forall|i: int| 0 <= i < names@.len() implies field_version(
                    unread_from(start.unread(), #[trigger] bounds[i]),
                ) <= self.head().version by {
                    if i < old_names.len() {
                        assert(bounds[i] == old_bounds[i]);
                    }
                }
                assert forall|i: int| 0 <= i < bounds.len() - 1 implies fields_visited(
                    f,
                    start.unread(),
                    limit,
                    start.options(),
                    #[trigger] bounds[i],
                ) by {
                    if i < old_bounds.len() - 1 {
                        assert(bounds[i] == old_bounds[i]);
                    } else {
                        assert(bounds[i] == b);
                    }
                }
                assert forall|i: int, j: int| 0 <= i < j < names@.len() implies (
                #[trigger] names@[i])@ != (#[trigger] names@[j])@ by {
                    if j < old_names.len() {
                        assert(names@[i] == old_names[i]);
                        assert(names@[j] == old_names[j]);
                    } else {
                        assert(names@[i] == old_names[i]);
                    }
                }
            }
        }
        proof {
            let list = start.unread();
            assert(bounds.last() == list.len());
            assert(old(self).payload().unread().skip(8) == list);
            assert forall|i: int| 0 <= i < bounds.len() - 1 implies field_version(
                unread_from(list, #[trigger] bounds[i]),
            ) <= old(self).head().version by {
                assert(names@[i]@ == field_name(unread_from(list, bounds[i])));
            }
            assert forall|i: int, j: int| 0 <= i < j < bounds.len() - 1 implies field_name(
                unread_from(list, #[trigger] bounds[i]),
            ) != field_name(unread_from(list, #[trigger] bounds[j])) by {
                assert(names@[i]@ == field_name(unread_from(list, bounds[i])));
                assert(names@[j]@ == field_name(unread_from(list, bounds[j])));
            }
            assert(is_field_list(list, limit, old(self).head().version));
        }
        self.finish()
    }
}

} // verus!
