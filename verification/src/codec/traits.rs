use crate::archive::policy::DecodeOptions;
use crate::archive::reader::{is_out_of_memory, unread_from, ArchiveReader};
use crate::archive::writer::ArchiveWriter;
use crate::error::ArchiveResult;
use vstd::prelude::*;

verus! {

/// A value that can be written into an archive.
pub trait BinaryEncode {
    /// Whether this codec states what it writes: its bytes (`spec_encoding`)
    /// and when it succeeds (`spec_encode_ok`). A codec that keeps this default
    /// states nothing, and the other two functions say nothing about it.
    open spec fn spec_encoding_stated() -> bool {
        false
    }

    /// The bytes that encoding this value writes at the writer's position;
    /// meaningful only for a codec that states its encoding.
    open spec fn spec_encoding(&self) -> Seq<u8> {
        Seq::empty()
    }

    /// Whether encoding this value at write position `pos` succeeds. A codec
    /// that states its encoding and fails only when its bytes would end past
    /// the largest possible buffer keeps this default.
    open spec fn spec_encode_ok(&self, pos: int) -> bool {
        pos + self.spec_encoding().len() <= usize::MAX
    }

    fn encode(&self, writer: &mut ArchiveWriter) -> (r: ArchiveResult<()>)
        ensures
            Self::spec_encoding_stated() ==> (r is Ok <==> self.spec_encode_ok(old(writer).pos())),
            Self::spec_encoding_stated() && r is Ok ==> final(writer).wrote(
                *old(writer),
                self.spec_encoding(),
            ),
    ;
}

/// A value that can be read from an archive.
pub trait BinaryDecode: Sized {
    /// The first `consumed` bytes of `input` decode to `value` for a reader
    /// with allocation limit `max_allocation` and settings `options`. A codec
    /// that keeps this default states nothing of what it decodes.
    open spec fn spec_decodes(
        input: Seq<u8>,
        max_allocation: u64,
        options: DecodeOptions,
        value: Self,
        consumed: int,
    ) -> bool {
        true
    }

    /// Inputs from which decoding is owed to succeed, unless a buffer cannot be
    /// allocated. A codec that keeps this default owes nothing.
    open spec fn spec_decode_owed(
        input: Seq<u8>,
        max_allocation: u64,
        options: DecodeOptions,
    ) -> bool {
        false
    }

    /// What decoding from `input` returns, as far as this codec states it:
    /// which outcome comes on which input. A codec that keeps this default
    /// states nothing beyond the other clauses of `decode`.
    open spec fn spec_decode_result(
        input: Seq<u8>,
        max_allocation: u64,
        options: DecodeOptions,
        r: ArchiveResult<Self>,
    ) -> bool {
        true
    }

    /// The warnings that decoding from `input` records, oldest first, when
    /// this codec states them. A codec that keeps this default states nothing.
    open spec fn spec_decode_warnings(
        input: Seq<u8>,
        max_allocation: u64,
        options: DecodeOptions,
    ) -> Option<Seq<Seq<char>>> {
        None
    }

    fn decode(reader: &mut ArchiveReader) -> (r: ArchiveResult<Self>)
        ensures
            Self::spec_decode_warnings(
                old(reader).unread(),
                old(reader).max_allocation(),
                old(reader).options(),
            ) matches Some(w) ==> final(reader).warning_log() == old(reader).warning_log() + w,
            Self::spec_decode_result(
                old(reader).unread(),
                old(reader).max_allocation(),
                old(reader).options(),
                r,
            ),
            Self::spec_decode_owed(
                old(reader).unread(),
                old(reader).max_allocation(),
                old(reader).options(),
            ) ==> r is Ok || (r matches Err(e) && is_out_of_memory(e)),
            final(reader).same_source(*old(reader)),
            r is Ok ==> final(reader).pos() >= old(reader).pos(),
            r matches Ok(v) ==> Self::spec_decodes(
                old(reader).unread(),
                old(reader).max_allocation(),
                old(reader).options(),
                v,
                final(reader).pos() - old(reader).pos(),
            ),
    ;
}

/// The encodings of `values`, one after another.
pub open spec fn concat_encodings<T: BinaryEncode>(values: Seq<T>) -> Seq<u8>
    decreases values.len(),
{
    if values.len() == 0 {
        Seq::<u8>::empty()
    } else {
        concat_encodings(values.drop_last()) + values.last().spec_encoding()
    }
}

/// Encoding `values` one after another from write position `pos` succeeds for
/// each of them, each starting where the encodings before it end.
pub open spec fn encodes_ok_from<T: BinaryEncode>(values: Seq<T>, pos: int) -> bool {
    forall|i: int|
        0 <= i < values.len() ==> #[trigger] values[i].spec_encode_ok(
            pos + concat_encodings(values.take(i)).len(),
        )
}

/// Decoding `count` values one after another from `input` is owed to succeed,
/// allocation aside: the first is owed, and so are the rest after whatever the
/// first may decode to.
pub open spec fn decode_owed_seq<T: BinaryDecode>(
    input: Seq<u8>,
    max_allocation: u64,
    options: DecodeOptions,
    count: nat,
) -> bool
    decreases count,
{
    if count == 0 {
        true
    } else {
        &&& T::spec_decode_owed(input, max_allocation, options)
        &&& forall|value: T, consumed: int|
            #[trigger] T::spec_decodes(input, max_allocation, options, value, consumed)
                ==> decode_owed_seq::<T>(
                unread_from(input, consumed),
                max_allocation,
                options,
                (count - 1) as nat,
            )
    }
}

/// Where the value after the first `i` of a sequence starts, given where each value ends.
pub open spec fn seq_start(ends: Seq<int>, i: int) -> int {
    if i == 0 {
        0
    } else {
        ends[i - 1]
    }
}

/// `values[i]` decodes from `input` between `seq_start(ends, i)` and `ends[i]`.
pub open spec fn decodes_at<T: BinaryDecode>(
    input: Seq<u8>,
    max_allocation: u64,
    options: DecodeOptions,
    values: Seq<T>,
    ends: Seq<int>,
) -> bool {
    &&& ends.len() == values.len()
    &&& forall|i: int|
        0 <= i < values.len() ==> 0 <= seq_start(ends, i) <= #[trigger] ends[i] && T::spec_decodes(
            unread_from(input, seq_start(ends, i)),
            max_allocation,
            options,
            values[i],
            ends[i] - seq_start(ends, i),
        )
}

/// The first `consumed` bytes of `input` decode to `values`, one after another.
pub open spec fn decodes_seq<T: BinaryDecode>(
    input: Seq<u8>,
    max_allocation: u64,
    options: DecodeOptions,
    values: Seq<T>,
    consumed: int,
) -> bool {
    exists|ends: Seq<int>|
        #[trigger] decodes_at(input, max_allocation, options, values, ends) && consumed == seq_start(
            ends,
            values.len() as int,
        )
}

} // verus!
