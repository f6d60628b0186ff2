use crate::archive::policy::{DecodeOptions, DeletedFieldPolicy};
use crate::codec::impls::{has_prefixed_bytes, length_prefix, prefixed_bytes};
use crate::codec::traits::BinaryDecode;
use crate::error::{
    is_io, is_invalid_data, is_limit_exceeded, ArchiveError, ArchiveResult, IoError, IoErrorKind,
};
use crate::{last_segment, short_type_name};
use vstd::prelude::*;
use vstd::string::*;
use vstd::utf8::*;

verus! {

/// The allocation limit a new reader starts with: 64 MiB.
pub const DEFAULT_MAX_ALLOCATION: u64 = 67108864;

/// The bytes of `input` from `pos` on; none when `pos` is past the end.
pub open spec fn unread_from(input: Seq<u8>, pos: int) -> Seq<u8> {
    if 0 <= pos <= input.len() {
        input.skip(pos)
    } else {
        Seq::<u8>::empty()
    }
}

/// Skipping `k` bytes of what is left after `p` leaves what is left after `p + k`.
pub proof fn lemma_unread_from_unread(input: Seq<u8>, p: int, k: int)
    requires
        p >= 0,
        k >= 0,
    ensures
        unread_from(unread_from(input, p), k) == unread_from(input, p + k),
{
    if p <= input.len() && p + k <= input.len() {
        assert(input.skip(p).skip(k) =~= input.skip(p + k));
    }
}

/// The number of bytes a collection of `count` elements of `size` bytes each
/// is accounted as: zero-sized elements count as one byte.
pub open spec fn collection_bytes(count: int, size: int) -> int {
    count * if size == 0 {
        1
    } else {
        size
    }
}

/// The text `"cannot allocate {kind}: "`, which precedes the allocator's own message.
pub open spec fn cannot_allocate_prefix(kind: Seq<char>) -> Seq<char> {
    "cannot allocate "@ + kind + ": "@
}

/// `e` reports that a buffer for `kind` could not be allocated: its message is
/// the prefix for `kind` followed by the text of the allocator's error.
pub open spec fn is_allocation_failure(e: ArchiveError, kind: Seq<char>) -> bool {
    e matches ArchiveError::InvalidData(m) && exists|
        err: std::collections::TryReserveError,
        detail: String,
    |
        #[trigger] to_string_from_display_ensures::<std::collections::TryReserveError>(
            &err,
            detail,
        ) && m@ == cannot_allocate_prefix(kind) + detail@
}

/// `e` reports that some buffer could not be allocated.
pub open spec fn is_out_of_memory(e: ArchiveError) -> bool {
    exists|kind: Seq<char>| #[trigger] is_allocation_failure(e, kind)
}

/// Builds the message of an allocation failure.
pub(crate) fn allocation_failure(kind: &str, err: std::collections::TryReserveError) -> (e:
    ArchiveError)
    ensures
        is_allocation_failure(e, kind@),
{
    let mut m = String::from_str("cannot allocate ");
    m.append(kind);
    m.append(": ");
    proof {
        reveal_strlit("cannot allocate ");
        reveal_strlit(": ");
    }
    let detail = err.to_string();
    m.append(detail.as_str());
    assert(m@ == cannot_allocate_prefix(kind@) + detail@);
    ArchiveError::InvalidData(m)
}

/// A seekable in-memory input stream that archives are read from.
pub struct ArchiveReader {
    data: Vec<u8>,
    pos: u64,
    max_allocation: u64,
    options: DecodeOptions,
    warnings: Vec<String>,
}

impl ArchiveReader {
    /// All bytes of the stream.
    pub closed spec fn input(&self) -> Seq<u8> {
        self.data@
    }

    /// The current read position; it may lie past the end after a seek.
    pub closed spec fn pos(&self) -> int {
        self.pos as int
    }

    /// The position is never negative.
    pub proof fn lemma_pos_nonneg(&self)
        ensures
            self.pos() >= 0,
    {
    }

    /// After moving `n` bytes forward, the bytes left are those left before with `n` skipped.
    pub proof fn lemma_advanced_unread(&self, before: ArchiveReader, n: int)
        requires
            self.same_source(before),
            self.pos() == before.pos() + n,
            n >= 0,
        ensures
            self.unread() == unread_from(before.unread(), n),
    {
        lemma_unread_from_unread(before.input(), before.pos(), n);
    }

    /// The largest number of bytes one buffer may allocate.
    pub closed spec fn max_allocation(&self) -> u64 {
        self.max_allocation
    }

    /// The settings that nested readers inherit.
    pub closed spec fn options(&self) -> DecodeOptions {
        self.options
    }

    /// The warnings recorded so far, oldest first.
    pub closed spec fn warning_log(&self) -> Seq<Seq<char>> {
        self.warnings@.map_values(|w: String| w@)
    }

    /// The bytes not yet read.
    pub open spec fn unread(&self) -> Seq<u8> {
        unread_from(self.input(), self.pos())
    }

    /// `self` reads the same bytes as `other`, with the same limit and options.
    pub open spec fn same_source(&self, other: ArchiveReader) -> bool {
        &&& self.input() == other.input()
        &&& self.max_allocation() == other.max_allocation()
        &&& self.options() == other.options()
    }

    /// `self` is `before` with the position moved by `n` bytes and nothing else changed.
    pub open spec fn advanced(&self, before: ArchiveReader, n: int) -> bool {
        &&& self.same_source(before)
        &&& self.warning_log() == before.warning_log()
        &&& self.pos() == before.pos() + n
    }

    /// `self` is `before` after a failed read that ran into the end of the stream.
    pub open spec fn hit_end(&self, before: ArchiveReader) -> bool {
        &&& self.same_source(before)
        &&& self.warning_log() == before.warning_log()
        &&& self.pos() == before.input().len()
    }

    /// Wraps a buffer; reading starts at its beginning with the default limit and options.
    pub fn new(inner: Vec<u8>) -> (r: Self)
        ensures
            r.input() == inner@,
            r.pos() == 0,
            r.max_allocation() == DEFAULT_MAX_ALLOCATION,
            r.options().deleted_fields == DeletedFieldPolicy::Warn,
            r.warning_log() == Seq::<Seq<char>>::empty(),
    {
        let r = ArchiveReader {
            data: inner,
            pos: 0,
            max_allocation: DEFAULT_MAX_ALLOCATION,
            options: DecodeOptions { deleted_fields: DeletedFieldPolicy::Warn },
            warnings: Vec::new(),
        };
        assert(r.warning_log() =~= Seq::<Seq<char>>::empty());
        r
    }

    /// A reader over `inner` with the given limit and options.
    pub(crate) fn nested(inner: Vec<u8>, max_allocation: u64, options: DecodeOptions) -> (r: Self)
        ensures
            r.input() == inner@,
            r.pos() == 0,
            r.max_allocation() == max_allocation,
            r.options() == options,
            r.warning_log() == Seq::<Seq<char>>::empty(),
    {
        let r = ArchiveReader { data: inner, pos: 0, max_allocation, options, warnings: Vec::new() };
        assert(r.warning_log() =~= Seq::<Seq<char>>::empty());
        r
    }

    /// Sets the maximum number of bytes a single buffer may allocate.
    /// Nested chunk readers inherit this limit. This is not a total-memory budget.
    pub fn with_max_allocation(self, max_bytes: u64) -> (r: Self)
        ensures
            r.input() == self.input(),
            r.pos() == self.pos(),
            r.max_allocation() == max_bytes,
            r.options() == self.options(),
            r.warning_log() == self.warning_log(),
    {
        ArchiveReader { max_allocation: max_bytes, ..self }
    }

    /// Sets the handling of deleted fields in versioned structs, including nested values.
    pub fn with_deleted_field_policy(self, policy: DeletedFieldPolicy) -> (r: Self)
        ensures
            r.input() == self.input(),
            r.pos() == self.pos(),
            r.max_allocation() == self.max_allocation(),
            r.options().deleted_fields == policy,
            r.warning_log() == self.warning_log(),
    {
        ArchiveReader { options: DecodeOptions { deleted_fields: policy }, ..self }
    }

    /// The warnings recorded so far, oldest first.
    pub fn warnings(&self) -> (w: &Vec<String>)
        ensures
            w@.map_values(|s: String| s@) == self.warning_log(),
    {
        &self.warnings
    }

    /// Removes and returns the recorded warnings.
    pub fn take_warnings(&mut self) -> (w: Vec<String>)
        ensures
            w@.map_values(|s: String| s@) == old(self).warning_log(),
            final(self).warning_log() == Seq::<Seq<char>>::empty(),
            final(self).same_source(*old(self)),
            final(self).pos() == old(self).pos(),
    {
        let mut w: Vec<String> = Vec::new();
        std::mem::swap(&mut w, &mut self.warnings);
        assert(self.warning_log() =~= Seq::<Seq<char>>::empty());
        w
    }

    /// Records one warning.
    pub(crate) fn warn(&mut self, message: String)
        ensures
            final(self).warning_log() == old(self).warning_log().push(message@),
            final(self).same_source(*old(self)),
            final(self).pos() == old(self).pos(),
    {
        self.warnings.push(message);
        assert(self.warning_log() =~= old(self).warning_log().push(message@));
    }

    /// Appends warnings recorded elsewhere, keeping their order.
    pub(crate) fn append_warnings(&mut self, other: &mut Vec<String>)
        ensures
            final(self).warning_log() == old(self).warning_log() + old(other)@.map_values(|s: String| s@),
            final(self).same_source(*old(self)),
            final(self).pos() == old(self).pos(),
            final(other)@ == Seq::<String>::empty(),
    {
        self.warnings.append(other);
        assert(self.warning_log() =~= old(self).warning_log() + old(other)@.map_values(|s: String| s@));
    }

    /// The current position.
    pub(crate) fn pos_u64(&self) -> (p: u64)
        ensures
            p == self.pos(),
    {
        self.pos
    }

    /// The length of the stream.
    pub(crate) fn len_u64(&self) -> (n: u64)
        ensures
            n == self.input().len(),
    {
        self.data.len() as u64
    }

    /// The allocation limit.
    pub(crate) fn limit(&self) -> (l: u64)
        ensures
            l == self.max_allocation(),
    {
        self.max_allocation
    }

    /// The settings that nested readers inherit.
    pub(crate) fn decode_options(&self) -> (o: DecodeOptions)
        ensures
            o == self.options(),
    {
        self.options
    }

    /// Applies the deleted-field policy to `message`: a warning is recorded,
    /// or the message becomes an `InvalidData` error.
    pub(crate) fn deleted_field(&mut self, message: String) -> (r: ArchiveResult<()>)
        requires
            old(self).options().deleted_fields != DeletedFieldPolicy::Panic,
        ensures
            final(self).same_source(*old(self)),
            final(self).pos() == old(self).pos(),
            old(self).options().deleted_fields == DeletedFieldPolicy::Warn ==> r is Ok
                && final(self).warning_log() == old(self).warning_log().push(message@),
            old(self).options().deleted_fields == DeletedFieldPolicy::Error ==> (r matches Err(e)
                && is_invalid_data(e, message@)) && final(self).warning_log()
                == old(self).warning_log(),
    {
        match self.options.deleted_fields {
            DeletedFieldPolicy::Warn => {
                self.warn(message);
                Ok(())
            },
            _ => Err(ArchiveError::InvalidData(message)),
        }
    }

    /// Converts a length to `usize` after checking it against the allocation limit.
    pub(crate) fn checked_length(&self, length: u64, kind: &'static str) -> (r: ArchiveResult<usize>)
        ensures
            length > self.max_allocation() ==> (r matches Err(e) && is_limit_exceeded(
                e,
                kind@,
                length,
                self.max_allocation(),
            )),
            length <= self.max_allocation() && length > usize::MAX ==> (r matches Err(
                ArchiveError::LengthOverflow { length: l },
            ) && l == length),
            length <= self.max_allocation() && length <= usize::MAX ==> r == Ok::<usize, ArchiveError>(
                length as usize,
            ),
    {
        if length > self.max_allocation {
            return Err(
                ArchiveError::LimitExceeded { kind, value: length, limit: self.max_allocation },
            );
        }
        if length > usize::MAX as u64 {
            return Err(ArchiveError::LengthOverflow { length });
        }
        Ok(length as usize)
    }

    /// Decodes one value.
    pub fn read<T: BinaryDecode>(&mut self) -> (r: ArchiveResult<T>)
        ensures
            T::spec_decode_warnings(old(self).unread(), old(self).max_allocation(), old(self).options())
                matches Some(w) ==> final(self).warning_log() == old(self).warning_log() + w,
            T::spec_decode_result(old(self).unread(), old(self).max_allocation(), old(self).options(), r),
            T::spec_decode_owed(old(self).unread(), old(self).max_allocation(), old(self).options())
                ==> r is Ok || (r matches Err(e) && is_out_of_memory(e)),
            final(self).same_source(*old(self)),
            r is Ok ==> final(self).pos() >= old(self).pos(),
            r matches Ok(v) ==> T::spec_decodes(
                old(self).unread(),
                old(self).max_allocation(),
                old(self).options(),
                v,
                final(self).pos() - old(self).pos(),
            ),
    {
        T::decode(self)
    }

    /// Reads a string, requires it to be the short name of the type with path
    /// `type_path` (its text after the last `::`), then decodes the value.
    pub fn read_named<T: BinaryDecode>(&mut self, type_path: &str) -> (r: ArchiveResult<T>)
        ensures
            final(self).same_source(*old(self)),
            has_prefixed_bytes(old(self).unread(), old(self).max_allocation()) && valid_utf8(
                prefixed_bytes(old(self).unread()),
            ) && decode_utf8(prefixed_bytes(old(self).unread())) != last_segment(type_path@) ==> (r matches Err(
                ArchiveError::InvalidMagic { expected, actual },
            ) && expected@ == last_segment(type_path@) && actual@ == decode_utf8(
                prefixed_bytes(old(self).unread()),
            ) && final(self).advanced(*old(self), 8 + length_prefix(old(self).unread()))) || (r matches Err(e)
                && is_allocation_failure(e, "string"@)),
            has_prefixed_bytes(old(self).unread(), old(self).max_allocation()) && valid_utf8(
                prefixed_bytes(old(self).unread()),
            ) && decode_utf8(prefixed_bytes(old(self).unread())) == last_segment(type_path@)
                && T::spec_decode_owed(
                old(self).unread().skip(8 + length_prefix(old(self).unread())),
                old(self).max_allocation(),
                old(self).options(),
            ) ==> r is Ok || (r matches Err(e) && is_out_of_memory(e)),
            r matches Ok(v) ==> {
                let n = 8 + length_prefix(old(self).unread());
                &&& has_prefixed_bytes(old(self).unread(), old(self).max_allocation())
                &&& valid_utf8(prefixed_bytes(old(self).unread()))
                &&& decode_utf8(prefixed_bytes(old(self).unread())) == last_segment(type_path@)
                &&& final(self).pos() >= old(self).pos() + n
                &&& T::spec_decodes(
                    old(self).unread().skip(n),
                    old(self).max_allocation(),
                    old(self).options(),
                    v,
                    final(self).pos() - old(self).pos() - n,
                )
            },
    {
        proof {
            old(self).lemma_pos_nonneg();
        }
        let actual = match String::decode(self) {
            Ok(actual) => actual,
            Err(e) => {
                return Err(e);
            },
        };
        let ghost named = *self;
        proof {
            named.lemma_advanced_unread(*old(self), 8 + length_prefix(old(self).unread()));
        }
        let expected = String::from_str(short_type_name(type_path));
        if !(actual == expected) {
            return Err(ArchiveError::InvalidMagic { expected, actual });
        }
        self.read::<T>()
    }

    /// The current position.
    pub fn position(&mut self) -> (r: ArchiveResult<u64>)
        ensures
            r matches Ok(p) && p == old(self).pos(),
            *final(self) == *old(self),
    {
        Ok(self.pos)
    }

    /// The length of the stream.
    pub(crate) fn end_position(&mut self) -> (r: ArchiveResult<u64>)
        ensures
            r matches Ok(e) && e == old(self).input().len(),
            *final(self) == *old(self),
    {
        Ok(self.data.len() as u64)
    }

    /// Moves the position; it may lie past the end.
    pub fn seek(&mut self, position: u64) -> (r: ArchiveResult<()>)
        ensures
            r is Ok,
            final(self).same_source(*old(self)),
            final(self).warning_log() == old(self).warning_log(),
            final(self).pos() == position,
    {
        self.pos = position;
        Ok(())
    }

    /// Moves the position forward by `length` bytes.
    pub fn skip(&mut self, length: u64) -> (r: ArchiveResult<()>)
        ensures
            old(self).pos() + length <= u64::MAX ==> r is Ok && final(self).advanced(
                *old(self),
                length as int,
            ),
            old(self).pos() + length > u64::MAX ==> (r matches Err(e) && is_invalid_data(
                e,
                "seek position overflow"@,
            ) && *final(self) == *old(self)),
    {
        proof {
            reveal_strlit("seek position overflow");
        }
        match self.pos.checked_add(length) {
            Some(position) => self.seek(position),
            None => Err(ArchiveError::InvalidData(String::from_str("seek position overflow"))),
        }
    }

    /// Appends the next `length` bytes to `out`.
    pub(crate) fn read_raw(&mut self, out: &mut Vec<u8>, length: usize) -> (r: ArchiveResult<()>)
        ensures
            length <= old(self).unread().len() ==> r is Ok && final(self).advanced(
                *old(self),
                length as int,
            ) && final(out)@ == old(out)@ + old(self).unread().take(length as int),
            length > old(self).unread().len() ==> (r matches Err(e) && is_io(
                e,
                IoErrorKind::UnexpectedEof,
            ) && final(self).hit_end(*old(self)) && final(out)@ == old(out)@),
    {
        let len = self.data.len();
        let available: usize = if self.pos > len as u64 {
            0
        } else {
            len - self.pos as usize
        };
        if length > available {
            self.pos = len as u64;
            return Err(ArchiveError::Io(IoError::unexpected_eof()));
        }
        if length == 0 {
            assert(out@ =~= old(out)@ + self.unread().take(0));
            return Ok(());
        }
        let start = self.pos as usize;
        let ghost old_out = out@;
        let mut i: usize = 0;
        while i < length
            invariant
                start + length <= len,
                len == self.data@.len(),
                i <= length,
                out@ =~= old_out + self.data@.subrange(start as int, start + i),
            decreases length - i,
        {
            out.push(self.data[start + i]);
            i = i + 1;
            assert(out@ =~= old_out + self.data@.subrange(start as int, start + i));
        }
        assert(self.data@.subrange(start as int, start + length) =~= self.unread().take(
            length as int,
        ));
        self.pos = (start + length) as u64;
        Ok(())
    }

    /// Reads `length` bytes into a new buffer after checking the allocation limit.
    pub(crate) fn read_bytes(&mut self, length: u64, kind: &'static str) -> (r: ArchiveResult<Vec<u8>>)
        ensures
            length > old(self).max_allocation() ==> (r matches Err(e) && is_limit_exceeded(
                e,
                kind@,
                length,
                old(self).max_allocation(),
            ) && *final(self) == *old(self)),
            length <= old(self).max_allocation() && length > usize::MAX ==> (r matches Err(
                ArchiveError::LengthOverflow { length: l },
            ) && l == length && *final(self) == *old(self)),
            length <= old(self).max_allocation() && length > old(self).unread().len() ==> r is Err,
            r matches Ok(v) ==> length <= old(self).max_allocation() && length <= old(self).unread().len()
                && v@ == old(self).unread().take(length as int) && final(self).advanced(
                *old(self),
                length as int,
            ),
            r matches Err(e) ==> {
                ||| length > old(self).max_allocation() || length > usize::MAX
                ||| is_allocation_failure(e, kind@) && *final(self) == *old(self)
                ||| length > old(self).unread().len() && is_io(e, IoErrorKind::UnexpectedEof)
                    && final(self).hit_end(*old(self))
            },
    {
        let size = self.checked_length(length, kind)?;
        let mut bytes: Vec<u8> = Vec::new();
        if let Err(err) = bytes.try_reserve(size) {
            return Err(allocation_failure(kind, err));
        }
        self.read_raw(&mut bytes, size)?;
        Ok(bytes)
    }

    /// Converts an element count after checking the memory it accounts for against the limit.
    pub(crate) fn checked_count<T>(&self, count: u64) -> (r: ArchiveResult<usize>)
        ensures
            collection_bytes(count as int, vstd::layout::size_of::<T>() as int) > u64::MAX ==> (r matches Err(
                ArchiveError::LengthOverflow { length: l },
            ) && l == count),
            collection_bytes(count as int, vstd::layout::size_of::<T>() as int) <= u64::MAX
                && collection_bytes(count as int, vstd::layout::size_of::<T>() as int)
                > self.max_allocation() ==> (r matches Err(e) && is_limit_exceeded(
                e,
                "collection allocation"@,
                collection_bytes(count as int, vstd::layout::size_of::<T>() as int) as u64,
                self.max_allocation(),
            )),
            collection_bytes(count as int, vstd::layout::size_of::<T>() as int)
                <= self.max_allocation() && collection_bytes(
                count as int,
                vstd::layout::size_of::<T>() as int,
            ) > usize::MAX ==> (r matches Err(ArchiveError::LengthOverflow { length: l })
                && l == collection_bytes(count as int, vstd::layout::size_of::<T>() as int)),
            collection_bytes(count as int, vstd::layout::size_of::<T>() as int)
                <= self.max_allocation() && collection_bytes(
                count as int,
                vstd::layout::size_of::<T>() as int,
            ) <= usize::MAX ==> r == Ok::<usize, ArchiveError>(count as usize),
            r matches Ok(n) ==> n == count,
    {
        proof {
            reveal_strlit("collection allocation");
        }
        let element = std::mem::size_of::<T>();
        let size: u64 = if element == 0 {
            1
        } else {
            element as u64
        };
        let bytes = match count.checked_mul(size) {
            Some(bytes) => bytes,
            None => return Err(ArchiveError::LengthOverflow { length: count }),
        };
        self.checked_length(bytes, "collection allocation")?;
        assert(count <= bytes) by (nonlinear_arith)
            requires
                size >= 1,
                bytes == count * size,
        ;
        if count > usize::MAX as u64 {
            return Err(ArchiveError::LengthOverflow { length: count });
        }
        Ok(count as usize)
    }
}

} // verus!
