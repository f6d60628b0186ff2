use crate::codec::impls::str_encoding;
use crate::codec::traits::BinaryEncode;
use crate::error::{ArchiveError, ArchiveResult, IoError, IoErrorKind};
use crate::{last_segment, short_type_name};
use vstd::prelude::*;

verus! {

/// `buf` with zero bytes appended until it is at least `len` long.
pub open spec fn pad_to(buf: Seq<u8>, len: int) -> Seq<u8> {
    if len > buf.len() {
        buf + Seq::new((len - buf.len()) as nat, |i: int| 0u8)
    } else {
        buf
    }
}

/// The buffer after writing `data` at `pos`: a gap before `pos` is zero-filled,
/// existing bytes under `data` are overwritten, later bytes are kept.
/// Writing nothing changes nothing, wherever the position lies.
pub open spec fn write_at(buf: Seq<u8>, pos: int, data: Seq<u8>) -> Seq<u8> {
    if data.len() == 0 {
        buf
    } else {
        let padded = pad_to(buf, pos);
        let end = pos + data.len();
        padded.take(pos) + data + if end < padded.len() {
            padded.skip(end)
        } else {
            Seq::<u8>::empty()
        }
    }
}

/// Writing `d1` and then `d2` right after it is writing `d1 + d2`.
pub proof fn lemma_write_at_concat(buf: Seq<u8>, pos: int, d1: Seq<u8>, d2: Seq<u8>)
    requires
        pos >= 0,
    ensures
        write_at(write_at(buf, pos, d1), pos + d1.len(), d2) == write_at(buf, pos, d1 + d2),
{
    if d1.len() == 0 {
        assert(d1 + d2 =~= d2);
        return;
    }
    if d2.len() == 0 {
        assert(d1 + d2 =~= d1);
        return;
    }
    let b1 = write_at(buf, pos, d1);
    let p1 = pad_to(buf, pos);
    assert(pad_to(b1, pos + d1.len()) =~= b1);
    assert(b1.take(pos + d1.len()) =~= p1.take(pos) + d1);
    let end = pos + d1.len() + d2.len();
    if end < b1.len() {
        assert(b1.skip(end) =~= p1.skip(end));
    }
    assert(write_at(b1, pos + d1.len(), d2) =~= write_at(buf, pos, d1 + d2));
}

/// Writing `patch` over the part `p` of something written earlier, where
/// `a`, `p` and `c` were written one after another, is writing `a + patch + c`.
pub proof fn lemma_write_at_patch(
    buf: Seq<u8>,
    pos: int,
    a: Seq<u8>,
    p: Seq<u8>,
    c: Seq<u8>,
    patch: Seq<u8>,
)
    requires
        pos >= 0,
        patch.len() == p.len(),
        p.len() > 0,
    ensures
        write_at(write_at(buf, pos, a + p + c), pos + a.len(), patch) == write_at(
            buf,
            pos,
            a + patch + c,
        ),
{
    let w = write_at(buf, pos, a + p + c);
    assert(pad_to(w, pos + a.len()) =~= w);
    assert(write_at(w, pos + a.len(), patch) =~= write_at(buf, pos, a + patch + c));
}

/// Writing at `pos` leaves the bytes before `pos` as they were.
pub proof fn lemma_write_at_keeps_prefix(buf: Seq<u8>, pos: int, data: Seq<u8>)
    requires
        0 <= pos <= buf.len(),
    ensures
        write_at(buf, pos, data).len() >= pos,
        write_at(buf, pos, data).take(pos) == buf.take(pos),
{
    assert(pad_to(buf, pos) =~= buf);
    assert(write_at(buf, pos, data).take(pos) =~= buf.take(pos));
}

/// The bytes written at `pos` are found there afterwards.
pub proof fn lemma_write_at_read_back(buf: Seq<u8>, pos: int, data: Seq<u8>)
    requires
        pos >= 0,
        data.len() > 0,
    ensures
        write_at(buf, pos, data).len() >= pos + data.len(),
        write_at(buf, pos, data).subrange(pos, pos + data.len()) == data,
{
    assert(write_at(buf, pos, data).subrange(pos, pos + data.len()) =~= data);
}

/// `b2` is `b0` after writing `d1` then `d2` at the following position.
pub open spec fn wrote_in_turn(
    b0: ArchiveWriter,
    b1: ArchiveWriter,
    b2: ArchiveWriter,
    d1: Seq<u8>,
    d2: Seq<u8>,
) -> bool {
    b1.wrote(b0, d1) && b2.wrote(b1, d2)
}

/// Two consecutive writes are one write of both.
pub proof fn lemma_wrote_in_turn(
    b0: ArchiveWriter,
    b1: ArchiveWriter,
    b2: ArchiveWriter,
    d1: Seq<u8>,
    d2: Seq<u8>,
)
    requires
        wrote_in_turn(b0, b1, b2, d1, d2),
        b0.pos() >= 0,
    ensures
        b2.wrote(b0, d1 + d2),
{
    lemma_write_at_concat(b0.bytes(), b0.pos(), d1, d2);
}

/// The outcome of a write of `data` that fails only for want of room.
pub open spec fn wrote_or_no_room(
    r: ArchiveResult<()>,
    before: ArchiveWriter,
    after: ArchiveWriter,
    data: Seq<u8>,
) -> bool {
    &&& r is Ok <==> before.has_room(data.len() as int)
    &&& r is Ok ==> after.wrote(before, data)
    &&& r matches Err(e) ==> e matches ArchiveError::Io(io) && io.kind == IoErrorKind::InvalidInput
}

/// A seekable in-memory output stream that archives are written to.
pub struct ArchiveWriter {
    buf: Vec<u8>,
    pos: u64,
}

impl ArchiveWriter {
    /// The bytes written so far.
    pub closed spec fn bytes(&self) -> Seq<u8> {
        self.buf@
    }

    /// The current write position.
    pub closed spec fn pos(&self) -> int {
        self.pos as int
    }

    /// The position is never negative.
    pub proof fn lemma_pos_nonneg(&self)
        ensures
            self.pos() >= 0,
    {
    }

    /// The position fits in a `u64`.
    pub proof fn lemma_pos_bounded(&self)
        ensures
            0 <= self.pos() <= u64::MAX,
    {
    }

    /// `self` is `before` after writing `data` at its position.
    pub open spec fn wrote(&self, before: ArchiveWriter, data: Seq<u8>) -> bool {
        &&& self.bytes() == write_at(before.bytes(), before.pos(), data)
        &&& self.pos() == before.pos() + data.len()
    }

    /// Writing `len` bytes at the position fits in a byte buffer.
    pub open spec fn has_room(&self, len: int) -> bool {
        self.pos() + len <= usize::MAX
    }

    /// Wraps a buffer; writing starts at its beginning, overwriting it.
    pub fn new(inner: Vec<u8>) -> (w: Self)
        ensures
            w.bytes() == inner@,
            w.pos() == 0,
    {
        ArchiveWriter { buf: inner, pos: 0 }
    }

    /// The current position.
    pub(crate) fn pos_u64(&self) -> (p: u64)
        ensures
            p == self.pos(),
    {
        self.pos
    }

    /// Returns the written buffer.
    pub fn into_inner(self) -> (v: Vec<u8>)
        ensures
            v@ == self.bytes(),
    {
        self.buf
    }

    /// Encodes `value` at the current position.
    pub fn write<T: BinaryEncode + ?Sized>(&mut self, value: &T) -> (r: ArchiveResult<()>)
        ensures
            T::spec_encoding_stated() ==> (r is Ok <==> value.spec_encode_ok(old(self).pos())),
            T::spec_encoding_stated() && r is Ok ==> final(self).wrote(
                *old(self),
                value.spec_encoding(),
            ),
    {
        value.encode(self)
    }

    /// Writes the short name of the type with path `type_path` (its text after
    /// the last `::`) before the value, as its format magic.
    pub fn write_named<T: BinaryEncode>(&mut self, type_path: &str, value: &T) -> (r: ArchiveResult<
        (),
    >)
        ensures
            T::spec_encoding_stated() ==> (r is Ok <==> old(self).has_room(
                str_encoding(last_segment(type_path@)).len() as int,
            ) && value.spec_encode_ok(
                old(self).pos() + str_encoding(last_segment(type_path@)).len(),
            )),
            T::spec_encoding_stated() && r is Ok ==> final(self).wrote(
                *old(self),
                str_encoding(last_segment(type_path@)) + value.spec_encoding(),
            ),
    {
        proof {
            old(self).lemma_pos_nonneg();
        }
        let name = short_type_name(type_path);
        let name_written = self.write(name);
        if name_written.is_err() {
            return name_written;
        }
        let ghost named = *self;
        let r = self.write(value);
        proof {
            if r is Ok && T::spec_encoding_stated() {
                lemma_wrote_in_turn(
                    *old(self),
                    named,
                    *self,
                    name.spec_encoding(),
                    value.spec_encoding(),
                );
            }
        }
        r
    }

    /// The current position.
    pub fn position(&mut self) -> (r: ArchiveResult<u64>)
        ensures
            r matches Ok(p) && p == old(self).pos(),
            *final(self) == *old(self),
    {
        Ok(self.pos)
    }

    /// Moves the position; a later write past the end zero-fills the gap.
    pub fn seek(&mut self, position: u64) -> (r: ArchiveResult<()>)
        ensures
            r is Ok,
            final(self).bytes() == old(self).bytes(),
            final(self).pos() == position,
    {
        self.pos = position;
        Ok(())
    }

    /// Nothing is buffered, so flushing always succeeds and changes nothing.
    pub fn flush(&mut self) -> (r: ArchiveResult<()>)
        ensures
            r is Ok,
            *final(self) == *old(self),
    {
        Ok(())
    }

    /// Writes `data` at the current position. A write that would end past the
    /// largest possible buffer fails and changes nothing.
    pub(crate) fn write_raw(&mut self, data: &[u8]) -> (r: ArchiveResult<()>)
        ensures
            r is Ok <==> old(self).has_room(data@.len() as int),
            r is Ok ==> final(self).wrote(*old(self), data@),
            r matches Err(e) ==> e matches ArchiveError::Io(io) && io.kind == IoErrorKind::InvalidInput,
            r is Err ==> *final(self) == *old(self),
    {
        if (self.pos as u128) + (data.len() as u128) > (usize::MAX as u128) {
            return Err(ArchiveError::Io(
                IoError {
                    kind: IoErrorKind::InvalidInput,
                    message: "cursor position exceeds maximum possible vector length",
                },
            ));
        }
        if data.len() == 0 {
            return Ok(());
        }
        let start = self.pos as usize;
        let ghost old_buf = self.buf@;
        while self.buf.len() < start
            invariant
                start <= usize::MAX,
                self.buf@ == pad_to(old_buf, self.buf@.len() as int),
                self.buf@.len() <= start || self.buf@ == old_buf,
            decreases start - self.buf.len(),
        {
            self.buf.push(0);
            assert(self.buf@ =~= pad_to(old_buf, self.buf@.len() as int));
        }
        assert(self.buf@ =~= pad_to(old_buf, start as int));
        let ghost padded = self.buf@;
        let mut i: usize = 0;
        while i < data.len()
            invariant
                start + data@.len() <= usize::MAX,
                padded == pad_to(old_buf, start as int),
                padded.len() >= start,
                i <= data@.len(),
                self.buf@ =~= write_at(padded, start as int, data@.take(i as int)),
            decreases data@.len() - i,
        {
            let k = start + i;
            if k < self.buf.len() {
                self.buf.set(k, data[i]);
            } else {
                self.buf.push(data[i]);
            }
            i = i + 1;
            assert(self.buf@ =~= write_at(padded, start as int, data@.take(i as int)));
        }
        assert(data@.take(data@.len() as int) =~= data@);
        assert(pad_to(padded, start as int) =~= padded);
        assert(write_at(padded, start as int, data@) =~= write_at(old_buf, start as int, data@));
        self.pos = (start + data.len()) as u64;
        Ok(())
    }
}

} // verus!
