//! Laws that relate what the codecs write to what they read back.

use crate::archive::chunk::{
    chunk_bounds, chunk_bytes, chunk_length, chunk_payload, chunk_version, field_bounds,
    field_chunk, field_len, field_marker, field_name, field_version, has_chunk, has_field,
    is_chunk_stream, is_field_list, is_versioned_payload,
};
use crate::archive::policy::DecodeOptions;
use crate::archive::reader::{collection_bytes, unread_from};
use crate::codec::impls::{length_prefix, prefixed_bytes, str_encoding};
use crate::codec::traits::{
    concat_encodings, decodes_at, decodes_seq, seq_start, BinaryDecode, BinaryEncode,
};
use vstd::bytes::*;
use vstd::prelude::*;
use vstd::utf8::*;

verus! {

/// Every byte decodes from its own encoding, whatever follows it.
pub proof fn lemma_u8_round_trip(x: u8, rest: Seq<u8>, max_allocation: u64, options: DecodeOptions)
    ensures
        u8::spec_decodes(x.spec_encoding() + rest, max_allocation, options, x, 1),
{
}

/// Every `i8` decodes from its own encoding, whatever follows it.
pub proof fn lemma_i8_round_trip(x: i8, rest: Seq<u8>, max_allocation: u64, options: DecodeOptions)
    ensures
        i8::spec_decodes(x.spec_encoding() + rest, max_allocation, options, x, 1),
{
    assert(((x as u8) as i8) == x) by (bit_vector);
}

/// Every `u16` decodes from its own encoding, whatever follows it.
pub proof fn lemma_u16_round_trip(x: u16, rest: Seq<u8>, max_allocation: u64, options: DecodeOptions)
    ensures
        u16::spec_decodes(x.spec_encoding() + rest, max_allocation, options, x, 2),
{
    lemma_auto_spec_u16_to_from_le_bytes();
    assert((x.spec_encoding() + rest).take(2) =~= x.spec_encoding());
}

/// Every `i16` decodes from its own encoding, whatever follows it.
pub proof fn lemma_i16_round_trip(x: i16, rest: Seq<u8>, max_allocation: u64, options: DecodeOptions)
    ensures
        i16::spec_decodes(x.spec_encoding() + rest, max_allocation, options, x, 2),
{
    lemma_auto_spec_u16_to_from_le_bytes();
    assert((x.spec_encoding() + rest).take(2) =~= x.spec_encoding());
    assert(((x as u16) as i16) == x) by (bit_vector);
}

/// Every `u32` decodes from its own encoding, whatever follows it.
pub proof fn lemma_u32_round_trip(x: u32, rest: Seq<u8>, max_allocation: u64, options: DecodeOptions)
    ensures
        u32::spec_decodes(x.spec_encoding() + rest, max_allocation, options, x, 4),
{
    lemma_auto_spec_u32_to_from_le_bytes();
    assert((x.spec_encoding() + rest).take(4) =~= x.spec_encoding());
}

/// Every `i32` decodes from its own encoding, whatever follows it.
pub proof fn lemma_i32_round_trip(x: i32, rest: Seq<u8>, max_allocation: u64, options: DecodeOptions)
    ensures
        i32::spec_decodes(x.spec_encoding() + rest, max_allocation, options, x, 4),
{
    lemma_auto_spec_u32_to_from_le_bytes();
    assert((x.spec_encoding() + rest).take(4) =~= x.spec_encoding());
    assert(((x as u32) as i32) == x) by (bit_vector);
}

/// Every `u64` decodes from its own encoding, whatever follows it.
pub proof fn lemma_u64_round_trip(x: u64, rest: Seq<u8>, max_allocation: u64, options: DecodeOptions)
    ensures
        u64::spec_decodes(x.spec_encoding() + rest, max_allocation, options, x, 8),
{
    lemma_auto_spec_u64_to_from_le_bytes();
    assert((x.spec_encoding() + rest).take(8) =~= x.spec_encoding());
}

/// Every `i64` decodes from its own encoding, whatever follows it.
pub proof fn lemma_i64_round_trip(x: i64, rest: Seq<u8>, max_allocation: u64, options: DecodeOptions)
    ensures
        i64::spec_decodes(x.spec_encoding() + rest, max_allocation, options, x, 8),
{
    lemma_auto_spec_u64_to_from_le_bytes();
    assert((x.spec_encoding() + rest).take(8) =~= x.spec_encoding());
    assert(((x as u64) as i64) == x) by (bit_vector);
}

/// Every `bool` decodes from its own encoding, whatever follows it.
pub proof fn lemma_bool_round_trip(x: bool, rest: Seq<u8>, max_allocation: u64, options: DecodeOptions)
    ensures
        bool::spec_decodes(x.spec_encoding() + rest, max_allocation, options, x, 1),
{
}

/// A string's encoding begins with its byte length and holds its UTF-8 bytes.
pub proof fn lemma_str_encoding_parts(chars: Seq<char>, rest: Seq<u8>)
    requires
        encode_utf8(chars).len() <= u64::MAX,
    ensures
        (str_encoding(chars) + rest).len() >= 8,
        length_prefix(str_encoding(chars) + rest) == encode_utf8(chars).len(),
        (str_encoding(chars) + rest).len() >= 8 + encode_utf8(chars).len(),
        prefixed_bytes(str_encoding(chars) + rest) == encode_utf8(chars),
        str_encoding(chars).len() == 8 + encode_utf8(chars).len(),
{
    let n = encode_utf8(chars).len() as u64;
    lemma_auto_spec_u64_to_from_le_bytes();
    let input = str_encoding(chars) + rest;
    assert(input.take(8) =~= spec_u64_to_le_bytes(n));
    assert(prefixed_bytes(input) =~= encode_utf8(chars));
}

/// Every string whose UTF-8 form fits the allocation limit decodes from its
/// own encoding, whatever follows it.
pub proof fn lemma_string_round_trip(
    s: String,
    rest: Seq<u8>,
    max_allocation: u64,
    options: DecodeOptions,
)
    requires
        encode_utf8(s@).len() <= max_allocation,
        encode_utf8(s@).len() <= usize::MAX,
    ensures
        String::spec_decodes(
            s.spec_encoding() + rest,
            max_allocation,
            options,
            s,
            s.spec_encoding().len() as int,
        ),
{
    lemma_str_encoding_parts(s@, rest);
    encode_utf8_valid_utf8(s@);
    encode_utf8_decode_utf8(s@);
}

/// An optional value decodes from its own encoding when its content does.
pub proof fn lemma_option_round_trip<T: BinaryEncode + BinaryDecode>(
    v: Option<T>,
    rest: Seq<u8>,
    max_allocation: u64,
    options: DecodeOptions,
)
    requires
        v matches Some(x) ==> T::spec_decodes(
            x.spec_encoding() + rest,
            max_allocation,
            options,
            x,
            x.spec_encoding().len() as int,
        ),
    ensures
        Option::<T>::spec_decodes(
            v.spec_encoding() + rest,
            max_allocation,
            options,
            v,
            v.spec_encoding().len() as int,
        ),
{
    if let Some(x) = v {
        assert((v.spec_encoding() + rest).skip(1) =~= x.spec_encoding() + rest);
    }
}

/// A boxed value decodes from its own encoding when its content does.
pub proof fn lemma_box_round_trip<T: BinaryEncode + BinaryDecode>(
    v: Box<T>,
    rest: Seq<u8>,
    max_allocation: u64,
    options: DecodeOptions,
)
    requires
        T::spec_decodes(
            (*v).spec_encoding() + rest,
            max_allocation,
            options,
            *v,
            (*v).spec_encoding().len() as int,
        ),
    ensures
        Box::<T>::spec_decodes(
            v.spec_encoding() + rest,
            max_allocation,
            options,
            v,
            v.spec_encoding().len() as int,
        ),
{
}

/// The encodings of `a + b` are those of `a` followed by those of `b`.
pub proof fn lemma_concat_encodings_append<T: BinaryEncode>(a: Seq<T>, b: Seq<T>)
    ensures
        concat_encodings(a + b) == concat_encodings(a) + concat_encodings(b),
    decreases b.len(),
{
    if b.len() == 0 {
        assert(a + b =~= a);
        assert(concat_encodings(a) + concat_encodings(b) =~= concat_encodings(a));
    } else {
        lemma_concat_encodings_append(a, b.drop_last());
        assert((a + b).drop_last() =~= a + b.drop_last());
        assert((a + b).last() == b.last());
        assert(concat_encodings(a + b) =~= concat_encodings(a) + concat_encodings(b));
    }
}

/// The encodings of the values from `i` on are value `i`'s, then those after it.
proof fn lemma_concat_encodings_from<T: BinaryEncode>(values: Seq<T>, i: int)
    requires
        0 <= i < values.len(),
    ensures
        concat_encodings(values) == concat_encodings(values.take(i)) + values[i].spec_encoding()
            + concat_encodings(values.skip(i + 1)),
{
    let single = seq![values[i]];
    assert(values =~= values.take(i) + (single + values.skip(i + 1)));
    lemma_concat_encodings_append(values.take(i), single + values.skip(i + 1));
    lemma_concat_encodings_append(single, values.skip(i + 1));
    assert(single.drop_last() =~= Seq::<T>::empty());
    assert(concat_encodings(single.drop_last()) =~= Seq::<u8>::empty());
    assert(single.last() == values[i]);
    assert(concat_encodings(single) =~= values[i].spec_encoding());
    assert(concat_encodings(values) =~= concat_encodings(values.take(i)) + values[i].spec_encoding()
        + concat_encodings(values.skip(i + 1)));
}

/// Values encoded one after another decode one after another, when each value
/// decodes from its own encoding whatever follows it.
pub proof fn lemma_seq_round_trip<T: BinaryEncode + BinaryDecode>(
    values: Seq<T>,
    rest: Seq<u8>,
    max_allocation: u64,
    options: DecodeOptions,
)
    requires
        forall|i: int, r: Seq<u8>|
            0 <= i < values.len() ==> #[trigger] T::spec_decodes(
                values[i].spec_encoding() + r,
                max_allocation,
                options,
                values[i],
                values[i].spec_encoding().len() as int,
            ),
    ensures
        decodes_seq(
            concat_encodings(values) + rest,
            max_allocation,
            options,
            values,
            concat_encodings(values).len() as int,
        ),
{
    let input = concat_encodings(values) + rest;
    let n = values.len() as int;
    let ends = Seq::new(values.len(), |i: int| concat_encodings(values.take(i + 1)).len() as int);
    assert forall|i: int| 0 <= i <= n implies seq_start(ends, i) == concat_encodings(
        values.take(i),
    ).len() by {
        if i == 0 {
            assert(values.take(0) =~= Seq::<T>::empty());
        }
    }
    assert forall|i: int| 0 <= i < values.len() implies 0 <= seq_start(ends, i) <= #[trigger] ends[i]
        && T::spec_decodes(
        unread_from(input, seq_start(ends, i)),
        max_allocation,
        options,
        values[i],
        ends[i] - seq_start(ends, i),
    ) by {
        let before = concat_encodings(values.take(i));
        let after = concat_encodings(values.skip(i + 1));
        lemma_concat_encodings_from(values, i);
        assert(values.take(i + 1).drop_last() =~= values.take(i));
        assert(ends[i] == before.len() + values[i].spec_encoding().len());
        assert(unread_from(input, before.len() as int) =~= values[i].spec_encoding() + (after
            + rest));
    }
    assert(values.take(n) =~= values);
    assert(decodes_at(input, max_allocation, options, values, ends));
}

/// A vector decodes from its own encoding when its elements do and its
/// element storage fits the allocation limit.
pub proof fn lemma_vec_round_trip<T: BinaryEncode + BinaryDecode>(
    v: Vec<T>,
    rest: Seq<u8>,
    max_allocation: u64,
    options: DecodeOptions,
)
    requires
        collection_bytes(v@.len() as int, vstd::layout::size_of::<T>() as int) <= max_allocation,
        collection_bytes(v@.len() as int, vstd::layout::size_of::<T>() as int) <= usize::MAX,
        forall|i: int, r: Seq<u8>|
            0 <= i < v@.len() ==> #[trigger] T::spec_decodes(
                v@[i].spec_encoding() + r,
                max_allocation,
                options,
                v@[i],
                v@[i].spec_encoding().len() as int,
            ),
    ensures
        Vec::<T>::spec_decodes(
            v.spec_encoding() + rest,
            max_allocation,
            options,
            v,
            v.spec_encoding().len() as int,
        ),
{
    let count = v@.len() as int;
    let size = vstd::layout::size_of::<T>() as int;
    assert(count <= collection_bytes(count, size)) by (nonlinear_arith)
        requires
            count >= 0,
            size >= 0,
            collection_bytes(count, size) == count * if size == 0 {
                1
            } else {
                size
            },
    ;
    lemma_seq_round_trip(v@, rest, max_allocation, options);
    lemma_auto_spec_u64_to_from_le_bytes();
    let input = v.spec_encoding() + rest;
    assert(input.take(8) =~= spec_u64_to_le_bytes(count as u64));
    assert(input.skip(8) =~= concat_encodings(v@) + rest);
}

/// An array decodes from its own encoding when its elements do and its
/// element storage fits the allocation limit.
pub proof fn lemma_array_round_trip<T: BinaryEncode + BinaryDecode, const N: usize>(
    a: [T; N],
    rest: Seq<u8>,
    max_allocation: u64,
    options: DecodeOptions,
)
    requires
        collection_bytes(N as int, vstd::layout::size_of::<T>() as int) <= max_allocation,
        collection_bytes(N as int, vstd::layout::size_of::<T>() as int) <= usize::MAX,
        forall|i: int, r: Seq<u8>|
            0 <= i < N ==> #[trigger] T::spec_decodes(
                a@[i].spec_encoding() + r,
                max_allocation,
                options,
                a@[i],
                a@[i].spec_encoding().len() as int,
            ),
    ensures
        <[T; N]>::spec_decodes(
            a.spec_encoding() + rest,
            max_allocation,
            options,
            a,
            a.spec_encoding().len() as int,
        ),
{
    lemma_seq_round_trip(a@, rest, max_allocation, options);
}

/// Bytes encode as themselves, one after another.
pub proof fn lemma_byte_encodings(bytes: Seq<u8>)
    ensures
        concat_encodings(bytes) == bytes,
    decreases bytes.len(),
{
    if bytes.len() > 0 {
        lemma_byte_encodings(bytes.drop_last());
        assert(bytes.drop_last().push(bytes.last()) =~= bytes);
        assert(concat_encodings(bytes) =~= bytes);
    }
}

/// A chunk reads back as the version and payload it was written with, and
/// what follows it is left in place.
pub proof fn lemma_chunk_round_trip(
    version: u32,
    payload: Seq<u8>,
    rest: Seq<u8>,
    max_allocation: u64,
)
    requires
        payload.len() <= max_allocation,
        payload.len() <= usize::MAX,
    ensures
        has_chunk(chunk_bytes(version, payload) + rest, max_allocation),
        chunk_version(chunk_bytes(version, payload) + rest) == version,
        chunk_length(chunk_bytes(version, payload) + rest) == payload.len(),
        chunk_payload(chunk_bytes(version, payload) + rest) == payload,
        chunk_bytes(version, payload).len() == 12 + payload.len(),
        (chunk_bytes(version, payload) + rest).skip(12 + payload.len() as int) == rest,
{
    lemma_auto_spec_u32_to_from_le_bytes();
    lemma_auto_spec_u64_to_from_le_bytes();
    let input = chunk_bytes(version, payload) + rest;
    assert(input.take(4) =~= spec_u32_to_le_bytes(version));
    assert(input.subrange(4, 12) =~= spec_u64_to_le_bytes(payload.len() as u64));
    assert(chunk_payload(input) =~= payload);
    assert(input.skip(12 + payload.len() as int) =~= rest);
}

/// What is read at the start of a chunk does not depend on what follows it.
proof fn lemma_has_chunk_extend(input: Seq<u8>, more: Seq<u8>, max_allocation: u64)
    requires
        has_chunk(input, max_allocation),
    ensures
        has_chunk(input + more, max_allocation),
        chunk_length(input + more) == chunk_length(input),
        chunk_version(input + more) == chunk_version(input),
{
    assert((input + more).subrange(4, 12) =~= input.subrange(4, 12));
    assert((input + more).take(4) =~= input.take(4));
}

/// The chunks with the given versions and payloads, one after another.
pub open spec fn chunk_list_bytes(versions: Seq<u32>, payloads: Seq<Seq<u8>>) -> Seq<u8>
    decreases payloads.len(),
{
    if payloads.len() == 0 || versions.len() != payloads.len() {
        Seq::<u8>::empty()
    } else {
        chunk_list_bytes(versions.drop_last(), payloads.drop_last()) + chunk_bytes(
            versions.last(),
            payloads.last(),
        )
    }
}

/// Complete chunks written one after another form a stream that `read_chunks` can walk.
pub proof fn lemma_chunk_stream(versions: Seq<u32>, payloads: Seq<Seq<u8>>, max_allocation: u64)
    requires
        versions.len() == payloads.len(),
        forall|i: int|
            0 <= i < payloads.len() ==> (#[trigger] payloads[i]).len() <= max_allocation
                && payloads[i].len() <= usize::MAX,
    ensures
        is_chunk_stream(chunk_list_bytes(versions, payloads), max_allocation),
    decreases payloads.len(),
{
    let input = chunk_list_bytes(versions, payloads);
    if payloads.len() == 0 {
        let bounds = seq![0int];
        assert(chunk_bounds(input, max_allocation, bounds));
    } else {
        let prefix = chunk_list_bytes(versions.drop_last(), payloads.drop_last());
        let last = chunk_bytes(versions.last(), payloads.last());
        assert(forall|i: int|
            0 <= i < payloads.drop_last().len() ==> #[trigger] payloads.drop_last()[i]
                == payloads[i]);
        lemma_chunk_stream(versions.drop_last(), payloads.drop_last(), max_allocation);
        let bounds = choose|bounds: Seq<int>|
            #[trigger] chunk_bounds(prefix, max_allocation, bounds) && bounds.last()
                == prefix.len();
        let all = bounds.push(input.len() as int);
        lemma_chunk_round_trip(versions.last(), payloads.last(), Seq::<u8>::empty(), max_allocation);
        assert(last + Seq::<u8>::empty() =~= last);
        assert forall|i: int| 0 <= i < all.len() - 1 implies 0 <= #[trigger] all[i] <= input.len()
            && has_chunk(unread_from(input, all[i]), max_allocation) && all[i + 1] == all[i] + 12
            + chunk_length(unread_from(input, all[i])) by {
            if i < bounds.len() - 1 {
                assert(all[i] == bounds[i]);
                assert(all[i + 1] == bounds[i + 1]);
                let here = unread_from(prefix, bounds[i]);
                assert(unread_from(input, all[i]) =~= here + last);
                lemma_has_chunk_extend(here, last, max_allocation);
            } else {
                assert(all[i] == prefix.len());
                assert(unread_from(input, all[i]) =~= last);
            }
        }
        assert(chunk_bounds(input, max_allocation, all));
    }
}

/// A field record: the field's name as a string, then a chunk of its
/// introduction version holding its encoded value.
pub open spec fn field_record_bytes(name: Seq<char>, version: u32, value: Seq<u8>) -> Seq<u8> {
    str_encoding(name) + chunk_bytes(version, value)
}

/// A field record reads back as the name, version and value it was written with.
pub proof fn lemma_field_round_trip(
    name: Seq<char>,
    version: u32,
    value: Seq<u8>,
    rest: Seq<u8>,
    max_allocation: u64,
)
    requires
        encode_utf8(name).len() <= max_allocation,
        encode_utf8(name).len() <= usize::MAX,
        value.len() <= max_allocation,
        value.len() <= usize::MAX,
    ensures
        has_field(field_record_bytes(name, version, value) + rest, max_allocation),
        field_name(field_record_bytes(name, version, value) + rest) == name,
        field_version(field_record_bytes(name, version, value) + rest) == version,
        field_len(field_record_bytes(name, version, value) + rest) == field_record_bytes(
            name,
            version,
            value,
        ).len(),
        chunk_payload(field_chunk(field_record_bytes(name, version, value) + rest)) == value,
{
    let input = field_record_bytes(name, version, value) + rest;
    assert(input =~= str_encoding(name) + (chunk_bytes(version, value) + rest));
    lemma_str_encoding_parts(name, chunk_bytes(version, value) + rest);
    encode_utf8_valid_utf8(name);
    encode_utf8_decode_utf8(name);
    assert(field_chunk(input) =~= chunk_bytes(version, value) + rest);
    lemma_chunk_round_trip(version, value, rest, max_allocation);
}

/// What is read at the start of a field record does not depend on what follows it.
proof fn lemma_has_field_extend(input: Seq<u8>, more: Seq<u8>, max_allocation: u64)
    requires
        has_field(input, max_allocation),
    ensures
        has_field(input + more, max_allocation),
        field_len(input + more) == field_len(input),
        field_name(input + more) == field_name(input),
        field_version(input + more) == field_version(input),
{
    assert((input + more).take(8) =~= input.take(8));
    assert(prefixed_bytes(input + more) =~= prefixed_bytes(input));
    assert(field_chunk(input + more) =~= field_chunk(input) + more);
    lemma_has_chunk_extend(field_chunk(input), more, max_allocation);
}

/// The field records with the given names, versions and encoded values, one after another.
pub open spec fn field_list_bytes(
    names: Seq<Seq<char>>,
    versions: Seq<u32>,
    values: Seq<Seq<u8>>,
) -> Seq<u8>
    decreases values.len(),
{
    if values.len() == 0 || names.len() != values.len() || versions.len() != values.len() {
        Seq::<u8>::empty()
    } else {
        field_list_bytes(names.drop_last(), versions.drop_last(), values.drop_last())
            + field_record_bytes(names.last(), versions.last(), values.last())
    }
}

/// Bytes left after a position within `prefix`, once `last` is appended.
proof fn lemma_unread_from_append(prefix: Seq<u8>, last: Seq<u8>, pos: int)
    requires
        0 <= pos <= prefix.len(),
    ensures
        unread_from(prefix + last, pos) == unread_from(prefix, pos) + last,
{
    assert(unread_from(prefix + last, pos) =~= unread_from(prefix, pos) + last);
}

/// Appending one complete record to a list of records extends its bounds.
proof fn lemma_field_bounds_append(
    prefix: Seq<u8>,
    last: Seq<u8>,
    bounds: Seq<int>,
    max_allocation: u64,
)
    requires
        field_bounds(prefix, max_allocation, bounds),
        bounds.last() == prefix.len(),
        has_field(last, max_allocation),
        field_len(last) == last.len(),
    ensures
        field_bounds(prefix + last, max_allocation, bounds.push((prefix + last).len() as int)),
{
    let input = prefix + last;
    let all = bounds.push(input.len() as int);
    assert forall|i: int| 0 <= i < all.len() - 1 implies 0 <= #[trigger] all[i] <= input.len()
        && has_field(unread_from(input, all[i]), max_allocation) && all[i + 1] == all[i]
        + field_len(unread_from(input, all[i])) by {
        if i < bounds.len() - 1 {
            assert(all[i] == bounds[i]);
            assert(all[i + 1] == bounds[i + 1]);
            let here = unread_from(prefix, bounds[i]);
            lemma_unread_from_append(prefix, last, bounds[i]);
            lemma_has_field_extend(here, last, max_allocation);
        } else {
            assert(all[i] == prefix.len());
            assert(unread_from(input, all[i]) =~= last);
        }
    }
}

/// Where each of the records of `field_list_bytes` begins.
#[verifier::spinoff_prover]
proof fn lemma_field_list_bounds(
    names: Seq<Seq<char>>,
    versions: Seq<u32>,
    values: Seq<Seq<u8>>,
    max_allocation: u64,
) -> (bounds: Seq<int>)
    requires
        8 <= max_allocation,
        names.len() == values.len(),
        versions.len() == values.len(),
        forall|i: int|
            0 <= i < values.len() ==> encode_utf8(#[trigger] names[i]).len() <= max_allocation
                && encode_utf8(names[i]).len() <= usize::MAX,
        forall|i: int|
            0 <= i < values.len() ==> (#[trigger] values[i]).len() <= max_allocation
                && values[i].len() <= usize::MAX,
    ensures
        field_bounds(field_list_bytes(names, versions, values), max_allocation, bounds),
        bounds.len() == values.len() + 1,
        bounds.last() == field_list_bytes(names, versions, values).len(),
        forall|i: int|
            0 <= i < values.len() ==> field_name(
                unread_from(field_list_bytes(names, versions, values), #[trigger] bounds[i]),
            ) == names[i] && field_version(
                unread_from(field_list_bytes(names, versions, values), bounds[i]),
            ) == versions[i],
    decreases values.len(),
{
    let input = field_list_bytes(names, versions, values);
    if values.len() == 0 {
        seq![0int]
    } else {
        let n = values.len() - 1;
        let short_names = names.drop_last();
        let short_versions = versions.drop_last();
        let short_values = values.drop_last();
        let prefix = field_list_bytes(short_names, short_versions, short_values);
        let last = field_record_bytes(names.last(), versions.last(), values.last());
        assert forall|i: int| 0 <= i < n implies encode_utf8(#[trigger] short_names[i]).len()
            <= max_allocation && encode_utf8(short_names[i]).len() <= usize::MAX by {
            assert(short_names[i] == names[i]);
        }
        assert forall|i: int| 0 <= i < n implies (#[trigger] short_values[i]).len()
            <= max_allocation && short_values[i].len() <= usize::MAX by {
            assert(short_values[i] == values[i]);
        }
        let bounds = lemma_field_list_bounds(
            short_names,
            short_versions,
            short_values,
            max_allocation,
        );
        lemma_field_round_trip(
            names.last(),
            versions.last(),
            values.last(),
            Seq::<u8>::empty(),
            max_allocation,
        );
        assert(last + Seq::<u8>::empty() =~= last);
        assert(input == prefix + last);
        lemma_field_bounds_append(prefix, last, bounds, max_allocation);
        let all = bounds.push(input.len() as int);
        assert forall|i: int| 0 <= i < values.len() implies field_name(
            unread_from(input, #[trigger] all[i]),
        ) == names[i] && field_version(unread_from(input, all[i])) == versions[i] by {
            if i < n {
                assert(all[i] == bounds[i]);
                let here = unread_from(prefix, bounds[i]);
                assert(field_name(here) == short_names[i]);
                assert(field_version(here) == short_versions[i]);
                lemma_unread_from_append(prefix, last, bounds[i]);
                lemma_has_field_extend(here, last, max_allocation);
            } else {
                assert(unread_from(input, all[i]) =~= last);
            }
        }
        all
    }
}

/// Field records with distinct names, none introduced after the struct's
/// version, written after the field marker, form a payload that
/// `read_versioned_fields` accepts under a limit of at least eight bytes.
#[verifier::spinoff_prover]
#[verifier::rlimit(30)]
pub proof fn lemma_versioned_payload(
    names: Seq<Seq<char>>,
    versions: Seq<u32>,
    values: Seq<Seq<u8>>,
    max_allocation: u64,
    struct_version: u32,
)
    requires
        8 <= max_allocation,
        names.len() == values.len(),
        versions.len() == values.len(),
        forall|i: int|
            0 <= i < values.len() ==> encode_utf8(#[trigger] names[i]).len() <= max_allocation
                && encode_utf8(names[i]).len() <= usize::MAX,
        forall|i: int|
            0 <= i < values.len() ==> (#[trigger] values[i]).len() <= max_allocation
                && values[i].len() <= usize::MAX,
        forall|i: int| 0 <= i < values.len() ==> #[trigger] versions[i] <= struct_version,
        forall|i: int, j: int| 0 <= i < j < values.len() ==> #[trigger] names[i] != #[trigger] names[j],
    ensures
        is_versioned_payload(
            field_marker() + field_list_bytes(names, versions, values),
            max_allocation,
            struct_version,
        ),
{
    let list = field_list_bytes(names, versions, values);
    let payload = field_marker() + list;
    let bounds = lemma_field_list_bounds(names, versions, values, max_allocation);
    assert(payload.take(8) =~= field_marker());
    assert(payload.skip(8) =~= list);
    assert forall|i: int| 0 <= i < bounds.len() - 1 implies field_version(
        unread_from(list, #[trigger] bounds[i]),
    ) <= struct_version by {
        assert(versions[i] <= struct_version);
    }
    assert forall|i: int, j: int| 0 <= i < j < bounds.len() - 1 implies field_name(
        unread_from(list, #[trigger] bounds[i]),
    ) != field_name(unread_from(list, #[trigger] bounds[j])) by {
        assert(names[i] != names[j]);
    }
    assert(is_field_list(list, max_allocation, struct_version));
}

/// Decoding is a function of the input: two decodings of the same bytes, under
/// the same limit and settings, give values with the same deep view and consume
/// the same number of bytes.
pub open spec fn decodes_uniquely<T: BinaryDecode + DeepView>(
    max_allocation: u64,
    options: DecodeOptions,
) -> bool {
    forall|input: Seq<u8>, v1: T, c1: int, v2: T, c2: int|
        #[trigger] T::spec_decodes(input, max_allocation, options, v1, c1)
            && #[trigger] T::spec_decodes(input, max_allocation, options, v2, c2)
            ==> v1.deep_view() == v2.deep_view() && c1 == c2
}

/// Integers, `bool` and strings decode uniquely.
pub proof fn lemma_scalars_decode_uniquely(max_allocation: u64, options: DecodeOptions)
    ensures
        decodes_uniquely::<u8>(max_allocation, options),
        decodes_uniquely::<i8>(max_allocation, options),
        decodes_uniquely::<u16>(max_allocation, options),
        decodes_uniquely::<i16>(max_allocation, options),
        decodes_uniquely::<u32>(max_allocation, options),
        decodes_uniquely::<i32>(max_allocation, options),
        decodes_uniquely::<u64>(max_allocation, options),
        decodes_uniquely::<i64>(max_allocation, options),
        decodes_uniquely::<bool>(max_allocation, options),
        decodes_uniquely::<String>(max_allocation, options),
{
}

/// Two decodings of values one after another, of equally many values, agree
/// value by value and end at the same places.
proof fn lemma_decodes_at_agree<T: BinaryDecode + DeepView>(
    input: Seq<u8>,
    max_allocation: u64,
    options: DecodeOptions,
    vs1: Seq<T>,
    ends1: Seq<int>,
    vs2: Seq<T>,
    ends2: Seq<int>,
    i: int,
)
    requires
        decodes_uniquely::<T>(max_allocation, options),
        decodes_at(input, max_allocation, options, vs1, ends1),
        decodes_at(input, max_allocation, options, vs2, ends2),
        vs1.len() == vs2.len(),
        0 <= i < vs1.len(),
    ensures
        ends1[i] == ends2[i],
        vs1[i].deep_view() == vs2[i].deep_view(),
    decreases i,
{
    if i > 0 {
        lemma_decodes_at_agree(input, max_allocation, options, vs1, ends1, vs2, ends2, i - 1);
    }
    assert(seq_start(ends1, i) == seq_start(ends2, i));
    assert(0 <= seq_start(ends1, i) <= ends1[i]);
    assert(0 <= seq_start(ends2, i) <= ends2[i]);
}

/// Equally many values decoded one after another from the same bytes have the
/// same deep views and consume the same number of bytes.
pub proof fn lemma_seq_decodes_uniquely<T: BinaryDecode + DeepView>(
    input: Seq<u8>,
    max_allocation: u64,
    options: DecodeOptions,
    vs1: Seq<T>,
    c1: int,
    vs2: Seq<T>,
    c2: int,
)
    requires
        decodes_uniquely::<T>(max_allocation, options),
        decodes_seq(input, max_allocation, options, vs1, c1),
        decodes_seq(input, max_allocation, options, vs2, c2),
        vs1.len() == vs2.len(),
    ensures
        c1 == c2,
        forall|i: int| 0 <= i < vs1.len() ==> #[trigger] vs1[i].deep_view() == vs2[i].deep_view(),
{
    let ends1 = choose|ends: Seq<int>|
        #[trigger] decodes_at(input, max_allocation, options, vs1, ends) && c1 == seq_start(
            ends,
            vs1.len() as int,
        );
    let ends2 = choose|ends: Seq<int>|
        #[trigger] decodes_at(input, max_allocation, options, vs2, ends) && c2 == seq_start(
            ends,
            vs2.len() as int,
        );
    assert forall|i: int| 0 <= i < vs1.len() implies #[trigger] vs1[i].deep_view()
        == vs2[i].deep_view() by {
        lemma_decodes_at_agree(input, max_allocation, options, vs1, ends1, vs2, ends2, i);
    }
    if vs1.len() > 0 {
        lemma_decodes_at_agree(
            input,
            max_allocation,
            options,
            vs1,
            ends1,
            vs2,
            ends2,
            vs1.len() - 1,
        );
    }
}

/// Optional values decode uniquely when their contents do.
pub proof fn lemma_option_decodes_uniquely<T: BinaryDecode + DeepView>(
    max_allocation: u64,
    options: DecodeOptions,
)
    requires
        decodes_uniquely::<T>(max_allocation, options),
    ensures
        decodes_uniquely::<Option<T>>(max_allocation, options),
{
    assert forall|input: Seq<u8>, v1: Option<T>, c1: int, v2: Option<T>, c2: int|
        #[trigger] Option::<T>::spec_decodes(input, max_allocation, options, v1, c1)
            && #[trigger] Option::<T>::spec_decodes(input, max_allocation, options, v2, c2)
            implies v1.deep_view() == v2.deep_view() && c1 == c2 by {
        if let (Some(x1), Some(x2)) = (v1, v2) {
            assert(T::spec_decodes(input.skip(1), max_allocation, options, x1, c1 - 1));
            assert(T::spec_decodes(input.skip(1), max_allocation, options, x2, c2 - 1));
        }
    }
}

/// Boxed values decode uniquely when their contents do.
pub proof fn lemma_box_decodes_uniquely<T: BinaryDecode + DeepView>(
    max_allocation: u64,
    options: DecodeOptions,
)
    requires
        decodes_uniquely::<T>(max_allocation, options),
    ensures
        decodes_uniquely::<Box<T>>(max_allocation, options),
{
    assert forall|input: Seq<u8>, v1: Box<T>, c1: int, v2: Box<T>, c2: int|
        #[trigger] Box::<T>::spec_decodes(input, max_allocation, options, v1, c1)
            && #[trigger] Box::<T>::spec_decodes(input, max_allocation, options, v2, c2)
            implies v1.deep_view() == v2.deep_view() && c1 == c2 by {
        assert(T::spec_decodes(input, max_allocation, options, *v1, c1));
        assert(T::spec_decodes(input, max_allocation, options, *v2, c2));
    }
}

/// Vectors decode uniquely when their elements do.
pub proof fn lemma_vec_decodes_uniquely<T: BinaryDecode + DeepView>(
    max_allocation: u64,
    options: DecodeOptions,
)
    requires
        decodes_uniquely::<T>(max_allocation, options),
    ensures
        decodes_uniquely::<Vec<T>>(max_allocation, options),
{
    assert forall|input: Seq<u8>, v1: Vec<T>, c1: int, v2: Vec<T>, c2: int|
        #[trigger] Vec::<T>::spec_decodes(input, max_allocation, options, v1, c1)
            && #[trigger] Vec::<T>::spec_decodes(input, max_allocation, options, v2, c2)
            implies v1.deep_view() == v2.deep_view() && c1 == c2 by {
        lemma_seq_decodes_uniquely(
            input.skip(8),
            max_allocation,
            options,
            v1@,
            c1 - 8,
            v2@,
            c2 - 8,
        );
        assert(v1.deep_view() =~= v2.deep_view());
    }
}

/// Arrays decode uniquely when their elements do.
pub proof fn lemma_array_decodes_uniquely<T: BinaryDecode + DeepView, const N: usize>(
    max_allocation: u64,
    options: DecodeOptions,
)
    requires
        decodes_uniquely::<T>(max_allocation, options),
    ensures
        decodes_uniquely::<[T; N]>(max_allocation, options),
{
    assert forall|input: Seq<u8>, v1: [T; N], c1: int, v2: [T; N], c2: int|
        #[trigger] <[T; N]>::spec_decodes(input, max_allocation, options, v1, c1)
            && #[trigger] <[T; N]>::spec_decodes(input, max_allocation, options, v2, c2)
            implies v1.deep_view() == v2.deep_view() && c1 == c2 by {
        lemma_seq_decodes_uniquely(input, max_allocation, options, v1@, c1, v2@, c2);
        assert(v1.deep_view() =~= v2.deep_view());
    }
}

/// Two values written one after another read back in order: the first from
/// the start of the bytes, the second from right after the first, when each
/// decodes from its own encoding whatever follows it.
pub proof fn lemma_values_read_back_in_order<A: BinaryEncode + BinaryDecode, B: BinaryEncode + BinaryDecode>(
    a: A,
    b: B,
    rest: Seq<u8>,
    max_allocation: u64,
    options: DecodeOptions,
)
    requires
        forall|after: Seq<u8>|
            A::spec_decodes(
                #[trigger] (a.spec_encoding() + after),
                max_allocation,
                options,
                a,
                a.spec_encoding().len() as int,
            ),
        forall|after: Seq<u8>|
            B::spec_decodes(
                #[trigger] (b.spec_encoding() + after),
                max_allocation,
                options,
                b,
                b.spec_encoding().len() as int,
            ),
    ensures
        A::spec_decodes(
            a.spec_encoding() + b.spec_encoding() + rest,
            max_allocation,
            options,
            a,
            a.spec_encoding().len() as int,
        ),
        B::spec_decodes(
            unread_from(a.spec_encoding() + b.spec_encoding() + rest, a.spec_encoding().len() as int),
            max_allocation,
            options,
            b,
            b.spec_encoding().len() as int,
        ),
{
    let bytes = a.spec_encoding() + b.spec_encoding() + rest;
    assert(bytes =~= a.spec_encoding() + (b.spec_encoding() + rest));
    assert(unread_from(bytes, a.spec_encoding().len() as int) =~= b.spec_encoding() + rest);
}

/// Integers are stored as the little-endian bytes of their two's-complement
/// bits, and `bool` as one byte, 1 for true and 0 for false: read back as an
/// unsigned little-endian number of the same width, the encoding gives the
/// value's bits.
pub proof fn lemma_integer_encodings(
    a: u8,
    b: i8,
    c: u16,
    d: i16,
    e: u32,
    f: i32,
    g: u64,
    h: i64,
    t: bool,
)
    ensures
        a.spec_encoding() == seq![a],
        b.spec_encoding() == seq![b as u8],
        c.spec_encoding().len() == 2 && spec_u16_from_le_bytes(c.spec_encoding()) == c,
        d.spec_encoding().len() == 2 && spec_u16_from_le_bytes(d.spec_encoding()) == d as u16,
        e.spec_encoding().len() == 4 && spec_u32_from_le_bytes(e.spec_encoding()) == e,
        f.spec_encoding().len() == 4 && spec_u32_from_le_bytes(f.spec_encoding()) == f as u32,
        g.spec_encoding().len() == 8 && spec_u64_from_le_bytes(g.spec_encoding()) == g,
        h.spec_encoding().len() == 8 && spec_u64_from_le_bytes(h.spec_encoding()) == h as u64,
        t.spec_encoding() == seq![if t { 1u8 } else { 0u8 }],
{
    lemma_auto_spec_u16_to_from_le_bytes();
    lemma_auto_spec_u32_to_from_le_bytes();
    lemma_auto_spec_u64_to_from_le_bytes();
}

/// A decoded integer has the bits of the little-endian number its bytes form,
/// and uses exactly the bytes of its width; a decoded `bool` comes from a byte
/// that is 1 for true and 0 for false.
pub proof fn lemma_integer_decodings(input: Seq<u8>, max_allocation: u64, options: DecodeOptions)
    ensures
        forall|v: u8, n: int|
            #[trigger] u8::spec_decodes(input, max_allocation, options, v, n) ==> n == 1
                && v == input[0],
        forall|v: i8, n: int|
            #[trigger] i8::spec_decodes(input, max_allocation, options, v, n) ==> n == 1 && v as u8
                == input[0],
        forall|v: u16, n: int|
            #[trigger] u16::spec_decodes(input, max_allocation, options, v, n) ==> n == 2
                && v == spec_u16_from_le_bytes(input.take(2)),
        forall|v: i16, n: int|
            #[trigger] i16::spec_decodes(input, max_allocation, options, v, n) ==> n == 2 && v as u16
                == spec_u16_from_le_bytes(input.take(2)),
        forall|v: u32, n: int|
            #[trigger] u32::spec_decodes(input, max_allocation, options, v, n) ==> n == 4
                && v == spec_u32_from_le_bytes(input.take(4)),
        forall|v: i32, n: int|
            #[trigger] i32::spec_decodes(input, max_allocation, options, v, n) ==> n == 4 && v as u32
                == spec_u32_from_le_bytes(input.take(4)),
        forall|v: u64, n: int|
            #[trigger] u64::spec_decodes(input, max_allocation, options, v, n) ==> n == 8
                && v == spec_u64_from_le_bytes(input.take(8)),
        forall|v: i64, n: int|
            #[trigger] i64::spec_decodes(input, max_allocation, options, v, n) ==> n == 8 && v as u64
                == spec_u64_from_le_bytes(input.take(8)),
        forall|v: bool, n: int|
            #[trigger] bool::spec_decodes(input, max_allocation, options, v, n) ==> n == 1 && input[0]
                == (if v { 1u8 } else { 0u8 }),
{
    assert forall|v: i8, n: int| #[trigger]
        i8::spec_decodes(input, max_allocation, options, v, n) implies n == 1 && v as u8
        == input[0] by {
        let x = input[0];
        assert(((x as i8) as u8) == x) by (bit_vector);
    }
    assert forall|v: i16, n: int| #[trigger]
        i16::spec_decodes(input, max_allocation, options, v, n) implies n == 2 && v as u16
        == spec_u16_from_le_bytes(input.take(2)) by {
        let x = spec_u16_from_le_bytes(input.take(2));
        assert(((x as i16) as u16) == x) by (bit_vector);
    }
    assert forall|v: i32, n: int| #[trigger]
        i32::spec_decodes(input, max_allocation, options, v, n) implies n == 4 && v as u32
        == spec_u32_from_le_bytes(input.take(4)) by {
        let x = spec_u32_from_le_bytes(input.take(4));
        assert(((x as i32) as u32) == x) by (bit_vector);
    }
    assert forall|v: i64, n: int| #[trigger]
        i64::spec_decodes(input, max_allocation, options, v, n) implies n == 8 && v as u64
        == spec_u64_from_le_bytes(input.take(8)) by {
        let x = spec_u64_from_le_bytes(input.take(8));
        assert(((x as i64) as u64) == x) by (bit_vector);
    }
}

} // verus!
