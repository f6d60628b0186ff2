//! Deterministic little-endian binary serialization with versioned,
//! length-delimited chunks that readers can skip safely.

pub mod archive;
pub mod codec;
pub mod error;
pub mod laws;
pub mod schema;
pub mod text;
mod traits;

pub use archive::{
    ArchiveReader, ArchiveWriter, ChunkHeader, ChunkReader, ChunkWriter, DecodeOptions,
    DeletedFieldPolicy,
};
pub use codec::{BinaryDecode, BinaryEncode};
pub use error::{ArchiveError, ArchiveResult, IoError, IoErrorKind};
pub use traits::BinaryArchive;

use vstd::prelude::*;
use vstd::string::*;

verus! {

/// Where the last `::` in `s[..end]` begins, or -1 when there is none.
pub open spec fn rightmost_separator(s: Seq<char>, end: int) -> int
    decreases end,
{
    if end < 2 {
        -1
    } else if s[end - 2] == ':' && s[end - 1] == ':' {
        end - 2
    } else {
        rightmost_separator(s, end - 1)
    }
}

/// The text after the last `::` in `s`, or all of `s` when it has none.
pub open spec fn last_segment(s: Seq<char>) -> Seq<char> {
    let i = rightmost_separator(s, s.len() as int);
    if i < 0 {
        s
    } else {
        s.subrange(i + 2, s.len() as int)
    }
}

/// The text after the last `::` of a type path, as `rsplit("::").next()` yields it.
pub fn short_type_name<'a>(path: &'a str) -> (r: &'a str)
    ensures
        r@ == last_segment(path@),
{
    let n = path.unicode_len();
    let mut end = n;
    while end >= 2
        invariant
            end <= n,
            n == path@.len(),
            rightmost_separator(path@, end as int) == rightmost_separator(path@, n as int),
        decreases end,
    {
        if path.get_char(end - 2) == ':' && path.get_char(end - 1) == ':' {
            return path.substring_char(end, n);
        }
        end = end - 1;
    }
    path
}

} // verus!
