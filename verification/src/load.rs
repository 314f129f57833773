//! Opening a database image: header decoding, validation, and the choice
//! of the offset width.

use vstd::prelude::*;

use crate::bytes::{word_at, Endian, Width};
use crate::format::{header_valid, parse_header};
use crate::multi_read::MultiRead;
use crate::{TchdbError, TCHDB};

verus! {

/// The offset width the header's option bits select: bit 0 set means the
/// large layout with 8-byte offsets.
pub open spec fn spec_width_of(options: u8) -> Width {
    if options & 1 == 1 {
        Width::Large
    } else {
        Width::Small
    }
}

/// The image opens as a database: the header is valid, its fields respect
/// the format's bounds, and the derived offsets fit the machine word.
pub open spec fn loadable(s: Seq<u8>, e: Endian) -> bool {
    &&& header_valid(s)
    &&& s[34] < 64
    &&& word_at(s, 40, 8, e) >= 1
    &&& 256 + word_at(s, 40, 8, e) * spec_width_of(s[36]).spec_bytes() <= u64::MAX
    &&& s.len() + 0x2_0000_0000 <= u64::MAX
}

/// Opens a database image, reading its scalars in byte order `endian`.
pub fn load_with_endian(data: Vec<u8>, endian: Endian) -> (r: Result<TCHDB, TchdbError>)
    ensures
        match r {
            Ok(db) => {
                &&& loadable(data@, endian)
                &&& db.wf()
                &&& db.reader@ == data@
                &&& db.endian == endian
            },
            Err(e) => {
                ||| (e == TchdbError::Truncated && data@.len() < 256)
                ||| (e == TchdbError::InvalidHeader && data@.len() >= 256 && !loadable(
                    data@,
                    endian,
                ))
            },
        },
{
    let header = match parse_header(&data, endian) {
        Ok(h) => h,
        Err(e) => {
            return Err(e);
        },
    };
    if header.alignment_power >= 64 {
        return Err(TchdbError::InvalidHeader);
    }
    if header.bucket_number < 1 {
        return Err(TchdbError::InvalidHeader);
    }
    let width = if header.options & 1 == 1 {
        Width::Large
    } else {
        Width::Small
    };
    let wb = width.bytes();
    let bucket_space = match header.bucket_number.checked_mul(wb) {
        Some(v) => v,
        None => {
            return Err(TchdbError::InvalidHeader);
        },
    };
    if bucket_space > u64::MAX - 256 {
        return Err(TchdbError::InvalidHeader);
    }
    let len: u64 = data.len() as u64;
    if len > u64::MAX - 0x2_0000_0000 {
        return Err(TchdbError::InvalidHeader);
    }
    Ok(
        TCHDB {
            reader: MultiRead::new(data),
            endian,
            width,
            header,
            bucket_offset: 256,
            free_block_pool_offset: 256 + bucket_space,
        },
    )
}

} // verus!
