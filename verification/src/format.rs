//! The fixed structures of the file format: the 256-byte header, the
//! encoded record offsets, the bucket array and the free-block pool
//! entries.

use vstd::prelude::*;

use vstd::arithmetic::power2::pow2;

use crate::bytes::{copy_range, read_word_at, word_at, Endian};
use crate::vnum::VNum;
use crate::TchdbError;

verus! {

/// The thirteen magic bytes `ToKyO CaBiNeT` that open every database file.
pub open spec fn spec_magic() -> Seq<u8> {
    seq![84u8, 111u8, 75u8, 121u8, 79u8, 32u8, 67u8, 97u8, 66u8, 105u8, 78u8, 101u8, 84u8]
}

/// An image that carries the magic prefix spells out its thirteen bytes.
proof fn lemma_magic_bytes(s: Seq<u8>)
    requires
        s.len() >= 13,
        s.subrange(0, 13) == spec_magic(),
    ensures
        s[0] == 84,
        s[1] == 111,
        s[2] == 75,
        s[3] == 121,
        s[4] == 79,
        s[5] == 32,
        s[6] == 67,
        s[7] == 97,
        s[8] == 66,
        s[9] == 105,
        s[10] == 78,
        s[11] == 101,
        s[12] == 84,
{
    assert(forall|j: int| 0 <= j < 13 ==> s[j] == #[trigger] s.subrange(0, 13)[j]);
}

/// The fixed 256-byte preamble of the file.
#[derive(Debug, Clone)]
pub struct Header {
    /// The 32-byte magic region; its first 13 bytes spell `ToKyO CaBiNeT`.
    pub magic_number: Vec<u8>,
    /// Must be zero: only the hash database type is supported.
    pub database_type: u8,
    pub additional_flags: u8,
    /// Absolute record offsets are multiples of `2^alignment_power`.
    pub alignment_power: u8,
    /// Capacity hint for the free-block pool: `2^free_block_pool_power`.
    pub free_block_pool_power: u8,
    /// Bit 0 selects the large layout with 8-byte offsets.
    pub options: u8,
    pub bucket_number: u64,
    pub record_number: u64,
    pub file_size: u64,
    /// Absolute file offset of the first record-space entry.
    pub first_record: u64,
    /// The 128-byte application-defined region.
    pub opaque_region: Vec<u8>,
}

/// The image is long enough for a header, opens with the magic bytes, and
/// declares the hash database type.
pub open spec fn header_valid(s: Seq<u8>) -> bool {
    &&& s.len() >= 256
    &&& s.subrange(0, 13) == spec_magic()
    &&& s[32] == 0
}

/// `h` holds exactly the fields stored in the first 256 bytes of `s`,
/// read in byte order `e`.
pub open spec fn header_matches(h: Header, s: Seq<u8>, e: Endian) -> bool {
    &&& h.magic_number@ == s.subrange(0, 32)
    &&& h.database_type == s[32]
    &&& h.additional_flags == s[33]
    &&& h.alignment_power == s[34]
    &&& h.free_block_pool_power == s[35]
    &&& h.options == s[36]
    &&& h.bucket_number == word_at(s, 40, 8, e)
    &&& h.record_number == word_at(s, 48, 8, e)
    &&& h.file_size == word_at(s, 56, 8, e)
    &&& h.first_record == word_at(s, 64, 8, e)
    &&& h.opaque_region@ == s.subrange(128, 256)
}

/// Decodes the header at the front of the image: an image shorter than
/// 256 bytes is truncated, and a wrong magic string or database type is
/// an invalid header.
pub fn parse_header(data: &Vec<u8>, endian: Endian) -> (r: Result<Header, TchdbError>)
    ensures
        match r {
            Ok(h) => header_valid(data@) && header_matches(h, data@, endian),
            Err(e) => {
                ||| (e == TchdbError::Truncated && data@.len() < 256)
                ||| (e == TchdbError::InvalidHeader && data@.len() >= 256 && !header_valid(data@))
            },
        },
{
    if data.len() < 256 {
        return Err(TchdbError::Truncated);
    }
    let magic_ok = data[0] == 84 && data[1] == 111 && data[2] == 75 && data[3] == 121 && data[4]
        == 79 && data[5] == 32 && data[6] == 67 && data[7] == 97 && data[8] == 66 && data[9] == 105
        && data[10] == 78 && data[11] == 101 && data[12] == 84;
    proof {
        if magic_ok {
            assert(data@.subrange(0, 13) =~= spec_magic());
        } else if data@.subrange(0, 13) == spec_magic() {
            lemma_magic_bytes(data@);
            assert(false);
        }
    }
    if !magic_ok {
        return Err(TchdbError::InvalidHeader);
    }
    let database_type = data[32];
    if database_type != 0 {
        return Err(TchdbError::InvalidHeader);
    }
    let bucket_number = match read_word_at(data, 40, 8, endian) {
        Ok(v) => v,
        Err(e) => {
            return Err(e);
        },
    };
    let record_number = match read_word_at(data, 48, 8, endian) {
        Ok(v) => v,
        Err(e) => {
            return Err(e);
        },
    };
    let file_size = match read_word_at(data, 56, 8, endian) {
        Ok(v) => v,
        Err(e) => {
            return Err(e);
        },
    };
    let first_record = match read_word_at(data, 64, 8, endian) {
        Ok(v) => v,
        Err(e) => {
            return Err(e);
        },
    };
    Ok(
        Header {
            magic_number: copy_range(data, 0, 32),
            database_type,
            additional_flags: data[33],
            alignment_power: data[34],
            free_block_pool_power: data[35],
            options: data[36],
            bucket_number,
            record_number,
            file_size,
            first_record,
            opaque_region: copy_range(data, 128, 256),
        },
    )
}

/// An encoded record offset: the absolute byte offset divided by the
/// alignment, in 4 or 8 bytes depending on the layout. Zero marks an
/// empty bucket or a missing child.
#[derive(Clone, Copy, Debug, PartialEq, Eq, Structural)]
pub struct RecordOffset {
    pub value: u64,
}

impl RecordOffset {
    /// The absolute byte offset: the stored quotient shifted up by the
    /// alignment power.
    pub fn offset(&self, alignment_power: u8) -> (r: u64)
        requires
            alignment_power < 64,
        ensures
            r == self.value << alignment_power,
    {
        self.value << alignment_power
    }

    /// Whether this offset is the empty marker.
    pub fn is_empty(&self) -> (r: bool)
        ensures
            r == (self.value == 0),
    {
        self.value == 0
    }
}

/// Every absolute offset is a multiple of the alignment `2^a`; and as long
/// as the shifted value still fits the 64-bit word, the absolute offset is
/// zero exactly on the empty marker.
pub proof fn lemma_record_offset_alignment(v: u64, a: u8)
    requires
        a < 64,
    ensures
        (v << a) % (pow2(a as nat) as u64) == 0,
        v < pow2((64 - a) as nat) ==> (((v << a) == 0) <==> v == 0),
{
    vstd::bits::lemma_u64_pow2_no_overflow(a as nat);
    vstd::arithmetic::power2::lemma2_to64();
    assert(1u64 * pow2(a as nat) <= u64::MAX);
    vstd::bits::lemma_u64_shl_is_mul(1u64, a as u64);
    assert((1u64 << (a as u64)) == pow2(a as nat));
    assert((v << a) & ((((1u64 << (a as u64)) - 1)) as u64) == 0) by (bit_vector)
        requires
            a < 64,
    ;
    assert(vstd::bits::low_bits_mask(a as nat) == (((1u64 << (a as u64)) - 1)) as u64);
    vstd::bits::lemma_u64_low_bits_mask_is_mod(v << a, a as nat);
    if a == 0 {
        assert(v << 0u8 == v) by (bit_vector);
    } else if v < pow2((64 - a) as nat) {
        vstd::bits::lemma_u64_pow2_no_overflow((64 - a) as nat);
        assert(1u64 * pow2((64 - a) as nat) <= u64::MAX);
        vstd::bits::lemma_u64_shl_is_mul(1u64, (64 - a) as u64);
        assert((v << a) == 0 <==> v == 0) by (bit_vector)
            requires
                1 <= a < 64,
                v < (1u64 << ((64 - a) as u64)),
        ;
    }
}

/// The bucket array: one root offset per bucket, in file order.
#[derive(Debug, Clone)]
pub struct Buckets(pub Vec<RecordOffset>);

/// One entry of the free-block pool: two variable-length numbers, kept
/// verbatim as they stand in the file.
#[derive(Clone, Copy, Debug, PartialEq, Eq, Structural)]
pub struct FreeBlockPoolElement {
    pub offset: VNum,
    pub size: VNum,
}

/// A reclaimed region of the record space: its total size in bytes, and
/// the payload after the tag and size field.
#[derive(Debug, Clone)]
pub struct FreeBlock {
    pub block_size: u32,
    pub padding: Vec<u8>,
}

} // verus!
