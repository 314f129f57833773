//! Record-space entries: the records and free blocks that fill the file
//! between `first_record` and `file_size`.
//!
//! A record-space entry starts with a tag byte: `0xC8` opens a record,
//! `0xB0` opens a free block. The decoders here work at any absolute
//! position of the image and report exactly where the next entry starts.

use vstd::prelude::*;

use crate::bytes::{copy_range, read_word_at, word_at, Endian, Width};
use crate::format::{FreeBlock, RecordOffset};
use crate::multi_read::MultiRead;
use crate::vnum::{read_vnum, vnum_decode, vnum_len, VNum};
use crate::TchdbError;

verus! {

/// The tag byte that opens a record.
pub const RECORD_TAG: u8 = 0xc8;

/// The tag byte that opens a free block.
pub const FREE_BLOCK_TAG: u8 = 0xb0;

/// The decoded form of a record as the bytes of the image determine it.
pub struct RecModel {
    /// Position of the hash byte: one past the record's tag byte.
    pub offset: int,
    pub width: Width,
    pub hash_value: u8,
    /// Encoded offset of the left child in the bucket tree.
    pub left: u64,
    /// Encoded offset of the right child in the bucket tree.
    pub right: u64,
    pub padding_size: u16,
    pub key_size: u32,
    pub value_size: u32,
    /// The byte length the key-size number actually occupies in the file.
    pub ksz_len: int,
    /// The byte length the value-size number actually occupies in the file.
    pub vsz_len: int,
    pub key: Seq<u8>,
    /// Absolute position of the value bytes.
    pub value_off: int,
}

impl RecModel {
    /// Where the reader continues after this record: the arithmetic uses
    /// the canonical lengths of the two size numbers, exactly as the
    /// record's own next-record computation does.
    pub open spec fn next(self) -> int {
        self.offset + 1 + 2 * self.width.spec_bytes() + 2 + vnum_len(self.key_size as nat)
            + vnum_len(self.value_size as nat) + self.key_size + self.value_size
            + self.padding_size
    }

    /// The position one past the record's value and padding bytes.
    pub open spec fn stream_end(self) -> int {
        self.value_off + self.value_size + self.padding_size
    }

    /// The record's value bytes within the image `s`.
    pub open spec fn value_bytes(self, s: Seq<u8>) -> Seq<u8> {
        s.subrange(self.value_off, self.value_off + self.value_size)
    }
}

/// The decoded form of a free block.
pub struct FreeModel {
    /// Position of the free block's tag byte.
    pub offset: int,
    pub block_size: u32,
}

impl FreeModel {
    /// Where the reader continues: a free block spans `block_size` bytes
    /// from its tag.
    pub open spec fn next(self) -> int {
        self.offset + self.block_size
    }
}

/// What the bytes at a record-space position hold.
pub enum ParseOut {
    /// A well-formed record.
    Rec(RecModel),
    /// A well-formed free block.
    Free(FreeModel),
    /// The entry runs past the end of the image, or a free block declares
    /// a size smaller than its own tag and size field.
    Trunc,
    /// The tag byte is neither a record nor a free block.
    BadTag,
    /// A size field exceeds the 32-bit domain.
    TooBig,
}

/// Decodes the record-space entry whose tag byte stands at `pos`.
pub open spec fn parse_record_space(s: Seq<u8>, pos: int, w: Width, e: Endian) -> ParseOut {
    if pos < 0 || pos + 1 > s.len() {
        ParseOut::Trunc
    } else if s[pos] == RECORD_TAG {
        parse_record_body(s, pos + 1, w, e)
    } else if s[pos] == FREE_BLOCK_TAG {
        if pos + 5 > s.len() {
            ParseOut::Trunc
        } else {
            let bs = word_at(s, pos + 1, 4, e);
            if bs >= 5 && pos + bs <= s.len() {
                ParseOut::Free(FreeModel { offset: pos, block_size: bs as u32 })
            } else {
                ParseOut::Trunc
            }
        }
    } else {
        ParseOut::BadTag
    }
}

/// Decodes the body of a record whose hash byte stands at `p`.
pub open spec fn parse_record_body(s: Seq<u8>, p: int, w: Width, e: Endian) -> ParseOut {
    let wb = w.spec_bytes() as int;
    if p + 3 + 2 * wb > s.len() {
        ParseOut::Trunc
    } else {
        match vnum_decode(s.skip(p + 3 + 2 * wb)) {
            None => ParseOut::Trunc,
            Some((ks, kl)) => if ks > u32::MAX {
                ParseOut::TooBig
            } else {
                match vnum_decode(s.skip(p + 3 + 2 * wb + kl)) {
                    None => ParseOut::Trunc,
                    Some((vs, vl)) => if vs > u32::MAX {
                        ParseOut::TooBig
                    } else {
                        let key_pos = p + 3 + 2 * wb + kl + vl;
                        if key_pos + ks > s.len() {
                            ParseOut::Trunc
                        } else {
                            ParseOut::Rec(
                                RecModel {
                                    offset: p,
                                    width: w,
                                    hash_value: s[p],
                                    left: word_at(s, p + 1, w.spec_bytes(), e) as u64,
                                    right: word_at(s, p + 1 + wb, w.spec_bytes(), e) as u64,
                                    padding_size: word_at(s, p + 1 + 2 * wb, 2, e) as u16,
                                    key_size: ks as u32,
                                    value_size: vs as u32,
                                    ksz_len: kl as int,
                                    vsz_len: vl as int,
                                    key: s.subrange(key_pos, key_pos + ks),
                                    value_off: key_pos + ks,
                                },
                            )
                        }
                    },
                }
            },
        }
    }
}

/// A record's value: the raw bytes stored under the key.
#[derive(Debug)]
pub struct RecordValue(pub Vec<u8>);

impl View for RecordValue {
    type V = Seq<u8>;

    open spec fn view(&self) -> Seq<u8> {
        self.0@
    }
}

impl RecordValue {
    /// Releases the value bytes.
    pub fn into_value(self) -> (r: Vec<u8>)
        ensures
            r@ == self@,
    {
        self.0
    }
}

/// A record's value, either still sitting in the image or already
/// materialized.
#[derive(Debug)]
pub enum Lazy {
    /// The value's position and length in the image.
    Unread { offset: u64, size: u32 },
    /// The value bytes themselves.
    Read(RecordValue),
}

impl Lazy {
    /// Materializes the value bytes out of the image, if they were not
    /// read yet.
    pub fn read_value(&mut self, reader: &MultiRead) -> (r: Result<(), TchdbError>)
        ensures
            match *old(self) {
                Lazy::Read(_) => r is Ok && *final(self) == *old(self),
                Lazy::Unread { offset, size } => if offset + size <= reader@.len() {
                    r is Ok && (*final(self) matches Lazy::Read(v) && v@ == reader@.subrange(
                        offset as int,
                        offset + size,
                    ))
                } else {
                    r == Err::<(), TchdbError>(TchdbError::Truncated) && *final(self) == *old(self)
                },
            },
    {
        match self {
            Lazy::Read(_) => Ok(()),
            Lazy::Unread { offset, size } => {
                let o: u64 = *offset;
                let sz: u64 = *size as u64;
                let len: u64 = reader.bytes.len() as u64;
                if o > len || sz > len - o {
                    return Err(TchdbError::Truncated);
                }
                let v = copy_range(&reader.bytes, o, o + sz);
                *self = Lazy::Read(RecordValue(v));
                Ok(())
            },
        }
    }

    /// Takes the materialized value; the value must have been read.
    pub fn into_value(self) -> (r: RecordValue)
        requires
            self matches Lazy::Read(_),
        ensures
            self matches Lazy::Read(v) && r == v,
    {
        match self {
            Lazy::Read(v) => v,
            Lazy::Unread { .. } => vstd::pervasive::unreached(),
        }
    }
}

/// One record of the database: the tree metadata, the key, and the value
/// handle.
#[derive(Debug)]
pub struct Record {
    /// Position of the hash byte: one past the record's tag byte.
    pub offset: u64,
    /// The offset width the record was decoded with.
    pub width: Width,
    /// The low 8 bits of the key's secondary hash.
    pub hash_value: u8,
    pub left_chain: RecordOffset,
    pub right_chain: RecordOffset,
    pub padding_size: u16,
    pub key_size: VNum,
    pub value_size: VNum,
    pub key: Vec<u8>,
    pub value: Lazy,
}

impl Record {
    /// The absolute position of the next record-space entry, computed
    /// from the record's own fields without rereading the image.
    pub fn next_record(&self) -> (r: u64)
        requires
            self.offset + 29 + self.key_size.0 + self.value_size.0 + self.padding_size
                <= u64::MAX,
        ensures
            r == self.offset + 1 + 2 * self.width.spec_bytes() + 2 + vnum_len(
                self.key_size.0 as nat,
            ) + vnum_len(self.value_size.0 as nat) + self.key_size.0 + self.value_size.0
                + self.padding_size,
    {
        proof {
            crate::vnum::lemma_vnum_len_le_5(self.key_size.0 as nat);
            crate::vnum::lemma_vnum_len_le_5(self.value_size.0 as nat);
        }
        let w: u64 = self.width.bytes();
        self.offset + 1 + w * 2 + 2 + (self.key_size.size() as u64) + (self.value_size.size()
            as u64) + (self.key_size.0 as u64) + (self.value_size.0 as u64) + (self.padding_size
            as u64)
    }
}

/// A record-space entry: either a record or a free block.
#[derive(Debug)]
pub enum RecordSpace {
    Record(Record),
    FreeBlock(FreeBlock),
}

/// The record `rec` holds exactly the fields of the model `m`, with its
/// value materialized from `s` or left as a handle, as `read_value` asked.
pub open spec fn rec_matches(rec: Record, m: RecModel, s: Seq<u8>, read_value: bool) -> bool {
    &&& rec.offset == m.offset
    &&& rec.width == m.width
    &&& rec.hash_value == m.hash_value
    &&& rec.left_chain.value == m.left
    &&& rec.right_chain.value == m.right
    &&& rec.padding_size == m.padding_size
    &&& rec.key_size == VNum(m.key_size)
    &&& rec.value_size == VNum(m.value_size)
    &&& rec.key@ == m.key
    &&& if read_value {
        rec.value matches Lazy::Read(v) && v@ == m.value_bytes(s)
    } else {
        rec.value matches Lazy::Unread { offset, size } && offset == m.value_off && size
            == m.value_size
    }
}

/// The free block `fb` holds exactly the fields of the model `f`.
pub open spec fn free_matches(fb: FreeBlock, f: FreeModel, s: Seq<u8>) -> bool {
    &&& fb.block_size == f.block_size
    &&& fb.padding@ == s.subrange(f.offset + 5, f.next())
}

/// Decodes the record-space entry at `pos`, materializing the value bytes
/// when `read_value` asks for them.
pub(crate) fn parse_record_space_at(
    data: &Vec<u8>,
    pos: u64,
    width: Width,
    endian: Endian,
    read_value: bool,
) -> (r: Result<RecordSpace, TchdbError>)
    ensures
        match parse_record_space(data@, pos as int, width, endian) {
            ParseOut::Rec(m) => if read_value && m.value_off + m.value_size > data@.len() {
                r == Err::<RecordSpace, TchdbError>(TchdbError::Truncated)
            } else {
                match r {
                    Ok(RecordSpace::Record(rec)) => rec_matches(rec, m, data@, read_value),
                    _ => false,
                }
            },
            ParseOut::Free(f) => match r {
                Ok(RecordSpace::FreeBlock(fb)) => free_matches(fb, f, data@),
                _ => false,
            },
            ParseOut::Trunc => r == Err::<RecordSpace, TchdbError>(TchdbError::Truncated),
            ParseOut::BadTag => r == Err::<RecordSpace, TchdbError>(TchdbError::UnknownTag),
            ParseOut::TooBig => r == Err::<RecordSpace, TchdbError>(TchdbError::VnumOverflow),
        },
{
    let len: u64 = data.len() as u64;
    if pos >= len {
        return Err(TchdbError::Truncated);
    }
    let tag = data[pos as usize];
    if tag == RECORD_TAG {
        parse_record_at(data, pos + 1, width, endian, read_value)
    } else if tag == FREE_BLOCK_TAG {
        if len - pos < 5 {
            return Err(TchdbError::Truncated);
        }
        let bs = match read_word_at(data, pos + 1, 4, endian) {
            Ok(v) => v,
            Err(e) => {
                return Err(e);
            },
        };
        proof {
            crate::bytes::lemma_word_at_bound(data@, pos + 1, 4, endian);
            vstd::arithmetic::power2::lemma2_to64();
        }
        if bs < 5 || bs > len - pos {
            return Err(TchdbError::Truncated);
        }
        let padding = copy_range(data, pos + 5, pos + bs);
        Ok(RecordSpace::FreeBlock(FreeBlock { block_size: bs as u32, padding }))
    } else {
        Err(TchdbError::UnknownTag)
    }
}

/// Decodes the body of a record whose hash byte stands at `p`.
fn parse_record_at(data: &Vec<u8>, p: u64, width: Width, endian: Endian, read_value: bool) -> (r:
    Result<RecordSpace, TchdbError>)
    requires
        p >= 1,
        p <= data@.len(),
    ensures
        match parse_record_body(data@, p as int, width, endian) {
            ParseOut::Rec(m) => if read_value && m.value_off + m.value_size > data@.len() {
                r == Err::<RecordSpace, TchdbError>(TchdbError::Truncated)
            } else {
                match r {
                    Ok(RecordSpace::Record(rec)) => rec_matches(rec, m, data@, read_value),
                    _ => false,
                }
            },
            ParseOut::Free(_) => false,
            ParseOut::Trunc => r == Err::<RecordSpace, TchdbError>(TchdbError::Truncated),
            ParseOut::BadTag => false,
            ParseOut::TooBig => r == Err::<RecordSpace, TchdbError>(TchdbError::VnumOverflow),
        },
{
    let len: u64 = data.len() as u64;
    let wb: u64 = width.bytes();
    if len < 3 + 2 * wb || p > len - (3 + 2 * wb) {
        return Err(TchdbError::Truncated);
    }
    let hash_value = data[p as usize];
    let left = match read_word_at(data, p + 1, wb, endian) {
        Ok(v) => v,
        Err(e) => {
            return Err(e);
        },
    };
    let right = match read_word_at(data, p + 1 + wb, wb, endian) {
        Ok(v) => v,
        Err(e) => {
            return Err(e);
        },
    };
    let ps64 = match read_word_at(data, p + 1 + 2 * wb, 2, endian) {
        Ok(v) => v,
        Err(e) => {
            return Err(e);
        },
    };
    proof {
        crate::bytes::lemma_word_at_bound(data@, p + 1 + 2 * wb, 2, endian);
        vstd::arithmetic::power2::lemma2_to64();
    }
    let padding_size: u16 = ps64 as u16;
    let q: u64 = p + 3 + 2 * wb;
    let (key_size, kl) = match read_vnum(data, q) {
        Ok(v) => v,
        Err(e) => {
            return Err(e);
        },
    };
    proof {
        crate::vnum::lemma_vnum_decode_lens(data@.skip(q as int));
    }
    let (value_size, vl) = match read_vnum(data, q + kl) {
        Ok(v) => v,
        Err(e) => {
            return Err(e);
        },
    };
    proof {
        crate::vnum::lemma_vnum_decode_lens(data@.skip(q + kl));
    }
    let key_pos: u64 = q + kl + vl;
    if (key_size as u64) > len - key_pos {
        return Err(TchdbError::Truncated);
    }
    let key = copy_range(data, key_pos, key_pos + key_size as u64);
    let value_off: u64 = key_pos + key_size as u64;
    let value = if read_value {
        if (value_size as u64) > len - value_off {
            return Err(TchdbError::Truncated);
        }
        Lazy::Read(RecordValue(copy_range(data, value_off, value_off + value_size as u64)))
    } else {
        Lazy::Unread { offset: value_off, size: value_size }
    };
    Ok(
        RecordSpace::Record(
            Record {
                offset: p,
                width,
                hash_value,
                left_chain: RecordOffset { value: left },
                right_chain: RecordOffset { value: right },
                padding_size,
                key_size: VNum(key_size),
                value_size: VNum(value_size),
                key,
                value,
            },
        ),
    )
}

/// A decoded record's positions all lie within one word of the image
/// length, and its next-entry position advances past the tag.
pub proof fn lemma_rec_next_bound(s: Seq<u8>, pos: int, w: Width, e: Endian, m: RecModel)
    requires
        parse_record_space(s, pos, w, e) == ParseOut::Rec(m),
    ensures
        m.offset == pos + 1,
        m.next() >= pos + 14,
        m.next() <= s.len() + 0x2_0000_0000,
        m.offset + 29 + m.key_size + m.value_size + m.padding_size <= s.len() + 0x2_0000_0000,
        0 <= m.value_off <= s.len(),
{
    crate::vnum::lemma_vnum_len_le_5(m.key_size as nat);
    crate::vnum::lemma_vnum_len_le_5(m.value_size as nat);
    crate::vnum::lemma_vnum_decode_lens(s.skip(m.offset + 3 + 2 * w.spec_bytes()));
    crate::vnum::lemma_vnum_decode_lens(
        s.skip(m.offset + 3 + 2 * w.spec_bytes() + m.ksz_len),
    );
}

/// The computed next-record offset equals the position immediately after
/// the record's value and padding, whenever the record's two size numbers
/// stand in the file in their canonical encodings.
pub proof fn lemma_record_next_matches_stream_end(
    s: Seq<u8>,
    pos: int,
    w: Width,
    e: Endian,
    m: RecModel,
)
    requires
        parse_record_space(s, pos, w, e) == ParseOut::Rec(m),
        m.ksz_len == 1 || s[m.offset + 3 + 2 * w.spec_bytes() + m.ksz_len - 1] != 0,
        m.vsz_len == 1 || s[m.offset + 3 + 2 * w.spec_bytes() + m.ksz_len + m.vsz_len - 1] != 0,
    ensures
        m.next() == m.stream_end(),
{
    let q = m.offset + 3 + 2 * w.spec_bytes();
    let tk = s.skip(q);
    let tv = s.skip(q + m.ksz_len);
    assert(vnum_decode(tk) == Some((m.key_size as nat, m.ksz_len as nat)));
    assert(vnum_decode(tv) == Some((m.value_size as nat, m.vsz_len as nat)));
    crate::vnum::lemma_vnum_decode_lens(tk);
    crate::vnum::lemma_vnum_decode_lens(tv);
    assert(tk[m.ksz_len - 1] == s[q + m.ksz_len - 1]);
    assert(tv[m.vsz_len - 1] == s[q + m.ksz_len + m.vsz_len - 1]);
    crate::vnum::lemma_vnum_decode_encode(tk, m.key_size as nat, m.ksz_len as nat);
    crate::vnum::lemma_vnum_decode_encode(tv, m.value_size as nat, m.vsz_len as nat);
}

} // verus!
