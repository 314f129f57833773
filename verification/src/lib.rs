//! A read-only reader for Tokyo Cabinet hash database files.
//!
//! The reader works on an in-memory image of the database file. It decodes
//! the fixed header, the bucket array, the free-block pool and the record
//! region, performs keyed lookups over the per-bucket binary search trees,
//! and exposes a forward scan over all record-space entries.

use vstd::prelude::*;

pub mod bytes;
pub mod vnum;
pub mod multi_read;
pub mod format;
pub mod record;
pub mod load;
pub mod tree;

use crate::bytes::{word_at, Endian, Width};
use crate::format::{header_matches, header_valid, Buckets, FreeBlockPoolElement, RecordOffset};
use crate::format::Header;
use crate::multi_read::MultiRead;
use crate::record::{
    parse_record_space, parse_record_space_at, rec_matches, FreeModel, ParseOut, RecModel,
    Record, RecordSpace,
};
use crate::vnum::{vnum_decode, VNum};
use vstd::string::{StrSliceExecFns, StringSliceAdditionalSpecFns};

verus! {

/// The failures a reader can report.
#[derive(Clone, Copy, Debug, PartialEq, Eq, Structural)]
pub enum TchdbError {
    /// The magic string or the database type is wrong, or a header field
    /// violates the format's invariants.
    InvalidHeader,
    /// The file ended in the middle of a structure.
    Truncated,
    /// A record-space position held a tag other than a record or a free block.
    UnknownTag,
    /// A bucket-tree traversal found a free block where a record must stand.
    UnexpectedFreeBlockInTree,
    /// A chain walk ran longer than any well-formed tree in this file allows,
    /// so the chain pointers must form a cycle.
    CyclicBucketTree,
    /// A variable-length integer encoded a value above the 32-bit domain.
    VnumOverflow,
}

/// A key together with its two hashes: the bucket index and the secondary
/// hash compared inside the bucket's tree.
#[derive(Debug)]
pub struct KeyWithHash {
    pub key: Vec<u8>,
    pub idx: u64,
    pub hash: u8,
}

/// One step of the bucket-index hash: multiply by 37 and add the byte,
/// wrapping at 64 bits.
pub open spec fn bucket_idx_step(acc: u64, b: u8) -> u64 {
    acc.wrapping_mul(37).wrapping_add(b as u64)
}

/// Folds the bucket-index hash over `key`, front to back.
pub open spec fn bucket_idx_acc(key: Seq<u8>, acc: u64) -> u64
    decreases key.len(),
{
    if key.len() == 0 {
        acc
    } else {
        bucket_idx_acc(key.skip(1), bucket_idx_step(acc, key[0]))
    }
}

/// The bucket a key belongs to: the seeded byte fold, reduced modulo the
/// bucket count.
pub open spec fn spec_bucket_idx(key: Seq<u8>, bucket_number: u64) -> u64
    recommends
        bucket_number >= 1,
{
    bucket_idx_acc(key, 19780211u64) % bucket_number
}

/// One step of the secondary hash: multiply by 31 and fold the byte in by
/// exclusive or, wrapping at 32 bits.
pub open spec fn sec_hash_step(acc: u32, b: u8) -> u32 {
    acc.wrapping_mul(31) ^ (b as u32)
}

/// Folds the secondary hash over `key`, back to front.
pub open spec fn sec_hash_acc(key: Seq<u8>, acc: u32) -> u32
    decreases key.len(),
{
    if key.len() == 0 {
        acc
    } else {
        sec_hash_acc(key.take(key.len() - 1), sec_hash_step(acc, key[key.len() - 1]))
    }
}

/// The secondary hash of a key: the low 8 bits of the seeded reverse fold.
pub open spec fn spec_secondary_hash(key: Seq<u8>) -> u8 {
    sec_hash_acc(key, 751u32) as u8
}

/// `a` precedes `b` in lexicographic order over unsigned bytes.
pub open spec fn lex_less(a: Seq<u8>, b: Seq<u8>) -> bool
    decreases b.len(),
{
    if b.len() == 0 {
        false
    } else if a.len() == 0 {
        true
    } else if a[0] < b[0] {
        true
    } else if a[0] > b[0] {
        false
    } else {
        lex_less(a.skip(1), b.skip(1))
    }
}

/// Equal prefixes do not influence the lexicographic order.
proof fn lemma_lex_skip(a: Seq<u8>, b: Seq<u8>, i: int)
    requires
        0 <= i <= a.len(),
        i <= b.len(),
        a.subrange(0, i) == b.subrange(0, i),
    ensures
        lex_less(a, b) == lex_less(a.skip(i), b.skip(i)),
    decreases i,
{
    if i > 0 {
        assert(a.subrange(0, i)[0] == a[0] && b.subrange(0, i)[0] == b[0]);
        assert(a.skip(1).subrange(0, i - 1) =~= a.subrange(0, i).subrange(1, i));
        assert(b.skip(1).subrange(0, i - 1) =~= b.subrange(0, i).subrange(1, i));
        lemma_lex_skip(a.skip(1), b.skip(1), i - 1);
        assert(a.skip(1).skip(i - 1) =~= a.skip(i));
        assert(b.skip(1).skip(i - 1) =~= b.skip(i));
        assert(b.len() > 0 && a.len() > 0 && a[0] == b[0]);
        assert(lex_less(a, b) == lex_less(a.skip(1), b.skip(1)));
    } else {
        assert(a.skip(0) =~= a);
        assert(b.skip(0) =~= b);
    }
}

/// The order of two byte keys.
#[derive(Clone, Copy, Debug, PartialEq, Eq, Structural)]
pub(crate) enum KeyCmp {
    Less,
    Equal,
    Greater,
}

/// Compares two byte keys lexicographically over unsigned bytes.
pub(crate) fn compare_bytes(a: &Vec<u8>, b: &Vec<u8>) -> (r: KeyCmp)
    ensures
        r == KeyCmp::Less <==> lex_less(a@, b@),
        r == KeyCmp::Greater <==> lex_less(b@, a@),
        r == KeyCmp::Equal <==> a@ == b@,
{
    let alen = a.len();
    let blen = b.len();
    let mut i: usize = 0;
    while i < alen && i < blen
        invariant
            alen == a@.len(),
            blen == b@.len(),
            0 <= i <= alen,
            i <= blen,
            a@.subrange(0, i as int) =~= b@.subrange(0, i as int),
        decreases alen - i,
    {
        let x = a[i];
        let y = b[i];
        proof {
            lemma_lex_skip(a@, b@, i as int);
            lemma_lex_skip(b@, a@, i as int);
        }
        if x < y {
            proof {
                assert(lex_less(a@.skip(i as int), b@.skip(i as int)));
                assert(!lex_less(b@.skip(i as int), a@.skip(i as int)));
                assert(a@[i as int] != b@[i as int]);
                assert(a@ != b@);
            }
            return KeyCmp::Less;
        }
        if x > y {
            proof {
                assert(lex_less(b@.skip(i as int), a@.skip(i as int)));
                assert(!lex_less(a@.skip(i as int), b@.skip(i as int)));
                assert(a@[i as int] != b@[i as int]);
                assert(a@ != b@);
            }
            return KeyCmp::Greater;
        }
        proof {
            assert(a@.subrange(0, i + 1) =~= b@.subrange(0, i + 1));
        }
        i = i + 1;
    }
    proof {
        lemma_lex_skip(a@, b@, i as int);
        lemma_lex_skip(b@, a@, i as int);
    }
    if alen == blen {
        proof {
            assert(a@.subrange(0, i as int) =~= a@);
            assert(b@.subrange(0, i as int) =~= b@);
            assert(a@ == b@);
            assert(!lex_less(a@.skip(i as int), b@.skip(i as int)));
        }
        KeyCmp::Equal
    } else if alen < blen {
        proof {
            assert(a@.skip(i as int).len() == 0 && b@.skip(i as int).len() > 0);
            assert(lex_less(a@.skip(i as int), b@.skip(i as int)));
            assert(a@.len() != b@.len() && a@ != b@);
        }
        KeyCmp::Less
    } else {
        proof {
            assert(b@.skip(i as int).len() == 0 && a@.skip(i as int).len() > 0);
            assert(lex_less(b@.skip(i as int), a@.skip(i as int)));
            assert(a@.len() != b@.len() && a@ != b@);
        }
        KeyCmp::Greater
    }
}

/// An exclusive reader over one database image.
pub struct TCHDB {
    pub reader: MultiRead,
    pub endian: Endian,
    pub width: Width,
    pub header: Header,
    /// Where the bucket array starts; the format fixes it at 256.
    pub bucket_offset: u64,
    /// Where the free-block pool starts: right after the bucket array.
    pub free_block_pool_offset: u64,
}

impl TCHDB {
    /// The reader agrees with its image: the header fields are the ones
    /// stored in the image, the derived offsets and the offset width
    /// follow them, and the format's bounds on the header hold. The
    /// image also leaves enough headroom below the word limit that every
    /// next-entry position a record can declare still fits the word.
    pub open spec fn wf(self) -> bool {
        &&& header_valid(self.reader@)
        &&& header_matches(self.header, self.reader@, self.endian)
        &&& self.header.alignment_power < 64
        &&& self.header.bucket_number >= 1
        &&& self.width == load::spec_width_of(self.header.options)
        &&& self.bucket_offset == 256
        &&& 256 + self.header.bucket_number * self.width.spec_bytes() <= u64::MAX
        &&& self.free_block_pool_offset == 256 + self.header.bucket_number
            * self.width.spec_bytes()
        &&& self.reader@.len() + 0x2_0000_0000 <= u64::MAX
    }

    /// The root offset stored in bucket `idx`, as the image holds it.
    pub open spec fn spec_bucket_root(self, idx: u64) -> u64 {
        word_at(
            self.reader@,
            256 + idx * self.width.spec_bytes(),
            self.width.spec_bytes(),
            self.endian,
        ) as u64
    }

    /// Bucket `idx` lies inside the image.
    pub open spec fn bucket_in_range(self, idx: u64) -> bool {
        256 + (idx + 1) * self.width.spec_bytes() <= self.reader@.len()
    }

    /// The step budget for chain walks: one more than the file size, so
    /// that only a cyclic chain can exhaust it.
    pub open spec fn walk_fuel(self) -> nat {
        if self.header.file_size == u64::MAX {
            u64::MAX as nat
        } else {
            (self.header.file_size + 1) as nat
        }
    }

    /// Computes the bucket index and secondary hash of a key.
    pub fn hash(&self, key: &Vec<u8>) -> (r: KeyWithHash)
        requires
            self.wf(),
        ensures
            r.key@ == key@,
            r.idx == spec_bucket_idx(key@, self.header.bucket_number),
            r.idx < self.header.bucket_number,
            r.hash == spec_secondary_hash(key@),
    {
        let n = key.len();
        let mut idx: u64 = 19780211;
        let mut i: usize = 0;
        proof {
            assert(key@.skip(0) =~= key@);
        }
        while i < n
            invariant
                n == key@.len(),
                0 <= i <= n,
                bucket_idx_acc(key@, 19780211u64) == bucket_idx_acc(key@.skip(i as int), idx),
            decreases n - i,
        {
            let b = key[i];
            proof {
                assert(key@.skip(i as int)[0] == key@[i as int]);
                assert(key@.skip(i as int).skip(1) =~= key@.skip(i + 1));
            }
            idx = idx.wrapping_mul(37).wrapping_add(b as u64);
            i = i + 1;
        }
        proof {
            assert(key@.skip(n as int).len() == 0);
        }
        idx = idx % self.header.bucket_number;

        let mut hash: u32 = 751;
        let mut j: usize = n;
        proof {
            assert(key@.take(n as int) =~= key@);
        }
        while j > 0
            invariant
                n == key@.len(),
                0 <= j <= n,
                sec_hash_acc(key@, 751u32) == sec_hash_acc(key@.take(j as int), hash),
            decreases j,
        {
            j = j - 1;
            let b = key[j];
            proof {
                let t = key@.take(j + 1);
                assert(t.len() == j + 1 && t[j as int] == key@[j as int]);
                assert(t.take(t.len() - 1) =~= key@.take(j as int));
            }
            hash = hash.wrapping_mul(31) ^ (b as u32);
        }
        proof {
            assert(key@.take(0).len() == 0);
        }
        KeyWithHash {
            key: bytes::copy_range(key, 0, n as u64),
            idx,
            hash: #[verifier::truncate] (hash as u8),
        }
    }

    /// Reads the root offset of bucket `idx` out of the bucket array.
    fn read_bucket(&self, idx: u64) -> (r: Result<RecordOffset, TchdbError>)
        requires
            self.wf(),
            idx < self.header.bucket_number,
        ensures
            match r {
                Ok(o) => self.bucket_in_range(idx) && o.value == self.spec_bucket_root(idx),
                Err(e) => e == TchdbError::Truncated && !self.bucket_in_range(idx),
            },
    {
        let wb = self.width.bytes();
        proof {
            vstd::arithmetic::mul::lemma_mul_inequality(
                idx + 1,
                self.header.bucket_number as int,
                wb as int,
            );
            vstd::arithmetic::mul::lemma_mul_is_distributive_add(
                wb as int,
                idx as int,
                1,
            );
        }
        let pos = self.bucket_offset + wb * idx;
        match bytes::read_word_at(&self.reader.bytes, pos, wb, self.endian) {
            Ok(v) => Ok(RecordOffset { value: v }),
            Err(e) => Err(e),
        }
    }

    /// Reads the whole bucket array: one root offset per bucket.
    pub fn read_buckets(&self) -> (r: Result<Buckets, TchdbError>)
        requires
            self.wf(),
        ensures
            match r {
                Ok(b) => {
                    &&& self.free_block_pool_offset <= self.reader@.len()
                    &&& b.0.len() == self.header.bucket_number
                    &&& forall|i: int|
                        0 <= i < b.0.len() ==> b.0[i].value == self.spec_bucket_root(i as u64)
                },
                Err(e) => e == TchdbError::Truncated && self.free_block_pool_offset
                    > self.reader@.len(),
            },
    {
        let wb = self.width.bytes();
        let bn = self.header.bucket_number;
        let len: u64 = self.reader.len() as u64;
        if self.free_block_pool_offset > len {
            return Err(TchdbError::Truncated);
        }
        let mut out: Vec<RecordOffset> = Vec::new();
        let mut i: u64 = 0;
        proof {
            vstd::arithmetic::mul::lemma_mul_inequality(1, wb as int, bn as int);
        }
        while i < bn
            invariant
                self.wf(),
                wb == self.width.spec_bytes(),
                bn == self.header.bucket_number,
                len == self.reader@.len(),
                256 + bn * wb <= len,
                0 <= i <= bn,
                out@.len() == i,
                forall|j: int| 0 <= j < i ==> out@[j].value == self.spec_bucket_root(j as u64),
            decreases bn - i,
        {
            proof {
                vstd::arithmetic::mul::lemma_mul_inequality(i + 1, bn as int, wb as int);
                vstd::arithmetic::mul::lemma_mul_is_distributive_add(wb as int, i as int, 1);
            }
            let pos = self.bucket_offset + wb * i;
            let v = match bytes::read_word_at(&self.reader.bytes, pos, wb, self.endian) {
                Ok(v) => v,
                Err(_) => {
                    proof {
                        assert(false);
                    }
                    return Err(TchdbError::Truncated);
                },
            };
            out.push(RecordOffset { value: v });
            i = i + 1;
        }
        Ok(Buckets(out))
    }

    /// Reads the free-block pool: variable-length number pairs up to the
    /// first all-zero pair, returned verbatim.
    pub fn read_free_block_pool(&self) -> (r: Result<Vec<FreeBlockPoolElement>, TchdbError>)
        requires
            self.wf(),
        ensures
            match pool_walk(self.reader@, self.free_block_pool_offset as int) {
                PoolOut::Done(es) => r matches Ok(v) && v@ == es,
                PoolOut::Trunc => r == Err::<Vec<FreeBlockPoolElement>, TchdbError>(
                    TchdbError::Truncated,
                ),
                PoolOut::TooBig => r == Err::<Vec<FreeBlockPoolElement>, TchdbError>(
                    TchdbError::VnumOverflow,
                ),
            },
    {
        let ghost s = self.reader@;
        let ghost p0 = self.free_block_pool_offset as int;
        let len: u64 = self.reader.len() as u64;
        if self.free_block_pool_offset > len {
            return Err(TchdbError::Truncated);
        }
        let mut pool: Vec<FreeBlockPoolElement> = Vec::new();
        let mut pos: u64 = self.free_block_pool_offset;
        loop
            invariant
                self.wf(),
                s == self.reader@,
                p0 == self.free_block_pool_offset as int,
                pos <= s.len(),
                match pool_walk(s, pos as int) {
                    PoolOut::Done(rest) => pool_walk(s, p0) == PoolOut::Done(pool@ + rest),
                    other => pool_walk(s, p0) == other,
                },
            decreases s.len() - pos,
        {
            let (o, ol) = match vnum::read_vnum(&self.reader.bytes, pos) {
                Ok(v) => v,
                Err(e) => {
                    proof {
                        match vnum_decode(s.skip(pos as int)) {
                            None => {
                                assert(pool_walk(s, pos as int) == PoolOut::Trunc);
                            },
                            Some((o2, ol2)) => {
                                assert(o2 > u32::MAX);
                                assert(pool_walk(s, pos as int) == PoolOut::TooBig);
                            },
                        }
                    }
                    return Err(e);
                },
            };
            proof {
                vnum::lemma_vnum_decode_lens(s.skip(pos as int));
            }
            let (sz, sl) = match vnum::read_vnum(&self.reader.bytes, pos + ol) {
                Ok(v) => v,
                Err(e) => {
                    proof {
                        match vnum_decode(s.skip(pos + ol)) {
                            None => {
                                assert(pool_walk(s, pos as int) == PoolOut::Trunc);
                            },
                            Some((s2, sl2)) => {
                                assert(s2 > u32::MAX);
                                assert(pool_walk(s, pos as int) == PoolOut::TooBig);
                            },
                        }
                    }
                    return Err(e);
                },
            };
            proof {
                vnum::lemma_vnum_decode_lens(s.skip(pos + ol));
            }
            if o == 0 && sz == 0 {
                proof {
                    assert(pool@ + Seq::<FreeBlockPoolElement>::empty() =~= pool@);
                }
                return Ok(pool);
            }
            let ghost pre = pool@;
            let elem = FreeBlockPoolElement { offset: VNum(o), size: VNum(sz) };
            pool.push(elem);
            proof {
                match pool_walk(s, (pos + ol + sl) as int) {
                    PoolOut::Done(rest) => {
                        assert(pre + (seq![elem] + rest) =~= pool@ + rest);
                    },
                    _ => {},
                }
            }
            pos = pos + ol + sl;
        }
    }
}

/// What the free-block pool region holds: the entries up to the first
/// all-zero pair, or the failure that cuts the list short.
pub enum PoolOut {
    Done(Seq<FreeBlockPoolElement>),
    Trunc,
    TooBig,
}

/// Decodes the free-block pool starting at `pos`.
pub open spec fn pool_walk(s: Seq<u8>, pos: int) -> PoolOut
    decreases s.len() - pos
        via pool_walk_dec
{
    if pos < 0 || pos > s.len() {
        PoolOut::Trunc
    } else {
        match vnum_decode(s.skip(pos)) {
            None => PoolOut::Trunc,
            Some((o, ol)) => if o > u32::MAX {
                PoolOut::TooBig
            } else {
                match vnum_decode(s.skip(pos + ol)) {
                    None => PoolOut::Trunc,
                    Some((sz, sl)) => if sz > u32::MAX {
                        PoolOut::TooBig
                    } else if o == 0 && sz == 0 {
                        PoolOut::Done(Seq::empty())
                    } else {
                        match pool_walk(s, pos + ol + sl) {
                            PoolOut::Done(rest) => PoolOut::Done(
                                seq![
                                    FreeBlockPoolElement {
                                        offset: VNum(o as u32),
                                        size: VNum(sz as u32),
                                    },
                                ] + rest,
                            ),
                            other => other,
                        }
                    },
                }
            },
        }
    }
}

#[via_fn]
proof fn pool_walk_dec(s: Seq<u8>, pos: int) {
    if 0 <= pos <= s.len() {
        vnum::lemma_vnum_decode_lens(s.skip(pos));
        match vnum_decode(s.skip(pos)) {
            Some((o, ol)) => {
                vnum::lemma_vnum_decode_lens(s.skip(pos + ol));
            },
            None => {},
        }
    }
}

/// How a chain walk through a bucket tree ended.
pub enum LookupEnd {
    /// The key was found: the last visited record holds it.
    Found,
    /// An empty chain ended the walk: the key is absent.
    NotFound,
    /// A free block stood on the path: treated as a miss.
    FreeBlockHit,
    /// A record on the path ran past the end of the image.
    Trunc,
    /// A position on the path held an unknown tag.
    BadTag,
    /// A record on the path declared a size above the 32-bit domain.
    TooBig,
    /// The walk exhausted its step budget: the chain must be cyclic.
    DepthLimit,
}

/// The record `m` holds the key being looked up.
pub open spec fn is_match(m: RecModel, khash: u8, key: Seq<u8>) -> bool {
    khash == m.hash_value && key == m.key
}

/// The child chain the walk descends to from record `m`: a greater hash,
/// or an equal hash with a greater key, goes left; a smaller one goes
/// right.
pub open spec fn child_of(m: RecModel, khash: u8, key: Seq<u8>) -> u64 {
    if khash > m.hash_value {
        m.left
    } else if khash < m.hash_value {
        m.right
    } else if lex_less(m.key, key) {
        m.left
    } else {
        m.right
    }
}

/// The deterministic walk a lookup takes through a bucket tree: the
/// records it visits in order, and how it ends.
pub open spec fn lookup_walk(
    s: Seq<u8>,
    w: Width,
    e: Endian,
    ap: u8,
    off: u64,
    khash: u8,
    key: Seq<u8>,
    fuel: nat,
) -> (Seq<RecModel>, LookupEnd)
    decreases fuel,
{
    if off == 0 {
        (Seq::empty(), LookupEnd::NotFound)
    } else if fuel == 0 {
        (Seq::empty(), LookupEnd::DepthLimit)
    } else {
        match parse_record_space(s, (off << ap) as int, w, e) {
            ParseOut::Free(_) => (Seq::empty(), LookupEnd::FreeBlockHit),
            ParseOut::Trunc => (Seq::empty(), LookupEnd::Trunc),
            ParseOut::BadTag => (Seq::empty(), LookupEnd::BadTag),
            ParseOut::TooBig => (Seq::empty(), LookupEnd::TooBig),
            ParseOut::Rec(m) => if is_match(m, khash, key) {
                (seq![m], LookupEnd::Found)
            } else {
                let rest = lookup_walk(
                    s,
                    w,
                    e,
                    ap,
                    child_of(m, khash, key),
                    khash,
                    key,
                    (fuel - 1) as nat,
                );
                (seq![m] + rest.0, rest.1)
            },
        }
    }
}

/// A walk that ends in a hit visited at least one record, and its last
/// visited record holds the key.
pub proof fn lemma_lookup_found(
    s: Seq<u8>,
    w: Width,
    e: Endian,
    ap: u8,
    off: u64,
    khash: u8,
    key: Seq<u8>,
    fuel: nat,
)
    ensures
        ({
            let walk = lookup_walk(s, w, e, ap, off, khash, key, fuel);
            walk.1 == LookupEnd::Found ==> walk.0.len() >= 1 && is_match(
                walk.0.last(),
                khash,
                key,
            )
        }),
    decreases fuel,
{
    let walk = lookup_walk(s, w, e, ap, off, khash, key, fuel);
    if off != 0 && fuel != 0 {
        match parse_record_space(s, (off << ap) as int, w, e) {
            ParseOut::Rec(m) => {
                if !is_match(m, khash, key) {
                    let child = child_of(m, khash, key);
                    lemma_lookup_found(s, w, e, ap, child, khash, key, (fuel - 1) as nat);
                    let rest = lookup_walk(s, w, e, ap, child, khash, key, (fuel - 1) as nat);
                    if rest.1 == LookupEnd::Found {
                        assert(walk.0.last() == rest.0.last());
                    }
                }
            },
            _ => {},
        }
    }
}

impl TCHDB {
    /// Decodes the record-space entry that the encoded offset points to.
    fn read_record_space(&self, rec_off: RecordOffset, read_value: bool) -> (r: Result<
        RecordSpace,
        TchdbError,
    >)
        requires
            self.wf(),
        ensures
            match parse_record_space(
                self.reader@,
                (rec_off.value << self.header.alignment_power) as int,
                self.width,
                self.endian,
            ) {
                ParseOut::Rec(m) => if read_value && m.value_off + m.value_size
                    > self.reader@.len() {
                    r == Err::<RecordSpace, TchdbError>(TchdbError::Truncated)
                } else {
                    match r {
                        Ok(RecordSpace::Record(rec)) => rec_matches(
                            rec,
                            m,
                            self.reader@,
                            read_value,
                        ),
                        _ => false,
                    }
                },
                ParseOut::Free(f) => match r {
                    Ok(RecordSpace::FreeBlock(fb)) => record::free_matches(fb, f, self.reader@),
                    _ => false,
                },
                ParseOut::Trunc => r == Err::<RecordSpace, TchdbError>(TchdbError::Truncated),
                ParseOut::BadTag => r == Err::<RecordSpace, TchdbError>(TchdbError::UnknownTag),
                ParseOut::TooBig => r == Err::<RecordSpace, TchdbError>(TchdbError::VnumOverflow),
            },
    {
        let offset = rec_off.offset(self.header.alignment_power);
        parse_record_space_at(&self.reader.bytes, offset, self.width, self.endian, read_value)
    }

    /// The step budget a chain walk starts with.
    fn walk_fuel_exec(&self) -> (f: u64)
        ensures
            f == self.walk_fuel(),
    {
        if self.header.file_size == u64::MAX {
            u64::MAX
        } else {
            self.header.file_size + 1
        }
    }

    /// Walks the bucket tree of `key.idx` looking for `key`, reporting
    /// whether it was found together with every record visited on the way.
    /// A free block on the path counts as a miss, as the space the chain
    /// pointed into may have been reclaimed.
    pub fn get_record_detail(&self, key: &KeyWithHash) -> (r: Result<
        (bool, Vec<Record>),
        TchdbError,
    >)
        requires
            self.wf(),
            key.idx < self.header.bucket_number,
        ensures
            !self.bucket_in_range(key.idx) ==> r == Err::<(bool, Vec<Record>), TchdbError>(
                TchdbError::Truncated,
            ),
            self.bucket_in_range(key.idx) ==> ({
                let walk = lookup_walk(
                    self.reader@,
                    self.width,
                    self.endian,
                    self.header.alignment_power,
                    self.spec_bucket_root(key.idx),
                    key.hash,
                    key.key@,
                    self.walk_fuel(),
                );
                match r {
                    Ok((found, visited)) => {
                        &&& visited@.len() == walk.0.len()
                        &&& forall|i: int|
                            0 <= i < walk.0.len() ==> rec_matches(
                                #[trigger] visited@[i],
                                walk.0[i],
                                self.reader@,
                                false,
                            )
                        &&& (found <==> walk.1 == LookupEnd::Found)
                        &&& (walk.1 == LookupEnd::Found || walk.1 == LookupEnd::NotFound
                            || walk.1 == LookupEnd::FreeBlockHit)
                    },
                    Err(e) => {
                        ||| (e == TchdbError::Truncated && walk.1 == LookupEnd::Trunc)
                        ||| (e == TchdbError::UnknownTag && walk.1 == LookupEnd::BadTag)
                        ||| (e == TchdbError::VnumOverflow && walk.1 == LookupEnd::TooBig)
                        ||| (e == TchdbError::CyclicBucketTree && walk.1 == LookupEnd::DepthLimit)
                    },
                }
            }),
    {
        let root = match self.read_bucket(key.idx) {
            Ok(o) => o,
            Err(e) => {
                return Err(e);
            },
        };
        let ghost s = self.reader@;
        let ghost w = self.width;
        let ghost e = self.endian;
        let ghost ap = self.header.alignment_power;
        let ghost khash = key.hash;
        let ghost keyb = key.key@;
        let fuel0: u64 = self.walk_fuel_exec();
        let ghost walk0 = lookup_walk(s, w, e, ap, root.value, khash, keyb, fuel0 as nat);
        let mut rec_off = root;
        let mut fuel: u64 = fuel0;
        let mut visited: Vec<Record> = Vec::new();
        proof {
            assert(walk0.0.skip(0) =~= walk0.0);
        }
        loop
            invariant
                self.wf(),
                s == self.reader@,
                w == self.width,
                e == self.endian,
                ap == self.header.alignment_power,
                khash == key.hash,
                keyb == key.key@,
                self.bucket_in_range(key.idx),
                walk0 == lookup_walk(
                    s,
                    w,
                    e,
                    ap,
                    self.spec_bucket_root(key.idx),
                    khash,
                    keyb,
                    self.walk_fuel(),
                ),
                visited@.len() <= walk0.0.len(),
                forall|i: int|
                    0 <= i < visited@.len() ==> rec_matches(
                        #[trigger] visited@[i],
                        walk0.0[i],
                        s,
                        false,
                    ),
                lookup_walk(s, w, e, ap, rec_off.value, khash, keyb, fuel as nat).0 == walk0.0.skip(
                    visited@.len() as int,
                ),
                lookup_walk(s, w, e, ap, rec_off.value, khash, keyb, fuel as nat).1 == walk0.1,
            decreases fuel,
        {
            let ghost k = visited@.len() as int;
            let ghost cur = lookup_walk(s, w, e, ap, rec_off.value, khash, keyb, fuel as nat);
            proof {
                assert(cur.0 == walk0.0.skip(k) && cur.1 == walk0.1);
            }
            if rec_off.is_empty() {
                proof {
                    assert(cur.0 =~= Seq::<RecModel>::empty());
                    assert(walk0.0.skip(k).len() == 0);
                    assert(visited@.len() == walk0.0.len());
                }
                return Ok((false, visited));
            }
            if fuel == 0 {
                return Err(TchdbError::CyclicBucketTree);
            }
            let rs = match self.read_record_space(rec_off, false) {
                Ok(v) => v,
                Err(e2) => {
                    return Err(e2);
                },
            };
            let record = match rs {
                RecordSpace::FreeBlock(_) => {
                    proof {
                        assert(walk0.0.skip(k).len() == 0);
                        assert(visited@.len() == walk0.0.len());
                    }
                    return Ok((false, visited));
                },
                RecordSpace::Record(rec) => rec,
            };
            let ghost m = (match parse_record_space(s, (rec_off.value << ap) as int, w, e) {
                ParseOut::Rec(m0) => m0,
                _ => arbitrary(),
            });
            proof {
                assert(rec_matches(record, m, s, false));
                if is_match(m, khash, keyb) {
                    assert(cur.0 == seq![m]);
                    assert(cur.0[0] == m);
                } else {
                    let rest = lookup_walk(
                        s,
                        w,
                        e,
                        ap,
                        child_of(m, khash, keyb),
                        khash,
                        keyb,
                        (fuel - 1) as nat,
                    );
                    assert(cur.0 == seq![m] + rest.0);
                    assert(cur.0[0] == m);
                }
                assert(cur.0.len() >= 1);
                assert(walk0.0.len() - k >= 1);
                assert(walk0.0[k] == walk0.0.skip(k)[0]);
                assert(walk0.0[k] == m);
            }
            if key.hash == record.hash_value {
                let cmp = compare_bytes(&key.key, &record.key);
                if matches!(cmp, KeyCmp::Equal) {
                    proof {
                        assert(is_match(m, khash, keyb));
                        assert(cur.0 =~= seq![m]);
                        assert(walk0.0.skip(k).len() == 1);
                        assert(walk0.1 == LookupEnd::Found);
                    }
                    let ghost pre = visited@;
                    visited.push(record);
                    proof {
                        assert(visited@.len() == walk0.0.len());
                    }
                    return Ok((true, visited));
                }
            }
            // not a match: descend to the child the comparison selects
            let next = if key.hash > record.hash_value {
                record.left_chain
            } else if key.hash < record.hash_value {
                record.right_chain
            } else {
                match compare_bytes(&key.key, &record.key) {
                    KeyCmp::Greater => record.left_chain,
                    _ => record.right_chain,
                }
            };
            proof {
                assert(!is_match(m, khash, keyb));
                assert(next.value == child_of(m, khash, keyb));
                let rest = lookup_walk(s, w, e, ap, next.value, khash, keyb, (fuel - 1) as nat);
                assert(cur.0 == seq![m] + rest.0 && cur.1 == rest.1);
                assert(walk0.0.skip(k + 1) =~= (walk0.0.skip(k)).skip(1));
                assert((seq![m] + rest.0).skip(1) =~= rest.0);
            }
            visited.push(record);
            rec_off = next;
            fuel = fuel - 1;
        }
    }

    /// Looks a key up and returns its record, if the key is present.
    pub fn get_record(&self, key: &KeyWithHash) -> (r: Result<Option<Record>, TchdbError>)
        requires
            self.wf(),
            key.idx < self.header.bucket_number,
        ensures
            !self.bucket_in_range(key.idx) ==> r == Err::<Option<Record>, TchdbError>(
                TchdbError::Truncated,
            ),
            self.bucket_in_range(key.idx) ==> ({
                let walk = lookup_walk(
                    self.reader@,
                    self.width,
                    self.endian,
                    self.header.alignment_power,
                    self.spec_bucket_root(key.idx),
                    key.hash,
                    key.key@,
                    self.walk_fuel(),
                );
                match r {
                    Ok(Some(rec)) => walk.1 == LookupEnd::Found && walk.0.len() >= 1
                        && rec_matches(rec, walk.0.last(), self.reader@, false),
                    Ok(None) => walk.1 == LookupEnd::NotFound || walk.1
                        == LookupEnd::FreeBlockHit,
                    Err(e) => {
                        ||| (e == TchdbError::Truncated && walk.1 == LookupEnd::Trunc)
                        ||| (e == TchdbError::UnknownTag && walk.1 == LookupEnd::BadTag)
                        ||| (e == TchdbError::VnumOverflow && walk.1 == LookupEnd::TooBig)
                        ||| (e == TchdbError::CyclicBucketTree && walk.1
                            == LookupEnd::DepthLimit)
                    },
                }
            }),
    {
        let (found, mut log) = match self.get_record_detail(key) {
            Ok(v) => v,
            Err(e) => {
                return Err(e);
            },
        };
        if found {
            proof {
                lemma_lookup_found(
                    self.reader@,
                    self.width,
                    self.endian,
                    self.header.alignment_power,
                    self.spec_bucket_root(key.idx),
                    key.hash,
                    key.key@,
                    self.walk_fuel(),
                );
            }
            match log.pop() {
                Some(rec) => Ok(Some(rec)),
                None => vstd::pervasive::unreached(),
            }
        } else {
            Ok(None)
        }
    }

    /// The bucket a key's bytes select.
    pub open spec fn spec_key_idx(self, kb: Seq<u8>) -> u64 {
        spec_bucket_idx(kb, self.header.bucket_number)
    }

    /// The walk a lookup of the key bytes `kb` takes.
    pub open spec fn spec_lookup(self, kb: Seq<u8>) -> (Seq<RecModel>, LookupEnd) {
        lookup_walk(
            self.reader@,
            self.width,
            self.endian,
            self.header.alignment_power,
            self.spec_bucket_root(self.spec_key_idx(kb)),
            spec_secondary_hash(kb),
            kb,
            self.walk_fuel(),
        )
    }

    /// Looks a key up and returns the bytes stored under it, if the key
    /// is present.
    pub fn get(&self, key_str: &str) -> (r: Result<Option<Vec<u8>>, TchdbError>)
        requires
            self.wf(),
        ensures
            !self.bucket_in_range(self.spec_key_idx(key_str.spec_bytes())) ==> r == Err::<
                Option<Vec<u8>>,
                TchdbError,
            >(TchdbError::Truncated),
            self.bucket_in_range(self.spec_key_idx(key_str.spec_bytes())) ==> ({
                let walk = self.spec_lookup(key_str.spec_bytes());
                match r {
                    Ok(Some(v)) => {
                        &&& walk.1 == LookupEnd::Found
                        &&& walk.0.len() >= 1
                        &&& walk.0.last().value_off + walk.0.last().value_size
                            <= self.reader@.len()
                        &&& v@ == walk.0.last().value_bytes(self.reader@)
                    },
                    Ok(None) => walk.1 == LookupEnd::NotFound || walk.1
                        == LookupEnd::FreeBlockHit,
                    Err(e) => {
                        ||| (e == TchdbError::Truncated && (walk.1 == LookupEnd::Trunc || (walk.1
                            == LookupEnd::Found && walk.0.last().value_off
                            + walk.0.last().value_size > self.reader@.len())))
                        ||| (e == TchdbError::UnknownTag && walk.1 == LookupEnd::BadTag)
                        ||| (e == TchdbError::VnumOverflow && walk.1 == LookupEnd::TooBig)
                        ||| (e == TchdbError::CyclicBucketTree && walk.1
                            == LookupEnd::DepthLimit)
                    },
                }
            }),
    {
        let kb: Vec<u8> = key_str.as_bytes_vec();
        let key = self.hash(&kb);
        let record = match self.get_record(&key) {
            Ok(Some(rec)) => rec,
            Ok(None) => {
                return Ok(None);
            },
            Err(e) => {
                return Err(e);
            },
        };
        let mut record = record;
        match record.value.read_value(&self.reader) {
            Ok(()) => {},
            Err(e) => {
                return Err(e);
            },
        }
        let value = record.value.into_value();
        Ok(Some(value.into_value()))
    }

    /// Looks a key up and returns its hashes, whether it was found, and
    /// every record visited on the way.
    pub fn get_detail(&self, key_str: &str) -> (r: Result<
        (KeyWithHash, bool, Vec<Record>),
        TchdbError,
    >)
        requires
            self.wf(),
        ensures
            !self.bucket_in_range(self.spec_key_idx(key_str.spec_bytes())) ==> r == Err::<
                (KeyWithHash, bool, Vec<Record>),
                TchdbError,
            >(TchdbError::Truncated),
            self.bucket_in_range(self.spec_key_idx(key_str.spec_bytes())) ==> ({
                let kb = key_str.spec_bytes();
                let walk = self.spec_lookup(kb);
                match r {
                    Ok((kwh, found, visited)) => {
                        &&& kwh.key@ == kb
                        &&& kwh.idx == self.spec_key_idx(kb)
                        &&& kwh.hash == spec_secondary_hash(kb)
                        &&& visited@.len() == walk.0.len()
                        &&& forall|i: int|
                            0 <= i < walk.0.len() ==> rec_matches(
                                #[trigger] visited@[i],
                                walk.0[i],
                                self.reader@,
                                false,
                            )
                        &&& (found <==> walk.1 == LookupEnd::Found)
                        &&& (walk.1 == LookupEnd::Found || walk.1 == LookupEnd::NotFound
                            || walk.1 == LookupEnd::FreeBlockHit)
                    },
                    Err(e) => {
                        ||| (e == TchdbError::Truncated && walk.1 == LookupEnd::Trunc)
                        ||| (e == TchdbError::UnknownTag && walk.1 == LookupEnd::BadTag)
                        ||| (e == TchdbError::VnumOverflow && walk.1 == LookupEnd::TooBig)
                        ||| (e == TchdbError::CyclicBucketTree && walk.1
                            == LookupEnd::DepthLimit)
                    },
                }
            }),
    {
        let kb: Vec<u8> = key_str.as_bytes_vec();
        let key = self.hash(&kb);
        match self.get_record_detail(&key) {
            Ok((found, visited)) => Ok((key, found, visited)),
            Err(e) => Err(e),
        }
    }

    /// Collects every record in the tree of one bucket, in the traversal
    /// order right subtree, node, left subtree.
    pub fn dump_bucket(&self, bucket_number: u64) -> (r: Result<Vec<Record>, TchdbError>)
        requires
            self.wf(),
            bucket_number < self.header.bucket_number,
        ensures
            !self.bucket_in_range(bucket_number) ==> r == Err::<Vec<Record>, TchdbError>(
                TchdbError::Truncated,
            ),
            self.bucket_in_range(bucket_number) ==> ({
                let walk = traverse_walk(
                    self.reader@,
                    self.width,
                    self.endian,
                    self.header.alignment_power,
                    self.spec_bucket_root(bucket_number),
                    self.walk_fuel(),
                );
                match r {
                    Ok(records) => walk matches TraverseOut::Done(ms) && records@.len()
                        == ms.len() && (forall|i: int|
                        0 <= i < ms.len() ==> rec_matches(
                            #[trigger] records@[i],
                            ms[i],
                            self.reader@,
                            false,
                        )),
                    Err(e) => {
                        ||| (e == TchdbError::UnexpectedFreeBlockInTree && walk
                            == TraverseOut::FreeBlockHit)
                        ||| (e == TchdbError::Truncated && walk == TraverseOut::Trunc)
                        ||| (e == TchdbError::UnknownTag && walk == TraverseOut::BadTag)
                        ||| (e == TchdbError::VnumOverflow && walk == TraverseOut::TooBig)
                        ||| (e == TchdbError::CyclicBucketTree && walk
                            == TraverseOut::DepthLimit)
                    },
                }
            }),
    {
        let mut records: Vec<Record> = Vec::new();
        let rec_off = match self.read_bucket(bucket_number) {
            Ok(o) => o,
            Err(e) => {
                return Err(e);
            },
        };
        let fuel = self.walk_fuel_exec();
        match self.traverse_records(rec_off, &mut records, fuel) {
            Ok(()) => {
                proof {
                    match traverse_walk(
                        self.reader@,
                        self.width,
                        self.endian,
                        self.header.alignment_power,
                        rec_off.value,
                        fuel as nat,
                    ) {
                        TraverseOut::Done(ms) => {
                            assert forall|i: int| 0 <= i < ms.len() implies rec_matches(
                                #[trigger] records@[i],
                                ms[i],
                                self.reader@,
                                false,
                            ) by {
                                assert(rec_matches(records@[0 + i], ms[i], self.reader@, false));
                            }
                        },
                        _ => {
                            assert(false);
                        },
                    }
                }
                Ok(records)
            },
            Err(e) => Err(e),
        }
    }

    /// Walks one bucket subtree, appending its records to `records` in
    /// the order right subtree, node, left subtree.
    fn traverse_records(&self, rec_off: RecordOffset, records: &mut Vec<Record>, fuel: u64) -> (r:
        Result<(), TchdbError>)
        requires
            self.wf(),
        ensures
            match traverse_walk(
                self.reader@,
                self.width,
                self.endian,
                self.header.alignment_power,
                rec_off.value,
                fuel as nat,
            ) {
                TraverseOut::Done(ms) => {
                    &&& r is Ok
                    &&& final(records)@.len() == old(records)@.len() + ms.len()
                    &&& final(records)@.subrange(0, old(records)@.len() as int) == old(records)@
                    &&& forall|i: int|
                        0 <= i < ms.len() ==> rec_matches(
                            #[trigger] final(records)@[old(records)@.len() + i],
                            ms[i],
                            self.reader@,
                            false,
                        )
                },
                TraverseOut::FreeBlockHit => r == Err::<(), TchdbError>(
                    TchdbError::UnexpectedFreeBlockInTree,
                ),
                TraverseOut::Trunc => r == Err::<(), TchdbError>(TchdbError::Truncated),
                TraverseOut::BadTag => r == Err::<(), TchdbError>(TchdbError::UnknownTag),
                TraverseOut::TooBig => r == Err::<(), TchdbError>(TchdbError::VnumOverflow),
                TraverseOut::DepthLimit => r == Err::<(), TchdbError>(
                    TchdbError::CyclicBucketTree,
                ),
            },
        decreases fuel,
    {
        if rec_off.is_empty() {
            proof {
                assert(records@.subrange(0, old(records)@.len() as int) =~= records@);
            }
            return Ok(());
        }
        if fuel == 0 {
            return Err(TchdbError::CyclicBucketTree);
        }
        let record = match self.read_record_space(rec_off, false) {
            Ok(RecordSpace::Record(rec)) => rec,
            Ok(RecordSpace::FreeBlock(_)) => {
                return Err(TchdbError::UnexpectedFreeBlockInTree);
            },
            Err(e) => {
                return Err(e);
            },
        };
        let ghost s = self.reader@;
        let ghost m = (match parse_record_space(
            s,
            (rec_off.value << self.header.alignment_power) as int,
            self.width,
            self.endian,
        ) {
            ParseOut::Rec(m0) => m0,
            _ => arbitrary(),
        });
        let ghost snap0 = records@;
        let ghost len0 = records@.len() as int;
        let right = record.right_chain;
        let left = record.left_chain;
        match self.traverse_records(right, records, fuel - 1) {
            Ok(()) => {},
            Err(e) => {
                return Err(e);
            },
        }
        let ghost snap1 = records@;
        records.push(record);
        let ghost snap2 = records@;
        match self.traverse_records(left, records, fuel - 1) {
            Ok(()) => {},
            Err(e) => {
                return Err(e);
            },
        }
        proof {
            let w = self.width;
            let e = self.endian;
            let ap = self.header.alignment_power;
            let walk = traverse_walk(s, w, e, ap, rec_off.value, fuel as nat);
            let rs = (match traverse_walk(s, w, e, ap, m.right, (fuel - 1) as nat) {
                TraverseOut::Done(ms) => ms,
                _ => arbitrary(),
            });
            let ls = (match traverse_walk(s, w, e, ap, m.left, (fuel - 1) as nat) {
                TraverseOut::Done(ms) => ms,
                _ => arbitrary(),
            });
            assert(walk == TraverseOut::Done(rs + seq![m] + ls));
            let all = rs + seq![m] + ls;
            // chain the three pieces of the final contents together
            assert(snap1.subrange(0, len0) == snap0);
            assert(snap2 == snap1.push(record));
            assert(records@.subrange(0, snap2.len() as int) == snap2);
            assert(records@.len() == len0 + all.len());
            assert(records@.subrange(0, len0) =~= records@.subrange(0, snap2.len() as int)
                .subrange(0, len0));
            assert(snap2.subrange(0, len0) =~= snap1.subrange(0, len0));
            assert(records@.subrange(0, len0) == snap0);
            assert forall|i: int| 0 <= i < all.len() implies rec_matches(
                #[trigger] records@[len0 + i],
                all[i],
                s,
                false,
            ) by {
                if i < rs.len() {
                    assert(all[i] == rs[i]);
                    assert(records@[len0 + i] == records@.subrange(0, snap2.len() as int)[len0
                        + i]);
                    assert(snap2[len0 + i] == snap1[len0 + i]);
                    assert(rec_matches(snap1[snap0.len() + i], rs[i], s, false));
                } else if i == rs.len() {
                    assert(all[i] == m);
                    assert(records@[len0 + i] == records@.subrange(0, snap2.len() as int)[len0
                        + i]);
                    assert(snap2[len0 + i] == record);
                } else {
                    assert(all[i] == ls[i - rs.len() - 1]);
                    assert(len0 + i == snap2.len() + (i - rs.len() - 1));
                    assert(rec_matches(
                        records@[snap2.len() + (i - rs.len() - 1)],
                        ls[i - rs.len() - 1],
                        s,
                        false,
                    ));
                }
            }
        }
        Ok(())
    }
}

/// What one bucket subtree holds: its records in traversal order, or the
/// failure that stopped the traversal.
pub enum TraverseOut {
    Done(Seq<RecModel>),
    /// A free block stood where a record must: structural corruption.
    FreeBlockHit,
    Trunc,
    BadTag,
    TooBig,
    /// The subtree is deeper than the step budget allows: the chain
    /// pointers must form a cycle.
    DepthLimit,
}

/// A forward, non-restartable cursor over the record-space entries of
/// the file, from `first_record` up to `file_size`.
pub struct RecordSpaceIter {
    /// The position of the next entry to decode.
    pub next_pos: u64,
    pub file_size: u64,
    /// Whether values are materialized eagerly.
    pub pv: bool,
    pub width: Width,
    pub endian: Endian,
}

impl RecordSpaceIter {
    /// The cursor walks the image of `db` with its parameters.
    pub open spec fn compatible(self, db: TCHDB) -> bool {
        &&& self.file_size == db.header.file_size
        &&& self.width == db.width
        &&& self.endian == db.endian
    }

    /// Decodes the entry at the cursor and advances past it; yields
    /// nothing once the cursor reached the file size.
    pub fn next(&mut self, db: &TCHDB) -> (r: Result<Option<RecordSpace>, TchdbError>)
        requires
            db.wf(),
            old(self).compatible(*db),
        ensures
            final(self).compatible(*db),
            final(self).pv == old(self).pv,
            old(self).next_pos >= old(self).file_size ==> r == Ok::<
                Option<RecordSpace>,
                TchdbError,
            >(None) && *final(self) == *old(self),
            old(self).next_pos < old(self).file_size ==> match parse_record_space(
                db.reader@,
                old(self).next_pos as int,
                db.width,
                db.endian,
            ) {
                ParseOut::Rec(m) => if old(self).pv && m.value_off + m.value_size
                    > db.reader@.len() {
                    r == Err::<Option<RecordSpace>, TchdbError>(TchdbError::Truncated)
                        && *final(self) == *old(self)
                } else {
                    match r {
                        Ok(Some(RecordSpace::Record(rec))) => {
                            &&& rec_matches(rec, m, db.reader@, old(self).pv)
                            &&& final(self).next_pos == m.next()
                            &&& final(self).next_pos > old(self).next_pos
                        },
                        _ => false,
                    }
                },
                ParseOut::Free(f) => match r {
                    Ok(Some(RecordSpace::FreeBlock(fb))) => {
                        &&& record::free_matches(fb, f, db.reader@)
                        &&& final(self).next_pos == f.next()
                        &&& final(self).next_pos > old(self).next_pos
                    },
                    _ => false,
                },
                ParseOut::Trunc => r == Err::<Option<RecordSpace>, TchdbError>(
                    TchdbError::Truncated,
                ) && *final(self) == *old(self),
                ParseOut::BadTag => r == Err::<Option<RecordSpace>, TchdbError>(
                    TchdbError::UnknownTag,
                ) && *final(self) == *old(self),
                ParseOut::TooBig => r == Err::<Option<RecordSpace>, TchdbError>(
                    TchdbError::VnumOverflow,
                ) && *final(self) == *old(self),
            },
    {
        if self.next_pos >= self.file_size {
            return Ok(None);
        }
        let pos = self.next_pos;
        let entry = match parse_record_space_at(
            &db.reader.bytes,
            pos,
            self.width,
            self.endian,
            self.pv,
        ) {
            Ok(v) => v,
            Err(e) => {
                return Err(e);
            },
        };
        match entry {
            RecordSpace::Record(record) => {
                let ghost m = (match parse_record_space(
                    db.reader@,
                    pos as int,
                    db.width,
                    db.endian,
                ) {
                    ParseOut::Rec(m0) => m0,
                    _ => arbitrary(),
                });
                proof {
                    record::lemma_rec_next_bound(db.reader@, pos as int, db.width, db.endian, m);
                    crate::vnum::lemma_vnum_len_le_5(m.key_size as nat);
                    crate::vnum::lemma_vnum_len_le_5(m.value_size as nat);
                }
                let np = record.next_record();
                self.next_pos = np;
                Ok(Some(RecordSpace::Record(record)))
            },
            RecordSpace::FreeBlock(fb) => {
                let ghost f = (match parse_record_space(
                    db.reader@,
                    pos as int,
                    db.width,
                    db.endian,
                ) {
                    ParseOut::Free(f0) => f0,
                    _ => arbitrary(),
                });
                proof {
                    lemma_free_next_bound(db.reader@, pos as int, db.width, db.endian, f);
                }
                let np = pos + (fb.block_size as u64);
                self.next_pos = np;
                Ok(Some(RecordSpace::FreeBlock(fb)))
            },
        }
    }
}

impl TCHDB {
    /// Starts a forward scan over all record-space entries, materializing
    /// values eagerly when `pv` asks for them.
    pub fn read_record_spaces(&self, pv: bool) -> (it: RecordSpaceIter)
        requires
            self.wf(),
        ensures
            it.compatible(*self),
            it.next_pos == self.header.first_record,
            it.pv == pv,
    {
        RecordSpaceIter {
            next_pos: self.header.first_record,
            file_size: self.header.file_size,
            pv,
            width: self.width,
            endian: self.endian,
        }
    }
}

/// The positions a forward scan visits: either every entry position up
/// to the file size together with the position the scan stops at, or the
/// visited positions together with the position where decoding failed.
pub enum ScanOut {
    Done(Seq<int>, int),
    Fail(Seq<int>, int),
}

/// The number of positions a scan from `pos` can still visit.
pub open spec fn scan_measure(pos: int, fsize: int) -> int {
    if pos < fsize {
        fsize - pos
    } else {
        0
    }
}

/// The forward scan of the record space from `pos`, as the bytes of the
/// image determine it.
pub open spec fn scan(s: Seq<u8>, w: Width, e: Endian, pos: int, fsize: int) -> ScanOut
    decreases scan_measure(pos, fsize)
        via scan_dec
{
    if pos >= fsize {
        ScanOut::Done(Seq::empty(), pos)
    } else {
        match parse_record_space(s, pos, w, e) {
            ParseOut::Rec(m) => match scan(s, w, e, m.next(), fsize) {
                ScanOut::Done(ps, fin) => ScanOut::Done(seq![pos] + ps, fin),
                ScanOut::Fail(ps, fp) => ScanOut::Fail(seq![pos] + ps, fp),
            },
            ParseOut::Free(f) => match scan(s, w, e, f.next(), fsize) {
                ScanOut::Done(ps, fin) => ScanOut::Done(seq![pos] + ps, fin),
                ScanOut::Fail(ps, fp) => ScanOut::Fail(seq![pos] + ps, fp),
            },
            _ => ScanOut::Fail(Seq::empty(), pos),
        }
    }
}

#[via_fn]
proof fn scan_dec(s: Seq<u8>, w: Width, e: Endian, pos: int, fsize: int) {
    if pos < fsize {
        match parse_record_space(s, pos, w, e) {
            ParseOut::Rec(m) => {
                record::lemma_rec_next_bound(s, pos, w, e, m);
            },
            ParseOut::Free(f) => {
                lemma_free_next_bound(s, pos, w, e, f);
            },
            _ => {},
        }
    }
}

/// A decoded free block starts at its tag and spans at least its own tag
/// and size field, so the scan advances past it.
pub proof fn lemma_free_next_bound(s: Seq<u8>, pos: int, w: Width, e: Endian, f: FreeModel)
    requires
        parse_record_space(s, pos, w, e) == ParseOut::Free(f),
    ensures
        f.offset == pos,
        5 <= f.block_size,
        pos + 5 <= f.next() <= s.len(),
{
    crate::bytes::lemma_word_at_bound(s, pos + 1, 4, e);
    vstd::arithmetic::power2::lemma2_to64();
}

/// The positions a forward scan from `pos` visits.
pub open spec fn scan_positions(s: Seq<u8>, w: Width, e: Endian, pos: int, fsize: int) -> Seq<
    int,
> {
    match scan(s, w, e, pos, fsize) {
        ScanOut::Done(ps, _) => ps,
        ScanOut::Fail(ps, _) => ps,
    }
}

/// The forward scan visits strictly increasing positions, the first of
/// them its start position; and a completed scan stops at or beyond the
/// file size.
pub proof fn lemma_scan_positions(s: Seq<u8>, w: Width, e: Endian, pos: int, fsize: int)
    ensures
        forall|i: int, j: int|
            0 <= i < j < scan_positions(s, w, e, pos, fsize).len() ==> scan_positions(
                s,
                w,
                e,
                pos,
                fsize,
            )[i] < scan_positions(s, w, e, pos, fsize)[j],
        scan_positions(s, w, e, pos, fsize).len() > 0 ==> scan_positions(s, w, e, pos, fsize)[0]
            == pos,
        forall|i: int|
            0 <= i < scan_positions(s, w, e, pos, fsize).len() ==> #[trigger] scan_positions(
                s,
                w,
                e,
                pos,
                fsize,
            )[i] >= pos,
        scan(s, w, e, pos, fsize) matches ScanOut::Done(_, fin) ==> fin >= fsize,
    decreases scan_measure(pos, fsize),
{
    if pos < fsize {
        let next = (match parse_record_space(s, pos, w, e) {
            ParseOut::Rec(m) => m.next(),
            ParseOut::Free(f) => f.next(),
            _ => pos,
        });
        match parse_record_space(s, pos, w, e) {
            ParseOut::Rec(m) => {
                record::lemma_rec_next_bound(s, pos, w, e, m);
                lemma_scan_positions(s, w, e, m.next(), fsize);
            },
            ParseOut::Free(f) => {
                lemma_free_next_bound(s, pos, w, e, f);
                lemma_scan_positions(s, w, e, f.next(), fsize);
            },
            _ => {},
        }
        if next != pos {
            let sub = scan_positions(s, w, e, next, fsize);
            let ps = scan_positions(s, w, e, pos, fsize);
            assert(ps == seq![pos] + sub);
            assert(ps[0] == pos);
            assert forall|i: int| 0 <= i < ps.len() implies #[trigger] ps[i] >= pos by {
                if i > 0 {
                    assert(ps[i] == sub[i - 1]);
                    assert(sub[i - 1] >= next);
                }
            }
            assert forall|i: int, j: int| 0 <= i < j < ps.len() implies ps[i] < ps[j] by {
                assert(ps[j] == sub[j - 1] && sub[j - 1] >= next);
                if i == 0 {
                    assert(ps[i] == pos < next);
                } else {
                    assert(ps[i] == sub[i - 1] && ps[j] == sub[j - 1]);
                }
            }
        }
    }
}

/// The recursive traversal of one bucket subtree: right subtree first,
/// then the node itself, then the left subtree.
pub open spec fn traverse_walk(
    s: Seq<u8>,
    w: Width,
    e: Endian,
    ap: u8,
    off: u64,
    fuel: nat,
) -> TraverseOut
    decreases fuel,
{
    if off == 0 {
        TraverseOut::Done(Seq::empty())
    } else if fuel == 0 {
        TraverseOut::DepthLimit
    } else {
        match parse_record_space(s, (off << ap) as int, w, e) {
            ParseOut::Free(_) => TraverseOut::FreeBlockHit,
            ParseOut::Trunc => TraverseOut::Trunc,
            ParseOut::BadTag => TraverseOut::BadTag,
            ParseOut::TooBig => TraverseOut::TooBig,
            ParseOut::Rec(m) => match traverse_walk(s, w, e, ap, m.right, (fuel - 1) as nat) {
                TraverseOut::Done(rs) => match traverse_walk(
                    s,
                    w,
                    e,
                    ap,
                    m.left,
                    (fuel - 1) as nat,
                ) {
                    TraverseOut::Done(ls) => TraverseOut::Done(rs + seq![m] + ls),
                    other => other,
                },
                other => other,
            },
        }
    }
}

} // verus!
