//! Fixed-width unsigned integers read out of a byte image.
//!
//! Every multi-byte scalar of the file format is little-endian unless the
//! reader was opened with the big-endian override, so both orders are
//! modelled and the choice is threaded through every read.

use vstd::prelude::*;
use vstd::arithmetic::power2::{lemma2_to64, pow2};

use crate::TchdbError;

verus! {

/// The byte order of the file's multi-byte scalars.
#[derive(Clone, Copy, Debug, PartialEq, Eq, Structural)]
pub enum Endian {
    Little,
    Big,
}

/// The width of the file's encoded record offsets: 4 bytes, or 8 bytes when
/// the header's "large" option bit is set.
#[derive(Clone, Copy, Debug, PartialEq, Eq, Structural)]
pub enum Width {
    Small,
    Large,
}

impl Width {
    /// The number of bytes one encoded offset occupies.
    pub open spec fn spec_bytes(self) -> nat {
        match self {
            Width::Small => 4,
            Width::Large => 8,
        }
    }

    /// Executable twin of [`Width::spec_bytes`].
    pub fn bytes(self) -> (n: u64)
        ensures
            n == self.spec_bytes(),
    {
        match self {
            Width::Small => 4,
            Width::Large => 8,
        }
    }
}

/// The unsigned value of the `n` bytes starting at `i`, least significant
/// byte first.
pub open spec fn le_word_at(s: Seq<u8>, i: int, n: nat) -> int
    decreases n,
{
    if n == 0 {
        0
    } else {
        s[i] + 256 * le_word_at(s, i + 1, (n - 1) as nat)
    }
}

/// The unsigned value of the `n` bytes starting at `i`, most significant
/// byte first.
pub open spec fn be_word_at(s: Seq<u8>, i: int, n: nat) -> int
    decreases n,
{
    if n == 0 {
        0
    } else {
        be_word_at(s, i, (n - 1) as nat) * 256 + s[i + n - 1]
    }
}

/// The unsigned value of the `n` bytes starting at `i` in byte order `e`.
pub open spec fn word_at(s: Seq<u8>, i: int, n: nat, e: Endian) -> int {
    match e {
        Endian::Little => le_word_at(s, i, n),
        Endian::Big => be_word_at(s, i, n),
    }
}

/// An `n`-byte word is nonnegative and below `2^(8n)`.
pub proof fn lemma_word_at_bound(s: Seq<u8>, i: int, n: nat, e: Endian)
    ensures
        0 <= word_at(s, i, n, e) < pow2(8 * n),
    decreases n,
{
    vstd::arithmetic::power2::lemma_pow2_adds(8 * (n - 1) as nat, 8);
    lemma2_to64();
    if n == 0 {
    } else {
        lemma_word_at_bound(s, i, (n - 1) as nat, e);
        lemma_word_at_bound(s, i + 1, (n - 1) as nat, e);
    }
}

/// Reads the `n`-byte word at `pos` in byte order `endian`, or reports a
/// truncated image.
pub fn read_word_at(data: &Vec<u8>, pos: u64, n: u64, endian: Endian) -> (r: Result<
    u64,
    TchdbError,
>)
    requires
        1 <= n <= 8,
    ensures
        match r {
            Ok(v) => pos + n <= data@.len() && v == word_at(data@, pos as int, n as nat, endian),
            Err(e) => pos + n > data@.len() && e == TchdbError::Truncated,
        },
{
    let len: u64 = data.len() as u64;
    if len < n || pos > len - n {
        return Err(TchdbError::Truncated);
    }
    let start: usize = pos as usize;
    assert(start == pos);
    proof {
        lemma2_to64();
    }
    match endian {
        Endian::Little => {
            let mut k: u64 = n;
            let mut acc: u64 = 0;
            while k > 0
                invariant
                    k <= n <= 8,
                    start == pos,
                    pos + n <= data@.len(),
                    data@.len() <= u64::MAX,
                    data@.len() <= usize::MAX,
                    acc == le_word_at(data@, pos + k, (n - k) as nat),
                    acc < pow2(8 * (n - k) as nat),
                decreases k,
            {
                k = k - 1;
                let b = data[start + (k as usize)];
                proof {
                    reveal_with_fuel(le_word_at, 2);
                    if 8 * (n - k - 1) < 56 {
                        vstd::arithmetic::power2::lemma_pow2_strictly_increases(
                            (8 * (n - k - 1)) as nat,
                            56,
                        );
                    }
                    vstd::arithmetic::power2::lemma_pow2_adds((8 * (n - k - 1)) as nat, 8);
                    vstd::arithmetic::power2::lemma_pow2_adds(56, 8);
                    lemma2_to64();
                }
                acc = acc * 256 + (b as u64);
            }
            Ok(acc)
        },
        Endian::Big => {
            let mut j: u64 = 0;
            let mut acc: u64 = 0;
            while j < n
                invariant
                    j <= n <= 8,
                    start == pos,
                    pos + n <= data@.len(),
                    data@.len() <= u64::MAX,
                    data@.len() <= usize::MAX,
                    acc == be_word_at(data@, pos as int, j as nat),
                    acc < pow2(8 * j as nat),
                decreases n - j,
            {
                let b = data[start + (j as usize)];
                proof {
                    reveal_with_fuel(be_word_at, 2);
                    if 8 * j < 56 {
                        vstd::arithmetic::power2::lemma_pow2_strictly_increases(
                            (8 * j) as nat,
                            56,
                        );
                    }
                    vstd::arithmetic::power2::lemma_pow2_adds((8 * j) as nat, 8);
                    vstd::arithmetic::power2::lemma_pow2_adds(56, 8);
                    lemma2_to64();
                    assert(be_word_at(data@, pos as int, (j + 1) as nat) == be_word_at(
                        data@,
                        pos as int,
                        j as nat,
                    ) * 256 + b);
                }
                acc = acc * 256 + (b as u64);
                j = j + 1;
            }
            Ok(acc)
        },
    }
}

/// Copies the bytes of `data` between `from` and `to` into a fresh vector.
pub(crate) fn copy_range(data: &Vec<u8>, from: u64, to: u64) -> (out: Vec<u8>)
    requires
        from <= to,
        to <= data@.len(),
    ensures
        out@ == data@.subrange(from as int, to as int),
{
    // reading the length once records that it fits the machine word
    let _image_len: usize = data.len();
    let mut out: Vec<u8> = Vec::new();
    let mut i: u64 = from;
    while i < to
        invariant
            from <= i <= to,
            to <= data@.len(),
            data@.len() <= usize::MAX,
            out@ == data@.subrange(from as int, i as int),
        decreases to - i,
    {
        let b = data[i as usize];
        let ghost pre = out@;
        out.push(b);
        proof {
            assert(data@.subrange(from as int, i + 1) =~= pre + seq![b]);
        }
        i = i + 1;
    }
    out
}

} // verus!
