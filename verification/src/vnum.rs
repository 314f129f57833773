//! The file format's variable-length unsigned integer codec.
//!
//! A value is stored least significant digit first in base 128. Every byte
//! below `0x80` is a terminal digit; a byte `x` at or above `0x80` is the
//! continuation digit `0xFF - x`. Sizes inside records use this codec, so
//! the decoder also reports how many bytes it consumed.

use vstd::prelude::*;
use vstd::arithmetic::power2::{lemma2_to64, pow2};

use crate::TchdbError;

verus! {

/// A decoded variable-length number, in the 32-bit domain the format uses
/// for key, value and pool sizes.
#[derive(Clone, Copy, Debug, PartialEq, Eq, Structural)]
pub struct VNum(pub u32);

/// The value and byte length encoded at the front of `s`, if a terminal
/// digit arrives before `s` ends.
pub open spec fn vnum_decode(s: Seq<u8>) -> Option<(nat, nat)>
    decreases s.len(),
{
    if s.len() == 0 {
        None
    } else if s[0] < 0x80 {
        Some((s[0] as nat, 1nat))
    } else {
        match vnum_decode(s.skip(1)) {
            None => None,
            Some((v, l)) => Some((((0xff - s[0]) + 128 * v) as nat, (l + 1) as nat)),
        }
    }
}

/// The number of bytes the codec uses for the value `v`.
pub open spec fn vnum_len(v: nat) -> nat
    decreases v,
{
    if v < 128 {
        1
    } else {
        1 + vnum_len(v / 128)
    }
}

/// The codec's byte sequence for the value `v`.
pub open spec fn vnum_encode(v: nat) -> Seq<u8>
    decreases v,
{
    if v < 128 {
        seq![v as u8]
    } else {
        seq![(0xff - (v % 128)) as u8] + vnum_encode(v / 128)
    }
}

/// The encoding of `v` occupies exactly `vnum_len(v)` bytes.
pub proof fn lemma_vnum_encode_len(v: nat)
    ensures
        vnum_encode(v).len() == vnum_len(v),
    decreases v,
{
    if v >= 128 {
        lemma_vnum_encode_len(v / 128);
    }
}

/// Any value below `2^32` encodes in at most five bytes.
pub proof fn lemma_vnum_len_le_5(v: nat)
    requires
        v < 0x1_0000_0000,
    ensures
        vnum_len(v) <= 5,
{
    reveal_with_fuel(vnum_len, 6);
}

/// Round trip one way: decoding the encoding of `v`, with anything at all
/// appended after it, yields `v` back along with its encoded length.
pub proof fn lemma_vnum_encode_decode(v: nat, tail: Seq<u8>)
    ensures
        vnum_decode(vnum_encode(v) + tail) == Some((v, vnum_len(v))),
    decreases v,
{
    let s = vnum_encode(v) + tail;
    if v < 128 {
        assert(s[0] == v as u8);
    } else {
        lemma_vnum_encode_decode(v / 128, tail);
        assert(s[0] == (0xff - (v % 128)) as u8);
        assert(s.skip(1) =~= vnum_encode(v / 128) + tail);
        vstd::arithmetic::div_mod::lemma_fundamental_div_mod(v as int, 128);
    }
}

/// A successful decode consumes between one byte and the whole sequence,
/// and its last consumed byte is the terminal digit.
pub proof fn lemma_vnum_decode_lens(s: Seq<u8>)
    ensures
        match vnum_decode(s) {
            Some((v, l)) => 1 <= l <= s.len() && s[l - 1] < 0x80,
            None => true,
        },
    decreases s.len(),
{
    if s.len() > 0 && s[0] >= 0x80 {
        lemma_vnum_decode_lens(s.skip(1));
    }
}

/// Round trip the other way: a decoded byte sequence whose terminal digit
/// is not a redundant zero is exactly the encoding of its value.
pub proof fn lemma_vnum_decode_encode(s: Seq<u8>, v: nat, l: nat)
    requires
        vnum_decode(s) == Some((v, l)),
        l == 1 || s[l - 1] != 0,
    ensures
        l == vnum_len(v),
        s.subrange(0, l as int) =~= vnum_encode(v),
    decreases s.len(),
{
    lemma_vnum_decode_lens(s);
    if s[0] < 0x80 {
        assert(v == s[0] && l == 1);
    } else {
        match vnum_decode(s.skip(1)) {
            None => {
                assert(false);
            },
            Some((v1, l1)) => {
                assert(v == (0xff - s[0]) + 128 * v1 && l == l1 + 1);
                lemma_vnum_decode_lens(s.skip(1));
                assert(s.skip(1)[l1 - 1] == s[l - 1]);
                if v1 == 0 {
                    // a zero high part would have ended in a redundant zero digit
                    lemma_vnum_decode_zero(s.skip(1), l1);
                    assert(false);
                }
                lemma_vnum_decode_encode(s.skip(1), v1, l1);
                assert(v >= 128) by {
                    assert(128 * v1 >= 128) by (nonlinear_arith)
                        requires
                            v1 >= 1,
                    ;
                }
                assert(v / 128 == v1 as int && v % 128 == 0xff - s[0]) by {
                    vstd::arithmetic::div_mod::lemma_fundamental_div_mod_converse(
                        v as int,
                        128,
                        v1 as int,
                        0xff - s[0],
                    );
                }
                assert(s.subrange(0, l as int) =~= seq![s[0]] + s.skip(1).subrange(0, l1 as int));
            },
        }
    }
}

/// A sequence that decodes to the value zero ends with a zero terminal
/// digit, and uses exactly one byte.
proof fn lemma_vnum_decode_zero(s: Seq<u8>, l: nat)
    requires
        vnum_decode(s) == Some((0nat, l)),
    ensures
        s[l - 1] == 0,
    decreases s.len(),
{
    lemma_vnum_decode_lens(s);
    if s[0] < 0x80 {
        assert(s[0] == 0 && l == 1);
    } else {
        match vnum_decode(s.skip(1)) {
            None => {
                assert(false);
            },
            Some((v1, l1)) => {
                assert((0xff - s[0]) + 128 * v1 == 0);
                assert(v1 == 0) by {
                    assert(128 * v1 >= 0) by (nonlinear_arith);
                    if v1 >= 1 {
                        assert(128 * v1 >= 128) by (nonlinear_arith)
                            requires
                                v1 >= 1,
                        ;
                    }
                }
                lemma_vnum_decode_zero(s.skip(1), l1);
                assert(s.skip(1)[l1 - 1] == s[l - 1]);
            },
        }
    }
}

impl VNum {
    /// The number of bytes this value occupies when encoded.
    pub fn size(&self) -> (n: u32)
        ensures
            n == vnum_len(self.0 as nat),
    {
        let mut value: u32 = self.0;
        let mut size: u32 = 1;
        proof {
            lemma_vnum_len_le_5(self.0 as nat);
        }
        loop
            invariant
                1 <= size <= 5,
                vnum_len(self.0 as nat) == size - 1 + vnum_len(value as nat),
                vnum_len(self.0 as nat) <= 5,
            decreases value,
        {
            let next = value >> 7u32;
            assert(next == value / 128) by (bit_vector)
                requires
                    next == value >> 7u32,
            ;
            if next == 0 {
                assert(vnum_len(value as nat) == 1);
                return size;
            }
            assert(value >= 128 && vnum_len(value as nat) == 1 + vnum_len(next as nat));
            value = next;
            size = size + 1;
        }
    }

    /// The encoded byte sequence for this value.
    pub fn encode(&self) -> (out: Vec<u8>)
        ensures
            out@ == vnum_encode(self.0 as nat),
    {
        let mut value: u32 = self.0;
        let mut out: Vec<u8> = Vec::new();
        loop
            invariant
                vnum_encode(self.0 as nat) == out@ + vnum_encode(value as nat),
            decreases value,
        {
            if value < 128 {
                let ghost pre = out@;
                out.push(value as u8);
                assert(pre + seq![value as u8] =~= out@);
                assert(vnum_encode(self.0 as nat) =~= out@);
                return out;
            }
            let digit: u32 = 255 - (value % 128);
            let ghost pre = out@;
            out.push(digit as u8);
            assert(pre + (seq![digit as u8] + vnum_encode((value / 128) as nat)) =~= out@
                + vnum_encode((value / 128) as nat));
            value = value / 128;
        }
    }
}

/// Reads one variable-length number starting at `pos`, reporting the value
/// and the number of bytes consumed. A number above the 32-bit domain is
/// rejected; a number with no terminal digit before the end of the image is
/// a truncation.
pub fn read_vnum(data: &Vec<u8>, pos: u64) -> (r: Result<(u32, u64), TchdbError>)
    requires
        pos <= data@.len(),
    ensures
        match vnum_decode(data@.skip(pos as int)) {
            None => r == Err::<(u32, u64), TchdbError>(TchdbError::Truncated),
            Some((v, l)) => if v > u32::MAX {
                r == Err::<(u32, u64), TchdbError>(TchdbError::VnumOverflow)
            } else {
                r == Ok::<(u32, u64), TchdbError>((v as u32, l as u64))
            },
        },
{
    let ghost t0 = data@.skip(pos as int);
    let len: u64 = data.len() as u64;
    let start: usize = pos as usize;
    assert(start == pos);
    let mut i: u64 = 0;
    let mut acc: u64 = 0;
    let mut over: bool = false;
    let ghost mut hi: nat = 0nat;
    proof {
        lemma2_to64();
        vstd::arithmetic::power2::lemma2_to64_rest();
    }
    loop
        invariant
            pos + i <= data@.len(),
            data@.len() <= usize::MAX,
            len == data@.len(),
            start == pos,
            t0 == data@.skip(pos as int),
            i <= 5 ==> acc < pow2((7 * i) as nat),
            acc < pow2(35),
            i > 5 ==> acc < pow2(35),
            over == (hi > 0),
            hi == 0 || hi > u32::MAX,
            match vnum_decode(data@.skip(pos + i)) {
                None => vnum_decode(t0) is None,
                Some((v, l)) => vnum_decode(t0) == Some(
                    ((acc + hi + pow2((7 * i) as nat) * v) as nat, (l + i) as nat),
                ),
            },
        decreases data@.len() - pos - i,
    {
        if pos + i >= len {
            proof {
                assert(data@.skip(pos + i).len() == 0);
            }
            return Err(TchdbError::Truncated);
        }
        let x: u8 = data[start + (i as usize)];
        let ghost ti = data@.skip(pos + i);
        let ghost p = pow2((7 * i) as nat);
        proof {
            assert(ti.len() > 0 && ti[0] == data@[pos + i]);
            assert(ti.skip(1) =~= data@.skip(pos + i + 1));
            lemma2_to64();
            vstd::arithmetic::power2::lemma2_to64_rest();
            vstd::arithmetic::power2::lemma_pow2_pos((7 * i) as nat);
            if 7 * i > 35 {
                vstd::arithmetic::power2::lemma_pow2_strictly_increases(35, (7 * i) as nat);
            }
        }
        if x < 0x80 {
            // terminal digit: the full value is now determined
            proof {
                assert(vnum_decode(ti) == Some((x as nat, 1nat)));
            }
            let ghost w = (acc + hi + p * (x as nat)) as nat;
            if i <= 4 {
                let base: u64 = pow128(i);
                proof {
                    assert((x as nat) * base <= 127 * 268435456) by (nonlinear_arith)
                        requires
                            x < 128,
                            base <= 268435456,
                    ;
                    assert(p * (x as nat) == (x as nat) * base) by (nonlinear_arith)
                        requires
                            base == p,
                    ;
                }
                let value: u64 = acc + (x as u64) * base;
                if over || value > 0xffff_ffff {
                    proof {
                        if over {
                            assert(w >= hi > u32::MAX);
                        }
                    }
                    return Err(TchdbError::VnumOverflow);
                }
                return Ok((value as u32, i + 1));
            } else {
                if x > 0 || over || acc > 0xffff_ffff {
                    proof {
                        if x > 0 {
                            assert(p * (x as nat) >= pow2(35)) by (nonlinear_arith)
                                requires
                                    p >= pow2(35),
                                    x >= 1,
                            ;
                        } else {
                            assert(p * (x as nat) == 0) by (nonlinear_arith)
                                requires
                                    x == 0,
                            ;
                        }
                    }
                    return Err(TchdbError::VnumOverflow);
                }
                proof {
                    assert(p * (x as nat) == 0) by (nonlinear_arith)
                        requires
                            x == 0,
                    ;
                    assert(w == acc);
                }
                return Ok((acc as u32, i + 1));
            }
        }
        // continuation digit 0xff - x at weight 128^i
        let d: u8 = 255 - x;
        let ghost acc0 = acc as nat;
        let ghost hi0 = hi;
        proof {
            vstd::arithmetic::power2::lemma_pow2_adds((7 * i) as nat, 7);
            assert(pow2((7 * (i + 1)) as nat) == p * 128);
        }
        if i <= 4 {
            let base: u64 = pow128(i);
            proof {
                assert((d as nat) * base <= 127 * 268435456) by (nonlinear_arith)
                    requires
                        d < 128,
                        base <= 268435456,
                ;
                assert(acc + (d as nat) * base < pow2((7 * (i + 1)) as nat)) by (nonlinear_arith)
                    requires
                        acc < pow2((7 * i) as nat),
                        d < 128,
                        base == pow2((7 * i) as nat),
                        pow2((7 * (i + 1)) as nat) == 128 * pow2((7 * i) as nat),
                ;
                if 7 * (i + 1) < 35 {
                    vstd::arithmetic::power2::lemma_pow2_strictly_increases(
                        (7 * (i + 1)) as nat,
                        35,
                    );
                }
            }
            acc = acc + (d as u64) * base;
            proof {
                assert((d as u64) * base == p * (d as nat)) by (nonlinear_arith)
                    requires
                        base == p,
                ;
            }
        } else {
            if d > 0 {
                proof {
                    assert(p * (d as nat) >= pow2(35)) by (nonlinear_arith)
                        requires
                            p >= pow2(35),
                            d >= 1,
                    ;
                    hi = (hi + p * (d as nat)) as nat;
                }
                over = true;
            }
        }
        proof {
            if d == 0 {
                assert(p * (d as nat) == 0) by (nonlinear_arith)
                    requires
                        d == 0,
                ;
            }
            // the digit moved from the tail into the accumulated part
            assert(acc + hi == acc0 + hi0 + p * (d as nat));
            match vnum_decode(ti.skip(1)) {
                None => {
                    assert(vnum_decode(ti) is None);
                    assert(vnum_decode(t0) is None);
                },
                Some((v2, l2)) => {
                    assert(vnum_decode(ti) == Some(
                        (((0xff - ti[0]) + 128 * v2) as nat, (l2 + 1) as nat),
                    ));
                    assert(p * ((d as nat) + 128 * v2) == p * (d as nat) + (p * 128) * v2)
                        by (nonlinear_arith);
                    assert(acc0 + hi0 + p * ((d as nat) + 128 * v2) == acc + hi + (p * 128)
                        * v2);
                    assert(vnum_decode(t0) == Some(
                        ((acc + hi + pow2((7 * (i + 1)) as nat) * v2) as nat, (l2 + (i + 1)) as nat),
                    ));
                },
            }
        }
        i = i + 1;
    }
}

/// `128^i` for the digit positions whose weight fits comfortably in a word.
fn pow128(i: u64) -> (r: u64)
    requires
        i <= 4,
    ensures
        r == pow2((7 * i) as nat),
        r <= 268435456,
{
    proof {
        lemma2_to64();
    }
    match i {
        0 => 1,
        1 => 128,
        2 => 16384,
        3 => 2097152,
        _ => 268435456,
    }
}

} // verus!
