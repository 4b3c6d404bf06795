//! Variable-length unsigned integers: seven bits to a byte, the low bits
//! first, with the top bit of every byte but the last set.

use crate::io::common::{ByteReader, ByteSink, ByteSource, CodecError};
use vstd::prelude::*;

verus! {

/// The bytes of `x`: while more than seven bits are left, a byte with the
/// low seven bits and the top bit set; then a byte with what is left.
pub open spec fn bis_int_bytes(x: nat) -> Seq<u8>
    decreases x,
{
    if x <= 0x7f {
        seq![x as u8]
    } else {
        seq![(0x80 + x % 0x80) as u8] + bis_int_bytes(x / 0x80)
    }
}

/// The integer at the front of `s`, with the number of bytes it takes, or
/// `None` where `s` ends before a byte with a clear top bit. The value is
/// not bounded: each byte adds seven bits.
pub open spec fn bis_int_parse(s: Seq<u8>) -> Option<(nat, nat)>
    decreases s.len(),
{
    if s.len() == 0 {
        None
    } else if s[0] < 0x80 {
        Some((s[0] as nat, 1))
    } else {
        match bis_int_parse(s.skip(1)) {
            None => None,
            Some((value, len)) => Some(((s[0] - 0x80 + 0x80 * value) as nat, len + 1)),
        }
    }
}

/// The integer of `count` bytes whose seven-bit groups give `low` under the
/// integer `rest` that the bytes after them give.
pub open spec fn joined(low: nat, power: nat, count: nat, rest: Option<(nat, nat)>) -> Option<
    (nat, nat),
> {
    match rest {
        None => None,
        Some((value, len)) => Some((low + power * value, count + len)),
    }
}

/// Taking one more byte under the bytes already taken.
proof fn lemma_join_step(low: nat, power: nat, count: nat, s: Seq<u8>)
    requires
        s.len() > 0,
        s[0] >= 0x80,
    ensures
        joined(low, power, count, bis_int_parse(s)) == joined(
            (low + power * (s[0] - 0x80)) as nat,
            power * 0x80,
            count + 1,
            bis_int_parse(s.skip(1)),
        ),
{
    match bis_int_parse(s.skip(1)) {
        None => {},
        Some((value, len)) => {
            let group = (s[0] - 0x80) as nat;
            assert(low + power * (group + 0x80 * value) == (low + power * group) + (power * 0x80)
                * value) by (nonlinear_arith);
        },
    }
}

/// The number of bytes of an integer below 2^35 goes up by one at each
/// multiple of seven bits.
pub proof fn lemma_bis_int_size(x: nat)
    requires
        x < 0x8_0000_0000,
    ensures
        bis_int_bytes(x).len() == (if x < 0x80 {
            1nat
        } else if x < 0x4000 {
            2nat
        } else if x < 0x20_0000 {
            3nat
        } else if x < 0x1000_0000 {
            4nat
        } else {
            5nat
        }),
{
    reveal_with_fuel(bis_int_bytes, 6);
}

/// The number of bytes that `x` takes.
pub fn bis_int_len(x: u32) -> (len: usize)
    ensures
        len == bis_int_bytes(x as nat).len(),
        1 <= len <= 5,
{
    let mut temp = x;
    let mut len: usize = 0;
    proof {
        lemma_bis_int_size(x as nat);
    }
    while temp > 0x7f
        invariant
            len + bis_int_bytes(temp as nat).len() == bis_int_bytes(x as nat).len(),
            bis_int_bytes(x as nat).len() <= 5,
        decreases temp,
    {
        proof {
            lemma_low_bits(temp);
        }
        len += 1;
        temp = temp & !0x7f;
        temp = temp >> 7;
    }
    len + 1
}

/// The powers of 128.
pub open spec fn pow128(n: nat) -> nat
    decreases n,
{
    if n == 0 {
        1
    } else {
        pow128((n - 1) as nat) * 0x80
    }
}

/// The first powers of 128, and the step from each power to the next.
pub proof fn lemma_pow128(n: nat)
    ensures
        pow128(0) == 1,
        pow128(1) == 0x80,
        pow128(2) == 0x4000,
        pow128(3) == 0x20_0000,
        pow128(4) == 0x1000_0000,
        pow128(5) == 0x8_0000_0000,
        n > 0 ==> pow128(n) == pow128((n - 1) as nat) * 0x80,
        pow128(n) > 0,
        n >= 5 ==> pow128(n) % 0x1_0000_0000 == 0,
    decreases n,
{
    reveal_with_fuel(pow128, 6);
    if n > 5 {
        lemma_pow128((n - 1) as nat);
        let prev = pow128((n - 1) as nat);
        assert((prev * 0x80) % 0x1_0000_0000 == 0) by (nonlinear_arith)
            requires
                prev % 0x1_0000_0000 == 0,
        ;
    } else if n > 0 {
        lemma_pow128((n - 1) as nat);
    }
}

/// A group at a place from the fifth on adds nothing to the low 32 bits.
proof fn lemma_high_group(low: nat, power: nat, group: nat)
    requires
        power % 0x1_0000_0000 == 0,
    ensures
        (low + power * group) % 0x1_0000_0000 == low % 0x1_0000_0000,
{
    let q = power / 0x1_0000_0000;
    assert(power == 0x1_0000_0000 * q);
    assert(power * group == 0x1_0000_0000 * (q * group)) by (nonlinear_arith)
        requires
            power == 0x1_0000_0000 * q,
    ;
    vstd::arithmetic::div_mod::lemma_mod_multiples_vanish(
        (q * group) as int,
        low as int,
        0x1_0000_0000,
    );
}

/// Splitting off the low seven bits with masks and a shift is splitting
/// them off by division.
proof fn lemma_low_bits(x: u32)
    by (bit_vector)
    ensures
        (x & !0x7fu32) >> 7u32 == x / 0x80,
        0x80u32 | x & 0x7fu32 == 0x80 + x % 0x80,
        x & 0x7fu32 == x % 0x80,
        0x80u32 | x & 0x7fu32 < 0x100,
{
}

/// Adding a seven-bit group at place `i` with a shift and an "or" adds its
/// value, modulo 2^32, where the bits below are all that is set.
proof fn lemma_or_group(result: u32, b: u8, i: u32)
    by (bit_vector)
    requires
        i < 5,
        (result as u64) < (1u64 << ((7 * i) as u64)),
    ensures
        (result | (((b & 0x7f) as u32) << ((i * 7) as u32))) == ((result as u64) + (((b
            & 0x7f) as u64) << ((7 * i) as u64))) % 0x1_0000_0000,
        (result as u64) + (((b & 0x7f) as u64) << ((7 * i) as u64)) < (1u64 << ((7 * (i
            + 1)) as u64)),
        ((b & 0x7f) as u64) << ((7 * i) as u64) == ((b & 0x7f) as u64) * (1u64 << ((7 * i) as u64)),
        (1u64 << ((7 * (i + 1)) as u64)) == (1u64 << ((7 * i) as u64)) * 0x80,
        b >= 0x80 ==> (b & 0x7f) == b - 0x80,
        b < 0x80 ==> (b & 0x7f) == b,
{
}

/// Reading variable-length integers from a byte source.
pub trait IntCompressionReadExt: ByteSource {
    /// Reads one integer. Bytes are taken up to the first with a clear top
    /// bit; the source must hold one, else the read is `Truncated`. Bits
    /// beyond the low 32 are dropped: the result is the value modulo 2^32.
    fn read_bis_int(&mut self) -> (r: Result<u32, CodecError>)
        ensures
            match r {
                Ok(x) => bis_int_parse(old(self).unread()) matches Some((value, len)) && x == value
                    % 0x1_0000_0000 && final(self).unread() == old(self).unread().skip(len as int),
                Err(e) => e == CodecError::Truncated && bis_int_parse(old(self).unread()) is None,
            },
    ;
}

impl<'a> IntCompressionReadExt for ByteReader<'a> {
    fn read_bis_int(&mut self) -> (r: Result<u32, CodecError>)
        ensures
            final(self).source() == old(self).source(),
    {
        let ghost s0 = self.unread();
        let mut result: u32 = 0;
        let mut i: u32 = 0;
        let ghost mut low: nat = 0;
        let ghost mut count: nat = 0;
        proof {
            assert(s0.skip(0) =~= s0);
            lemma_pow128(0);
            assert(1u64 << 0u64 == 1) by (bit_vector);
        }
        loop
            invariant
                s0 == old(self).unread(),
                self.source() == old(self).source(),
                count <= s0.len(),
                self.unread() == s0.skip(count as int),
                joined(low, pow128(count), count, bis_int_parse(s0.skip(count as int)))
                    == bis_int_parse(s0),
                result == low % 0x1_0000_0000,
                i == (if count < 5 {
                    count
                } else {
                    5
                }),
                count < 5 ==> low < pow128(count) && pow128(count) == 1u64 << ((7 * i) as u64),
            decreases s0.len() - count,
        {
            let b = match self.read_u8() {
                Ok(b) => b,
                Err(e) => {
                    return Err(e);
                },
            };
            let ghost group: nat = if b >= 0x80 {
                (b - 0x80) as nat
            } else {
                b as nat
            };
            proof {
                assert(s0.skip(count as int).skip(1) =~= s0.skip(count + 1 as int));
                lemma_pow128(count);
                lemma_pow128(count + 1);
                if i < 5 {
                    lemma_or_group(result, b, i);
                    let piece = ((b & 0x7f) as u64) << ((7 * i) as u64);
                    assert(piece == group * pow128(count));
                    assert(group * pow128(count) == pow128(count) * group) by (nonlinear_arith);
                } else {
                    lemma_high_group(low, pow128(count), group);
                }
            }
            if i < 5 {
                result = result | (((b & 0x7f) as u32) << (i * 7));
                i += 1;
            }
            assert(result == (low + pow128(count) * group) % 0x1_0000_0000);
            if b < 0x80 {
                return Ok(result);
            }
            proof {
                lemma_join_step(low, pow128(count), count, s0.skip(count as int));
                low = low + pow128(count) * group;
                count = count + 1;
            }
        }
    }
}

/// Writing variable-length integers to a byte sink.
pub trait IntCompressionWriteExt: ByteSink {
    /// Appends the bytes of `x` and returns how many they are.
    fn write_bis_int(&mut self, x: u32) -> (len: usize)
        ensures
            final(self).written() == old(self).written() + bis_int_bytes(x as nat),
            len == bis_int_bytes(x as nat).len(),
    ;
}

impl IntCompressionWriteExt for Vec<u8> {
    fn write_bis_int(&mut self, x: u32) -> (len: usize) {
        let mut temp = x;
        let mut len: usize = 0;
        proof {
            lemma_bis_int_size(x as nat);
        }
        while temp > 0x7f
            invariant
                self@ + bis_int_bytes(temp as nat) == old(self)@ + bis_int_bytes(x as nat),
                len + bis_int_bytes(temp as nat).len() == bis_int_bytes(x as nat).len(),
                bis_int_bytes(x as nat).len() <= 5,
            decreases temp,
        {
            proof {
                lemma_low_bits(temp);
            }
            let ghost before = self@;
            let byte: [u8; 1] = [(0x80 | temp & 0x7f) as u8];
            self.write_all(byte.as_slice());
            proof {
                assert(before + byte@ + bis_int_bytes((temp / 0x80) as nat) =~= before
                    + bis_int_bytes(temp as nat));
            }
            len += 1;
            temp = temp & !0x7f;
            temp = temp >> 7;
        }
        let byte: [u8; 1] = [temp as u8];
        self.write_all(byte.as_slice());
        proof {
            assert(bis_int_bytes(temp as nat) =~= byte@);
            assert(self@ =~= old(self)@ + bis_int_bytes(x as nat));
        }
        len + 1
    }
}

/// Round trip: the bytes of `x`, whatever follows them, parse to `x` and to
/// their own number.
pub proof fn lemma_bis_int_round_trip(x: nat, rest: Seq<u8>)
    ensures
        bis_int_parse(bis_int_bytes(x) + rest) == Some((x, bis_int_bytes(x).len())),
    decreases x,
{
    let s = bis_int_bytes(x) + rest;
    if x <= 0x7f {
        assert(s[0] == x as u8);
    } else {
        lemma_bis_int_round_trip(x / 0x80, rest);
        assert(s[0] == (0x80 + x % 0x80) as u8);
        assert(s.skip(1) =~= bis_int_bytes(x / 0x80) + rest);
    }
}

/// Round trip for the values that fit 32 bits: reading the bytes written
/// for `x` gives `x` itself, and takes as many bytes as `bis_int_len`
/// counts: one for values up to 127, two up to 16383, and one more at each
/// further multiple of seven bits.
pub proof fn lemma_bis_int_exact(x: u32, rest: Seq<u8>)
    ensures
        bis_int_parse(bis_int_bytes(x as nat) + rest) matches Some((value, len)) && value
            % 0x1_0000_0000 == x && len == bis_int_bytes(x as nat).len(),
        bis_int_bytes(x as nat).len() == (if x < 0x80 {
            1nat
        } else if x < 0x4000 {
            2nat
        } else if x < 0x20_0000 {
            3nat
        } else if x < 0x1000_0000 {
            4nat
        } else {
            5nat
        }),
{
    lemma_bis_int_round_trip(x as nat, rest);
    lemma_bis_int_size(x as nat);
}

/// Minimal length: no run of bytes that parses to `x` is shorter than the
/// bytes written for `x`.
pub proof fn lemma_bis_int_minimal(s: Seq<u8>)
    requires
        bis_int_parse(s) is Some,
    ensures
        bis_int_parse(s)->Some_0.1 >= bis_int_bytes(bis_int_parse(s)->Some_0.0).len(),
    decreases s.len(),
{
    if s[0] >= 0x80 {
        lemma_bis_int_minimal(s.skip(1));
        let rest = bis_int_parse(s.skip(1))->Some_0.0;
        let x = (s[0] - 0x80 + 0x80 * rest) as nat;
        assert(x / 0x80 == rest);
    }
}

} // verus!
