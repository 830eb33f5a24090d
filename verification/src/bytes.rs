//! Big-endian primitive reads over in-memory byte slices, with their
//! mathematical meaning (`be_uint`, `be_sint`) and the matching encoder
//! (`enc_be`) used to state round-trip properties.

use vstd::prelude::*;

verus! {

/// The one byte-level failure an in-memory source can produce: the bytes ran
/// out before the requested read was complete.
#[derive(Debug, Clone, Copy, PartialEq, Eq, Structural)]
pub enum IoError {
    UnexpectedEof,
}

/// 256 to the power `n`: the number of values `n` bytes can hold.
pub open spec fn pow256(n: nat) -> int
    decreases n,
{
    if n == 0 {
        1
    } else {
        256 * pow256((n - 1) as nat)
    }
}

/// The unsigned integer stored big-endian in `s[pos .. pos + n]`.
pub open spec fn be_uint(s: Seq<u8>, pos: int, n: int) -> int
    decreases n,
{
    if n <= 0 {
        0
    } else {
        256 * be_uint(s, pos, n - 1) + s[pos + n - 1]
    }
}

/// Reinterpret the unsigned `n`-byte value `u` as two's-complement signed.
pub open spec fn to_signed(u: int, n: nat) -> int {
    if u >= pow256(n) / 2 {
        u - pow256(n)
    } else {
        u
    }
}

/// The signed integer stored big-endian in `s[pos .. pos + n]`.
pub open spec fn be_sint(s: Seq<u8>, pos: int, n: int) -> int {
    to_signed(be_uint(s, pos, n), n as nat)
}

/// The `n`-byte big-endian encoding of the unsigned value `v`.
pub open spec fn enc_be(v: int, n: nat) -> Seq<u8>
    decreases n,
{
    if n == 0 {
        Seq::empty()
    } else {
        enc_be(v / 256, (n - 1) as nat).push((v % 256) as u8)
    }
}

pub proof fn lemma_pow256_values()
    ensures
        pow256(0) == 1,
        pow256(1) == 0x100,
        pow256(2) == 0x10000,
        pow256(3) == 0x100_0000,
        pow256(4) == 0x1_0000_0000,
        pow256(7) == 0x100_0000_0000_0000,
        pow256(8) == 0x1_0000_0000_0000_0000,
{
    reveal_with_fuel(pow256, 9);
}

pub proof fn lemma_pow256_pos(n: nat)
    ensures
        pow256(n) >= 1,
    decreases n,
{
    if n > 0 {
        lemma_pow256_pos((n - 1) as nat);
    }
}

pub proof fn lemma_pow256_mono(a: nat, b: nat)
    requires
        a <= b,
    ensures
        1 <= pow256(a) <= pow256(b),
    decreases b,
{
    lemma_pow256_pos(a);
    if a < b {
        lemma_pow256_mono(a, (b - 1) as nat);
    }
}

pub proof fn lemma_be_uint_bound(s: Seq<u8>, pos: int, n: int)
    requires
        n >= 0,
    ensures
        0 <= be_uint(s, pos, n) < pow256(n as nat),
    decreases n,
{
    if n > 0 {
        lemma_be_uint_bound(s, pos, n - 1);
    }
}

pub proof fn lemma_enc_be_len(v: int, n: nat)
    ensures
        enc_be(v, n).len() == n,
    decreases n,
{
    if n > 0 {
        lemma_enc_be_len(v / 256, (n - 1) as nat);
    }
}

/// Reading back an `n`-byte big-endian encoding recovers the encoded value.
pub proof fn lemma_be_uint_of_enc(s: Seq<u8>, pos: int, v: int, n: nat)
    requires
        0 <= v < pow256(n),
        0 <= pos,
        pos + n <= s.len(),
        s.subrange(pos, pos + n) == enc_be(v, n),
    ensures
        be_uint(s, pos, n as int) == v,
    decreases n,
{
    if n == 0 {
    } else {
        let sub = s.subrange(pos, pos + n);
        lemma_enc_be_len(v / 256, (n - 1) as nat);
        assert(s[pos + n - 1] == sub[n - 1]);
        assert(sub[n - 1] == (v % 256) as u8);
        assert(s.subrange(pos, pos + n - 1) =~= enc_be(v / 256, (n - 1) as nat)) by {
            assert forall|i: int| 0 <= i < n - 1 implies #[trigger] s.subrange(pos, pos + n - 1)[i]
                == enc_be(v / 256, (n - 1) as nat)[i] by {
                assert(s.subrange(pos, pos + n - 1)[i] == sub[i]);
            }
        }
        assert(0 <= v / 256 < pow256((n - 1) as nat)) by (nonlinear_arith)
            requires
                0 <= v < 256 * pow256((n - 1) as nat),
        ;
        lemma_be_uint_of_enc(s, pos, v / 256, (n - 1) as nat);
        assert(0 <= v % 256 < 256);
        assert(256 * (v / 256) + v % 256 == v) by (nonlinear_arith);
        assert((v % 256) as u8 as int == v % 256);
    }
}

/// Read the unsigned big-endian integer held in `data[pos .. pos + n]`.
pub fn read_be_uint(data: &[u8], pos: usize, n: usize) -> (r: u64)
    requires
        1 <= n <= 8,
        pos + n <= data@.len(),
    ensures
        r as int == be_uint(data@, pos as int, n as int),
{
    let len = data.len();
    let mut acc: u64 = 0;
    let mut i: usize = 0;
    while i < n
        invariant
            i <= n <= 8,
            pos + n <= len == data@.len(),
            acc as int == be_uint(data@, pos as int, i as int),
        decreases n - i,
    {
        proof {
            lemma_be_uint_bound(data@, pos as int, i as int);
            lemma_pow256_mono(i as nat, 7);
            lemma_pow256_values();
        }
        let b = data[pos + i];
        acc = acc * 256 + (b as u64);
        i = i + 1;
    }
    acc
}

/// Reinterpret one byte as a signed 8-bit integer.
pub fn sign8(b: u8) -> (r: i8)
    ensures
        r as int == to_signed(b as int, 1),
{
    proof {
        lemma_pow256_values();
    }
    if b >= 0x80 {
        let m = b - 0x80;
        i8::MIN + (m as i8)
    } else {
        b as i8
    }
}

/// Reinterpret an unsigned 16-bit value as signed.
pub fn sign16(u: u64) -> (r: i16)
    requires
        u < 0x10000,
    ensures
        r as int == to_signed(u as int, 2),
{
    proof {
        lemma_pow256_values();
    }
    if u >= 0x8000 {
        let m = (u - 0x8000) as u16;
        i16::MIN + (m as i16)
    } else {
        u as i16
    }
}

/// Reinterpret an unsigned 32-bit value as signed.
pub fn sign32(u: u64) -> (r: i32)
    requires
        u < 0x1_0000_0000,
    ensures
        r as int == to_signed(u as int, 4),
{
    proof {
        lemma_pow256_values();
    }
    if u >= 0x8000_0000 {
        let m = (u - 0x8000_0000) as u32;
        i32::MIN + (m as i32)
    } else {
        u as i32
    }
}

/// Reinterpret an unsigned 64-bit value as signed.
pub fn sign64(u: u64) -> (r: i64)
    ensures
        r as int == to_signed(u as int, 8),
{
    proof {
        lemma_pow256_values();
    }
    if u >= 0x8000_0000_0000_0000 {
        let m = (u - 0x8000_0000_0000_0000) as u64;
        i64::MIN + (m as i64)
    } else {
        u as i64
    }
}

} // verus!
