//! Typed reading and writing: arrays of fixed-width integers as bytes, least
//! significant byte first.

use vstd::prelude::*;

verus! {

/// The four bytes of a `u32`, least significant first.
pub open spec fn u32_le(v: u32) -> Seq<u8> {
    seq![
        (v as int % 0x100) as u8,
        (v as int / 0x100 % 0x100) as u8,
        (v as int / 0x1_0000 % 0x100) as u8,
        (v as int / 0x100_0000 % 0x100) as u8,
    ]
}

/// The `u32` that the four bytes starting at `at` stand for.
pub open spec fn u32_at(b: Seq<u8>, at: int) -> u32 {
    (b[at] as int + b[at + 1] as int * 0x100 + b[at + 2] as int * 0x1_0000 + b[at + 3] as int
        * 0x100_0000) as u32
}

/// The eight bytes of a `u64`, least significant first.
pub open spec fn u64_le(v: u64) -> Seq<u8> {
    u32_le((v as int % 0x1_0000_0000) as u32) + u32_le((v as int / 0x1_0000_0000) as u32)
}

/// The `u64` that the eight bytes starting at `at` stand for.
pub open spec fn u64_at(b: Seq<u8>, at: int) -> u64 {
    (u32_at(b, at) as int + u32_at(b, at + 4) as int * 0x1_0000_0000) as u64
}

/// The bytes of an array of `u32`: those of each element, in order.
pub open spec fn u32s_le(s: Seq<u32>) -> Seq<u8>
    decreases s.len(),
{
    if s.len() == 0 {
        Seq::empty()
    } else {
        u32s_le(s.drop_last()) + u32_le(s.last())
    }
}

/// The bytes of an array of `u64`: those of each element, in order.
pub open spec fn u64s_le(s: Seq<u64>) -> Seq<u8>
    decreases s.len(),
{
    if s.len() == 0 {
        Seq::empty()
    } else {
        u64s_le(s.drop_last()) + u64_le(s.last())
    }
}

/// The array of `u32` that `b` holds. Bytes left over after the last whole
/// element are ignored.
pub open spec fn u32s_of_le(b: Seq<u8>) -> Seq<u32> {
    Seq::new((b.len() / 4) as nat, |i: int| u32_at(b, 4 * i))
}

/// The array of `u64` that `b` holds. Bytes left over after the last whole
/// element are ignored.
pub open spec fn u64s_of_le(b: Seq<u8>) -> Seq<u64> {
    Seq::new((b.len() / 8) as nat, |i: int| u64_at(b, 8 * i))
}

/// Reading back the bytes of a `u32` gives the `u32`, wherever they stand.
pub proof fn u32_round_trip(b: Seq<u8>, at: int, v: u32)
    requires
        0 <= at,
        at + 4 <= b.len(),
        b.subrange(at, at + 4) == u32_le(v),
    ensures
        u32_at(b, at) == v,
{
    let w = b.subrange(at, at + 4);
    assert(w[0] == b[at] && w[1] == b[at + 1] && w[2] == b[at + 2] && w[3] == b[at + 3]);
}

/// Reading back the bytes of a `u64` gives the `u64`, wherever they stand.
pub proof fn u64_round_trip(b: Seq<u8>, at: int, v: u64)
    requires
        0 <= at,
        at + 8 <= b.len(),
        b.subrange(at, at + 8) == u64_le(v),
    ensures
        u64_at(b, at) == v,
{
    let lo = (v as int % 0x1_0000_0000) as u32;
    let hi = (v as int / 0x1_0000_0000) as u32;
    assert(b.subrange(at, at + 4) =~= u32_le(lo)) by {
        assert(b.subrange(at, at + 4) =~= b.subrange(at, at + 8).subrange(0, 4));
        assert(u64_le(v).subrange(0, 4) =~= u32_le(lo));
    }
    assert(b.subrange(at + 4, at + 8) =~= u32_le(hi)) by {
        assert(b.subrange(at + 4, at + 8) =~= b.subrange(at, at + 8).subrange(4, 8));
        assert(u64_le(v).subrange(4, 8) =~= u32_le(hi));
    }
    u32_round_trip(b, at, lo);
    u32_round_trip(b, at + 4, hi);
}

/// The bytes of an array are four per element, element `i` at `4 * i`.
pub proof fn u32s_le_layout(s: Seq<u32>)
    ensures
        u32s_le(s).len() == 4 * s.len(),
        forall|i: int|
            0 <= i < s.len() ==> u32s_le(s).subrange(4 * i, 4 * i + 4) == u32_le(#[trigger] s[i]),
    decreases s.len(),
{
    if s.len() > 0 {
        let t = s.drop_last();
        u32s_le_layout(t);
        assert forall|i: int| 0 <= i < s.len() implies u32s_le(s).subrange(4 * i, 4 * i + 4)
            == u32_le(#[trigger] s[i]) by {
            if i < t.len() {
                assert(t[i] == s[i]);
                assert(u32s_le(s).subrange(4 * i, 4 * i + 4) =~= u32s_le(t).subrange(
                    4 * i,
                    4 * i + 4,
                ));
            } else {
                assert(u32s_le(s).subrange(4 * i, 4 * i + 4) =~= u32_le(s.last()));
            }
        }
    }
}

/// The bytes of an array are eight per element, element `i` at `8 * i`.
pub proof fn u64s_le_layout(s: Seq<u64>)
    ensures
        u64s_le(s).len() == 8 * s.len(),
        forall|i: int|
            0 <= i < s.len() ==> u64s_le(s).subrange(8 * i, 8 * i + 8) == u64_le(#[trigger] s[i]),
    decreases s.len(),
{
    if s.len() > 0 {
        let t = s.drop_last();
        u64s_le_layout(t);
        assert forall|i: int| 0 <= i < s.len() implies u64s_le(s).subrange(8 * i, 8 * i + 8)
            == u64_le(#[trigger] s[i]) by {
            if i < t.len() {
                assert(t[i] == s[i]);
                assert(u64s_le(s).subrange(8 * i, 8 * i + 8) =~= u64s_le(t).subrange(
                    8 * i,
                    8 * i + 8,
                ));
            } else {
                assert(u64s_le(s).subrange(8 * i, 8 * i + 8) =~= u64_le(s.last()));
            }
        }
    }
}

/// What was written as an array of `u32` reads back as it was.
pub proof fn u32s_round_trip(s: Seq<u32>)
    ensures
        u32s_of_le(u32s_le(s)) == s,
{
    u32s_le_layout(s);
    let b = u32s_le(s);
    assert forall|i: int| 0 <= i < s.len() implies u32_at(b, 4 * i) == s[i] by {
        u32_round_trip(b, 4 * i, s[i]);
    }
    assert(u32s_of_le(b) =~= s);
}

/// What was written as an array of `u64` reads back as it was.
pub proof fn u64s_round_trip(s: Seq<u64>)
    ensures
        u64s_of_le(u64s_le(s)) == s,
{
    u64s_le_layout(s);
    let b = u64s_le(s);
    assert forall|i: int| 0 <= i < s.len() implies u64_at(b, 8 * i) == s[i] by {
        u64_round_trip(b, 8 * i, s[i]);
    }
    assert(u64s_of_le(b) =~= s);
}

fn push_u32(out: &mut Vec<u8>, v: u32)
    ensures
        final(out)@ == old(out)@ + u32_le(v),
{
    let b0: u8 = (v & 0xff) as u8;
    let b1: u8 = ((v >> 8) & 0xff) as u8;
    let b2: u8 = ((v >> 16) & 0xff) as u8;
    let b3: u8 = ((v >> 24) & 0xff) as u8;
    proof {
        assert(v & 0xff == v % 0x100) by (bit_vector);
        assert((v >> 8) & 0xff == v / 0x100 % 0x100) by (bit_vector);
        assert((v >> 16) & 0xff == v / 0x1_0000 % 0x100) by (bit_vector);
        assert((v >> 24) & 0xff == v / 0x100_0000 % 0x100) by (bit_vector);
    }
    out.push(b0);
    out.push(b1);
    out.push(b2);
    out.push(b3);
    assert(out@ =~= old(out)@ + u32_le(v));
}

fn read_u32(bytes: &[u8], at: usize) -> (v: u32)
    requires
        at + 4 <= bytes@.len(),
    ensures
        v == u32_at(bytes@, at as int),
{
    let b0: u32 = bytes[at] as u32;
    let b1: u32 = bytes[at + 1] as u32;
    let b2: u32 = bytes[at + 2] as u32;
    let b3: u32 = bytes[at + 3] as u32;
    b0 + b1 * 0x100 + b2 * 0x1_0000 + b3 * 0x100_0000
}

/// Writes an array of `u32` as bytes.
pub fn encode_u32s(values: &[u32]) -> (bytes: Vec<u8>)
    ensures
        bytes@ == u32s_le(values@),
{
    let mut bytes: Vec<u8> = Vec::new();
    let mut i: usize = 0;
    assert(values@.take(0) =~= Seq::<u32>::empty());
    while i < values.len()
        invariant
            i <= values@.len(),
            bytes@ == u32s_le(values@.take(i as int)),
        decreases values@.len() - i,
    {
        push_u32(&mut bytes, values[i]);
        proof {
            assert(values@.take(i + 1).drop_last() =~= values@.take(i as int));
        }
        i += 1;
    }
    assert(values@.take(i as int) =~= values@);
    bytes
}

/// Writes an array of `u64` as bytes.
pub fn encode_u64s(values: &[u64]) -> (bytes: Vec<u8>)
    ensures
        bytes@ == u64s_le(values@),
{
    let mut bytes: Vec<u8> = Vec::new();
    let mut i: usize = 0;
    assert(values@.take(0) =~= Seq::<u64>::empty());
    while i < values.len()
        invariant
            i <= values@.len(),
            bytes@ == u64s_le(values@.take(i as int)),
        decreases values@.len() - i,
    {
        let v: u64 = values[i];
        let lo: u32 = (v & 0xffff_ffff) as u32;
        let hi: u32 = (v >> 32) as u32;
        let ghost before = bytes@;
        proof {
            assert(v & 0xffff_ffff == v % 0x1_0000_0000) by (bit_vector);
            assert(v >> 32 == v / 0x1_0000_0000) by (bit_vector);
        }
        push_u32(&mut bytes, lo);
        push_u32(&mut bytes, hi);
        proof {
            assert(values@.take(i + 1).drop_last() =~= values@.take(i as int));
            assert(bytes@ =~= before + u64_le(v));
        }
        i += 1;
    }
    assert(values@.take(i as int) =~= values@);
    bytes
}

/// Reads the array of `u32` that `bytes` holds.
pub fn decode_u32s(bytes: &[u8]) -> (values: Vec<u32>)
    ensures
        values@ == u32s_of_le(bytes@),
{
    let n: usize = bytes.len() / 4;
    let mut values: Vec<u32> = Vec::new();
    let mut i: usize = 0;
    while i < n
        invariant
            n == bytes@.len() / 4,
            bytes@.len() <= usize::MAX,
            i <= n,
            values@.len() == i,
            forall|k: int| 0 <= k < i ==> #[trigger] values@[k] == u32_at(bytes@, 4 * k),
        decreases n - i,
    {
        values.push(read_u32(bytes, 4 * i));
        i += 1;
    }
    assert(values@ =~= u32s_of_le(bytes@));
    values
}

/// Reads the array of `u64` that `bytes` holds.
pub fn decode_u64s(bytes: &[u8]) -> (values: Vec<u64>)
    ensures
        values@ == u64s_of_le(bytes@),
{
    let n: usize = bytes.len() / 8;
    let mut values: Vec<u64> = Vec::new();
    let mut i: usize = 0;
    while i < n
        invariant
            n == bytes@.len() / 8,
            bytes@.len() <= usize::MAX,
            i <= n,
            values@.len() == i,
            forall|k: int| 0 <= k < i ==> #[trigger] values@[k] == u64_at(bytes@, 8 * k),
        decreases n - i,
    {
        let lo: u64 = read_u32(bytes, 8 * i) as u64;
        let hi: u64 = read_u32(bytes, 8 * i + 4) as u64;
        values.push(lo + hi * 0x1_0000_0000);
        i += 1;
    }
    assert(values@ =~= u64s_of_le(bytes@));
    values
}

} // verus!
