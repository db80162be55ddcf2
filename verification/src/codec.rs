use byteorder::{BigEndian, ByteOrder};
use vstd::arithmetic::div_mod::lemma_fundamental_div_mod_converse;
use vstd::prelude::*;

verus! {

/// The number that four bytes stand for when the most significant byte comes first.
#[verifier::opaque]
pub open spec fn be_u32(b: Seq<u8>) -> u32
    recommends
        b.len() == 4,
{
    (b[0] as int * 0x100_0000 + b[1] as int * 0x1_0000 + b[2] as int * 0x100 + b[3] as int) as u32
}

/// The four bytes of `n`, most significant first.
#[verifier::opaque]
pub open spec fn u32_be(n: u32) -> Seq<u8> {
    seq![
        (n / 0x100_0000) as u8,
        ((n / 0x1_0000) % 0x100) as u8,
        ((n / 0x100) % 0x100) as u8,
        (n % 0x100) as u8,
    ]
}

/// The number that eight bytes stand for when the most significant byte comes first.
#[verifier::opaque]
pub open spec fn be_u64(b: Seq<u8>) -> u64
    recommends
        b.len() == 8,
{
    (be_u32(b.subrange(0, 4)) as int * 0x1_0000_0000 + be_u32(b.subrange(4, 8)) as int) as u64
}

/// The eight bytes of `n`, most significant first.
#[verifier::opaque]
pub open spec fn u64_be(n: u64) -> Seq<u8> {
    u32_be((n / 0x1_0000_0000) as u32) + u32_be((n % 0x1_0000_0000) as u32)
}

/// A number of 32 bits has four bytes, one of 64 bits eight.
pub proof fn lemma_be_lengths(n: u32, m: u64)
    ensures
        u32_be(n).len() == 4,
        u64_be(m).len() == 8,
{
    reveal(u32_be);
    reveal(u64_be);
}

/// Reading back the four bytes of a number gives the number.
pub proof fn lemma_be_u32_of_u32_be(n: u32)
    ensures
        u32_be(n).len() == 4,
        be_u32(u32_be(n)) == n,
{
    reveal(u32_be);
    reveal(be_u32);
    let x = n as int;
    let a = x / 0x100;
    let b = a / 0x100;
    let c = b / 0x100;
    lemma_fundamental_div_mod_converse(x, 0x1_0000, b, (a % 0x100) * 0x100 + x % 0x100);
    lemma_fundamental_div_mod_converse(
        x,
        0x100_0000,
        c,
        (b % 0x100) * 0x1_0000 + (a % 0x100) * 0x100 + x % 0x100,
    );
    assert(c * 0x100_0000 + (b % 0x100) * 0x1_0000 + (a % 0x100) * 0x100 + x % 0x100 == x);
}

/// Reading back the eight bytes of a number gives the number.
pub proof fn lemma_be_u64_of_u64_be(n: u64)
    ensures
        u64_be(n).len() == 8,
        be_u64(u64_be(n)) == n,
{
    reveal(u64_be);
    reveal(be_u64);
    let hi = (n / 0x1_0000_0000) as u32;
    let lo = (n % 0x1_0000_0000) as u32;
    lemma_be_u32_of_u32_be(hi);
    lemma_be_u32_of_u32_be(lo);
    assert(u64_be(n).subrange(0, 4) =~= u32_be(hi));
    assert(u64_be(n).subrange(4, 8) =~= u32_be(lo));
    assert(hi as int * 0x1_0000_0000 + lo as int == n as int);
}

/// `byteorder::BigEndian::read_u32`: the number held big-endian in the first four
/// bytes of `buf`. The outside function panics on a shorter buffer.
#[verifier::external_body]
pub(crate) fn read_u32(buf: &[u8]) -> (n: u32)
    requires
        buf@.len() >= 4,
    ensures
        n == be_u32(buf@.subrange(0, 4)),
{
    BigEndian::read_u32(buf)
}

/// `byteorder::BigEndian::read_u64`: the number held big-endian in the first eight
/// bytes of `buf`. The outside function panics on a shorter buffer.
#[verifier::external_body]
pub(crate) fn read_u64(buf: &[u8]) -> (n: u64)
    requires
        buf@.len() >= 8,
    ensures
        n == be_u64(buf@.subrange(0, 8)),
{
    BigEndian::read_u64(buf)
}

/// `byteorder::BigEndian::write_u32` on a fresh buffer of four bytes: the bytes of
/// `n`, most significant first.
#[verifier::external_body]
pub(crate) fn write_u32(n: u32) -> (out: Vec<u8>)
    ensures
        out@ == u32_be(n),
{
    let mut raw = [0u8; 4];
    BigEndian::write_u32(&mut raw, n);
    raw.to_vec()
}

/// `byteorder::BigEndian::write_u64` on a fresh buffer of eight bytes: the bytes of
/// `n`, most significant first.
#[verifier::external_body]
pub(crate) fn write_u64(n: u64) -> (out: Vec<u8>)
    ensures
        out@ == u64_be(n),
{
    let mut raw = [0u8; 8];
    BigEndian::write_u64(&mut raw, n);
    raw.to_vec()
}

} // verus!
