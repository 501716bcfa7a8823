//! The status page: the persisted read and write positions of the log.
//!
//! Layout (56 bytes, little-endian): magic0 @0, serial0 @8, read_block @16,
//! write_block @24, read_byte @32 (2 bytes), write_byte @34 (2 bytes),
//! 4 zero bytes @36, serial1 @40, magic1 @48.

use vstd::prelude::*;
use crate::sdlog::le::{le_value, le_bytes, from_le, to_le, lemma_le_roundtrip, lemma_pow256_values, pow256, lemma_le_value_bound};

verus! {

/// Marks a valid status page.
pub const MAGIC: u64 = 0x9B98E2A6896DC3E1;

/// Number of bytes of an encoded status page.
pub const STATUS_PAGE_SIZE: usize = 56;

#[derive(Clone, Copy, PartialEq, Eq, Debug)]
pub struct StatusPage {
    pub magic0: u64,
    pub serial0: u64,
    pub read_block: u64,
    pub write_block: u64,
    pub read_byte: u16,
    pub write_byte: u16,
    pub serial1: u64,
    pub magic1: u64,
}

/// The all-zero page that stands for "no valid page found".
pub open spec fn default_page() -> StatusPage {
    StatusPage {
        magic0: 0,
        serial0: 0,
        read_block: 0,
        write_block: 0,
        read_byte: 0,
        write_byte: 0,
        serial1: 0,
        magic1: 0,
    }
}

/// The encoding of a page.
pub open spec fn encode(p: StatusPage) -> Seq<u8> {
    le_bytes(p.magic0 as nat, 8) + le_bytes(p.serial0 as nat, 8) + le_bytes(p.read_block as nat, 8)
        + le_bytes(p.write_block as nat, 8) + le_bytes(p.read_byte as nat, 2) + le_bytes(
        p.write_byte as nat,
        2,
    ) + seq![0u8, 0u8, 0u8, 0u8] + le_bytes(p.serial1 as nat, 8) + le_bytes(p.magic1 as nat, 8)
}

/// The field of `b` that starts at `off` and is `n` bytes wide.
pub open spec fn field(b: Seq<u8>, off: int, n: int) -> nat {
    le_value(b.subrange(off, off + n))
}

/// The page that the first 56 bytes of `b` hold.
pub open spec fn decode(b: Seq<u8>) -> StatusPage {
    StatusPage {
        magic0: field(b, 0, 8) as u64,
        serial0: field(b, 8, 8) as u64,
        read_block: field(b, 16, 8) as u64,
        write_block: field(b, 24, 8) as u64,
        read_byte: field(b, 32, 2) as u16,
        write_byte: field(b, 34, 2) as u16,
        serial1: field(b, 40, 8) as u64,
        magic1: field(b, 48, 8) as u64,
    }
}

/// Whether a page is consistent and its positions lie inside a data area of
/// `data_blocks` blocks of `512` bytes.
pub open spec fn page_is_valid(p: StatusPage, data_blocks: nat) -> bool {
    &&& p.magic0 == MAGIC
    &&& p.magic0 == p.magic1
    &&& p.serial0 == p.serial1
    &&& p.read_block < data_blocks
    &&& p.write_block < data_blocks
    &&& p.read_byte < 512
    &&& p.write_byte < 512
}

/// The page that a block holds if it is valid, else the default page.
pub open spec fn checked_page(b: Seq<u8>, data_blocks: nat) -> StatusPage {
    if page_is_valid(decode(b), data_blocks) {
        decode(b)
    } else {
        default_page()
    }
}

/// Of the pages held by the two status blocks, the one with the larger serial;
/// the first one on a tie.
pub open spec fn newest_page(b0: Seq<u8>, b1: Seq<u8>, data_blocks: nat) -> StatusPage {
    let p0 = checked_page(b0, data_blocks);
    let p1 = checked_page(b1, data_blocks);
    if p0.serial0 >= p1.serial0 {
        p0
    } else {
        p1
    }
}

proof fn lemma_field_of(b: Seq<u8>, off: int, n: nat, val: nat, prefix: Seq<u8>, rest: Seq<u8>)
    requires
        b == prefix + le_bytes(val, n) + rest,
        prefix.len() == off,
        n == 2 || n == 8,
        val < pow256(n),
    ensures
        field(b, off, n as int) == val,
{
    assert(b.subrange(off, off + n) =~= le_bytes(val, n));
    lemma_le_roundtrip(val, n);
    vstd::arithmetic::div_mod::lemma_small_mod(val, pow256(n));
}

/// Decoding an encoded page gives back the page.
#[verifier::rlimit(50)]
pub proof fn lemma_decode_encode(p: StatusPage)
    ensures
        decode(encode(p)) == p,
        encode(p).len() == STATUS_PAGE_SIZE,
{
    lemma_pow256_values();
    let e = encode(p);
    let a0 = le_bytes(p.magic0 as nat, 8);
    let a1 = le_bytes(p.serial0 as nat, 8);
    let a2 = le_bytes(p.read_block as nat, 8);
    let a3 = le_bytes(p.write_block as nat, 8);
    let a4 = le_bytes(p.read_byte as nat, 2);
    let a5 = le_bytes(p.write_byte as nat, 2);
    let pad = seq![0u8, 0u8, 0u8, 0u8];
    let a6 = le_bytes(p.serial1 as nat, 8);
    let a7 = le_bytes(p.magic1 as nat, 8);
    assert(e =~= a0 + a1 + a2 + a3 + a4 + a5 + pad + a6 + a7);
    assert(e =~= Seq::empty() + a0 + (a1 + a2 + a3 + a4 + a5 + pad + a6 + a7));
    lemma_field_of(e, 0, 8, p.magic0 as nat, Seq::empty(), a1 + a2 + a3 + a4 + a5 + pad + a6 + a7);
    assert(e =~= a0 + a1 + (a2 + a3 + a4 + a5 + pad + a6 + a7));
    lemma_field_of(e, 8, 8, p.serial0 as nat, a0, a2 + a3 + a4 + a5 + pad + a6 + a7);
    assert(e =~= (a0 + a1) + a2 + (a3 + a4 + a5 + pad + a6 + a7));
    lemma_field_of(e, 16, 8, p.read_block as nat, a0 + a1, a3 + a4 + a5 + pad + a6 + a7);
    assert(e =~= (a0 + a1 + a2) + a3 + (a4 + a5 + pad + a6 + a7));
    lemma_field_of(e, 24, 8, p.write_block as nat, a0 + a1 + a2, a4 + a5 + pad + a6 + a7);
    assert(e =~= (a0 + a1 + a2 + a3) + a4 + (a5 + pad + a6 + a7));
    lemma_field_of(e, 32, 2, p.read_byte as nat, a0 + a1 + a2 + a3, a5 + pad + a6 + a7);
    assert(e =~= (a0 + a1 + a2 + a3 + a4) + a5 + (pad + a6 + a7));
    lemma_field_of(e, 34, 2, p.write_byte as nat, a0 + a1 + a2 + a3 + a4, pad + a6 + a7);
    assert(e =~= (a0 + a1 + a2 + a3 + a4 + a5 + pad) + a6 + a7);
    lemma_field_of(e, 40, 8, p.serial1 as nat, a0 + a1 + a2 + a3 + a4 + a5 + pad, a7);
    assert(e =~= (a0 + a1 + a2 + a3 + a4 + a5 + pad + a6) + a7 + Seq::empty());
    lemma_field_of(e, 48, 8, p.magic1 as nat, a0 + a1 + a2 + a3 + a4 + a5 + pad + a6, Seq::empty());
}

impl StatusPage {
    /// The page with every field zero.
    pub fn zeroed() -> (p: StatusPage)
        ensures
            p == default_page(),
    {
        StatusPage {
            magic0: 0,
            serial0: 0,
            read_block: 0,
            write_block: 0,
            read_byte: 0,
            write_byte: 0,
            serial1: 0,
            magic1: 0,
        }
    }

    /// Encodes the page.
    pub fn to_bytes(&self) -> (out: Vec<u8>)
        ensures
            out@ == encode(*self),
            out@.len() == STATUS_PAGE_SIZE,
    {
        let mut out: Vec<u8> = Vec::new();
        to_le(&mut out, 8, self.magic0);
        to_le(&mut out, 8, self.serial0);
        to_le(&mut out, 8, self.read_block);
        to_le(&mut out, 8, self.write_block);
        to_le(&mut out, 2, self.read_byte as u64);
        to_le(&mut out, 2, self.write_byte as u64);
        out.push(0);
        out.push(0);
        out.push(0);
        out.push(0);
        to_le(&mut out, 8, self.serial1);
        to_le(&mut out, 8, self.magic1);
        proof {
            lemma_decode_encode(*self);
        }
        assert(out@ =~= encode(*self));
        out
    }

    /// Decodes the page held by the first 56 bytes of `b`.
    pub fn from_bytes(b: &[u8]) -> (p: StatusPage)
        requires
            b@.len() >= STATUS_PAGE_SIZE,
        ensures
            p == decode(b@),
    {
        let magic0 = from_le(slice_at(b, 0, 8), 8);
        let serial0 = from_le(slice_at(b, 8, 8), 8);
        let read_block = from_le(slice_at(b, 16, 8), 8);
        let write_block = from_le(slice_at(b, 24, 8), 8);
        let read_byte = from_le(slice_at(b, 32, 2), 2);
        let write_byte = from_le(slice_at(b, 34, 2), 2);
        let serial1 = from_le(slice_at(b, 40, 8), 8);
        let magic1 = from_le(slice_at(b, 48, 8), 8);
        proof {
            lemma_pow256_values();
            lemma_le_value_bound(b@.subrange(32, 34));
            lemma_le_value_bound(b@.subrange(34, 36));
        }
        StatusPage {
            magic0,
            serial0,
            read_block,
            write_block,
            read_byte: read_byte as u16,
            write_byte: write_byte as u16,
            serial1,
            magic1,
        }
    }
}

/// The `n` bytes of `b` that start at `off`.
fn slice_at(b: &[u8], off: usize, n: usize) -> (s: &[u8])
    requires
        off <= 64,
        n <= 8,
        off + n <= b@.len(),
    ensures
        s@ == b@.subrange(off as int, off + n),
        s@.take(n as int) == s@,
{
    let s = vstd::slice::slice_subrange(b, off, off + n);
    assert(s@.take(n as int) =~= s@);
    s
}

/// The layout of a status page: each field, little-endian, at its offset
/// (magic0 @0, serial0 @8, read_block @16, write_block @24, read_byte @32,
/// write_byte @34, four zero bytes @36, serial1 @40, magic1 @48), in 56
/// bytes; decoding reads each field from the same offset.
pub proof fn lemma_page_layout(p: StatusPage, b: Seq<u8>)
    ensures
        encode(p).len() == 56,
        encode(p).subrange(0, 8) == le_bytes(p.magic0 as nat, 8),
        encode(p).subrange(8, 16) == le_bytes(p.serial0 as nat, 8),
        encode(p).subrange(16, 24) == le_bytes(p.read_block as nat, 8),
        encode(p).subrange(24, 32) == le_bytes(p.write_block as nat, 8),
        encode(p).subrange(32, 34) == le_bytes(p.read_byte as nat, 2),
        encode(p).subrange(34, 36) == le_bytes(p.write_byte as nat, 2),
        encode(p).subrange(36, 40) == seq![0u8, 0u8, 0u8, 0u8],
        encode(p).subrange(40, 48) == le_bytes(p.serial1 as nat, 8),
        encode(p).subrange(48, 56) == le_bytes(p.magic1 as nat, 8),
        b.len() >= 56 ==> {
            &&& decode(b).magic0 == le_value(b.subrange(0, 8))
            &&& decode(b).serial0 == le_value(b.subrange(8, 16))
            &&& decode(b).read_block == le_value(b.subrange(16, 24))
            &&& decode(b).write_block == le_value(b.subrange(24, 32))
            &&& decode(b).read_byte == le_value(b.subrange(32, 34))
            &&& decode(b).write_byte == le_value(b.subrange(34, 36))
            &&& decode(b).serial1 == le_value(b.subrange(40, 48))
            &&& decode(b).magic1 == le_value(b.subrange(48, 56))
        },
{
    lemma_pow256_values();
    let e = encode(p);
    let a0 = le_bytes(p.magic0 as nat, 8);
    let a1 = le_bytes(p.serial0 as nat, 8);
    let a2 = le_bytes(p.read_block as nat, 8);
    let a3 = le_bytes(p.write_block as nat, 8);
    let a4 = le_bytes(p.read_byte as nat, 2);
    let a5 = le_bytes(p.write_byte as nat, 2);
    let pad = seq![0u8, 0u8, 0u8, 0u8];
    let a6 = le_bytes(p.serial1 as nat, 8);
    let a7 = le_bytes(p.magic1 as nat, 8);
    assert(e =~= a0 + a1 + a2 + a3 + a4 + a5 + pad + a6 + a7);
    assert(e.subrange(0, 8) =~= a0);
    assert(e.subrange(8, 16) =~= a1);
    assert(e.subrange(16, 24) =~= a2);
    assert(e.subrange(24, 32) =~= a3);
    assert(e.subrange(32, 34) =~= a4);
    assert(e.subrange(34, 36) =~= a5);
    assert(e.subrange(36, 40) =~= pad);
    assert(e.subrange(40, 48) =~= a6);
    assert(e.subrange(48, 56) =~= a7);
    if b.len() >= 56 {
        lemma_le_value_bound(b.subrange(0, 8));
        lemma_le_value_bound(b.subrange(8, 16));
        lemma_le_value_bound(b.subrange(16, 24));
        lemma_le_value_bound(b.subrange(24, 32));
        lemma_le_value_bound(b.subrange(32, 34));
        lemma_le_value_bound(b.subrange(34, 36));
        lemma_le_value_bound(b.subrange(40, 48));
        lemma_le_value_bound(b.subrange(48, 56));
    }
}

/// Opening selects, of the two status blocks, a page that one of them holds
/// once checked, with a serial no smaller than the other's; a block whose
/// page is not valid counts as the all-zero page.
pub proof fn lemma_newest_page(b0: Seq<u8>, b1: Seq<u8>, data_blocks: nat)
    ensures
        newest_page(b0, b1, data_blocks) == checked_page(b0, data_blocks) || newest_page(b0, b1, data_blocks)
            == checked_page(b1, data_blocks),
        newest_page(b0, b1, data_blocks).serial0 >= checked_page(b0, data_blocks).serial0,
        newest_page(b0, b1, data_blocks).serial0 >= checked_page(b1, data_blocks).serial0,
        checked_page(b0, data_blocks).serial0 == checked_page(b1, data_blocks).serial0 ==> newest_page(b0, b1, data_blocks)
            == checked_page(b0, data_blocks),
        page_is_valid(decode(b0), data_blocks) ==> checked_page(b0, data_blocks) == decode(b0),
        !page_is_valid(decode(b0), data_blocks) ==> checked_page(b0, data_blocks).serial0 == 0
            && checked_page(b0, data_blocks).read_block == 0 && checked_page(b0, data_blocks).write_block == 0
            && checked_page(b0, data_blocks).read_byte == 0 && checked_page(b0, data_blocks).write_byte == 0,
        page_is_valid(decode(b0), data_blocks) <==> (decode(b0).magic0 == MAGIC && decode(b0).magic1 == MAGIC
            && decode(b0).serial0 == decode(b0).serial1 && decode(b0).read_block < data_blocks
            && decode(b0).write_block < data_blocks && decode(b0).read_byte < 512 && decode(b0).write_byte < 512),
{
}

} // verus!
