//! The log itself: a ring of data blocks after the status blocks, holding a
//! stream of length-prefixed records.

use vstd::prelude::*;
use std::collections::VecDeque;
use crate::sdlog::device::{BlockIo, Block, Item, Error, BLOCK_SIZE};
use crate::sdlog::wrbuf::{buffered, wrbuf_new, wrbuf_len, wrbuf_as_slice, wrbuf_extend_from_slice, wrbuf_clear};
use crate::sdlog::le::{le_value, le_bytes, from_le, to_le, pow256, is_width, lemma_le_roundtrip, lemma_pow256_values};
use crate::sdlog::status::{StatusPage, MAGIC, STATUS_PAGE_SIZE, encode, decode, checked_page, newest_page, page_is_valid, lemma_decode_encode};

verus! {

/// Index of the first data block; blocks before it hold the status pages.
pub const DATA_BLOCKS_OFFS: u64 = 16;

/// The smallest device the log accepts, in blocks.
pub const MIN_NUM_BLOCKS: u64 = 1024;

/// The largest device the log accepts, in blocks: on larger devices the sum
/// of a byte position and the capacity in bytes would not fit in a `u64`.
pub const MAX_NUM_BLOCKS: u64 = 0x40_0000_0000_0000;

/// The width of the length prefix of records whose framed size is at most
/// `max_size`.
pub open spec fn prefix_width(max_size: nat) -> nat {
    if max_size <= 0xff {
        1
    } else if max_size <= 0xffff {
        2
    } else if max_size <= 0xffff_ffff {
        4
    } else {
        8
    }
}

/// A record as it is stored: its length in `prefix` bytes, then its bytes.
pub open spec fn frame(payload: Seq<u8>, prefix: nat) -> Seq<u8> {
    le_bytes(payload.len(), prefix) + payload
}

/// The stored size of the record at the front of `s`, if `s` starts with a
/// complete record of non-zero length.
pub open spec fn front_frame_size(s: Seq<u8>, prefix: nat) -> Option<nat> {
    if s.len() < prefix {
        None
    } else {
        let len = le_value(s.take(prefix as int));
        if len == 0 || s.len() < prefix + len || prefix + len > usize::MAX {
            None
        } else {
            Some(prefix + len)
        }
    }
}

pub struct SdLog<B: BlockIo, I: Item, const QLEN: usize> {
    bio: B,
    queue: VecDeque<I>,
    /// Bytes of the block currently being assembled for writing (`write_block`).
    wrbuf: heapless::Vec<u8, 512>,
    /// Copy of the block last loaded for reading.
    rdcache: Block,
    rdcache_idx: Option<u64>,
    status_page_dirty: bool,
    serial: u64,
    read_block: u64,
    read_byte: u16,
    write_block: u64,
    write_byte: u16,
    num_blocks: u64,
    item_max: usize,
}

impl<B: BlockIo, I: Item, const QLEN: usize> SdLog<B, I, QLEN> {
    /// Number of data blocks.
    pub closed spec fn data_blocks(&self) -> int {
        self.num_blocks - DATA_BLOCKS_OFFS
    }

    /// Number of data bytes.
    pub closed spec fn capacity(&self) -> int {
        self.data_blocks() * 512
    }

    /// The read position, in bytes from the start of the data blocks.
    pub closed spec fn rpos(&self) -> int {
        self.read_block * 512 + self.read_byte
    }

    /// The write position, in bytes from the start of the data blocks.
    pub closed spec fn wpos(&self) -> int {
        self.write_block * 512 + self.write_byte
    }

    /// Number of bytes between the read and the write position.
    pub closed spec fn occupancy(&self) -> int {
        let x = self.wpos() + self.capacity() - self.rpos();
        if x >= 2 * self.capacity() {
            x - 2 * self.capacity()
        } else if x >= self.capacity() {
            x - self.capacity()
        } else {
            x
        }
    }

    spec fn wrap(&self, x: int) -> int {
        if x >= self.capacity() {
            x - self.capacity()
        } else {
            x
        }
    }

    /// The byte at data position `p`: from the write buffer for the bytes of
    /// the block being assembled that were written, else from the device.
    spec fn byte_at(&self, p: int) -> u8 {
        if p / 512 == self.write_block && p % 512 < self.write_byte {
            buffered(self.wrbuf)[p % 512]
        } else {
            self.bio.stored((p / 512 + DATA_BLOCKS_OFFS) as u64)[p % 512]
        }
    }

    /// The unread bytes, from the read position to the write position.
    pub closed spec fn stream(&self) -> Seq<u8> {
        Seq::new(self.occupancy() as nat, |k: int| self.byte_at(self.wrap(self.rpos() + k)))
    }

    /// Width of the length prefix of the records.
    pub closed spec fn prefix(&self) -> nat {
        prefix_width(self.item_max as nat)
    }

    /// The largest framed record size.
    pub closed spec fn max_record(&self) -> nat {
        self.item_max as nat
    }

    /// The values waiting to be written, oldest first.
    pub closed spec fn queued(&self) -> Seq<I> {
        self.queue@
    }

    /// The device that the log is stored on.
    pub closed spec fn device(&self) -> B {
        self.bio
    }

    /// Whether the positions changed since the status page was last written.
    pub closed spec fn dirty(&self) -> bool {
        self.status_page_dirty
    }

    /// The shape that every log keeps.
    pub closed spec fn inv(&self) -> bool {
        &&& MIN_NUM_BLOCKS <= self.num_blocks <= MAX_NUM_BLOCKS
        &&& self.read_block < self.data_blocks()
        &&& self.write_block < self.data_blocks()
        &&& self.read_byte <= 512
        &&& self.write_byte <= 512
        &&& buffered(self.wrbuf).len() == self.write_byte
        &&& self.queue@.len() <= QLEN
    }

    /// The reader sits in the block being assembled, ahead of the writer: the
    /// writer has come round the ring to the reader's block, and the unread
    /// bytes of that block after the write offset are still on the device.
    spec fn reader_ahead(&self) -> bool {
        self.read_block == self.write_block && self.read_byte > self.write_byte
    }

    /// The first offset of block `b` whose bytes reads take from the device.
    spec fn device_from(&self, b: u64) -> int {
        if b == self.write_block {
            self.write_byte as int
        } else {
            0
        }
    }

    /// If the cache holds block `b`, it holds the bytes of `b` that reads take
    /// from the device as the device stores them.
    spec fn cache_holds(&self, b: u64) -> bool {
        self.rdcache_idx == Some(b) ==> forall|k: int| self.device_from(b) <= k < 512
            ==> #[trigger] self.rdcache@[k] == self.bio.stored((b + DATA_BLOCKS_OFFS) as u64)[k]
    }

    /// The state in which `stream()` is what reads give back.
    spec fn good(&self) -> bool {
        &&& self.cache_holds(self.read_block)
        &&& (self.rdcache_idx == Some(self.read_block) && self.read_block == self.write_block)
            ==> self.read_byte > self.write_byte
        &&& (self.write_byte == 512 && self.occupancy() == 0) ==> self.read_block
            == self.write_block
    }

    /// `x % c` for `0 <= x <= 2 * c`.
    proof fn lemma_mod_small(x: int, c: int)
        requires
            c > 0,
            0 <= x <= 2 * c,
        ensures
            x % c == if x >= 2 * c {
                x - 2 * c
            } else if x >= c {
                x - c
            } else {
                x
            },
    {
        if x >= 2 * c {
            vstd::arithmetic::div_mod::lemma_fundamental_div_mod_converse(x, c, 2, x - 2 * c);
        } else if x >= c {
            vstd::arithmetic::div_mod::lemma_fundamental_div_mod_converse(x, c, 1, x - c);
        } else {
            vstd::arithmetic::div_mod::lemma_fundamental_div_mod_converse(x, c, 0, x);
        }
    }

    /// The next data block after `index`, wrapping to the first.
    fn block_idx_inc(&self, index: u64) -> (r: u64)
        requires
            self.inv(),
            index < self.data_blocks(),
        ensures
            r == if index + 1 == self.data_blocks() {
                0
            } else {
                index + 1
            },
    {
        let d = self.num_blocks - DATA_BLOCKS_OFFS;
        proof {
            Self::lemma_mod_small(index + 1, d as int);
        }
        (index + 1) % d
    }

    fn block_idx_is_valid(&self, index: u64) -> (r: bool)
        requires
            self.inv(),
        ensures
            r == (index < self.data_blocks()),
    {
        index < self.num_blocks - DATA_BLOCKS_OFFS
    }

    /// Total number of usable data bytes on the device.
    fn capacity_bytes(&self) -> (r: u64)
        requires
            self.inv(),
        ensures
            r == self.capacity(),
    {
        proof {
            lemma_block_pos_bound(0, self.num_blocks as int);
        }
        (self.num_blocks - DATA_BLOCKS_OFFS) * BLOCK_SIZE as u64
    }

    /// Number of unread bytes currently stored between the read and write positions.
    fn occupancy_bytes(&self) -> (r: u64)
        requires
            self.inv(),
        ensures
            r == self.occupancy(),
    {
        let cap = self.capacity_bytes();
        proof {
            lemma_block_pos_bound(self.write_block as int, self.num_blocks as int);
            lemma_block_pos_bound(self.read_block as int, self.num_blocks as int);
        }
        let w = self.write_block * 512 + self.write_byte as u64;
        let r = self.read_block * 512 + self.read_byte as u64;
        proof {
            Self::lemma_mod_small(w + cap - r, cap as int);
        }
        (w + cap - r) % cap
    }

    /// Number of bytes that can still be written without catching up with the
    /// read position; one byte is kept free so that a full ring and an empty
    /// one can be told apart.
    fn free_bytes(&self) -> (r: u64)
        requires
            self.inv(),
        ensures
            r == self.capacity() - 1 - self.occupancy(),
    {
        self.capacity_bytes() - 1 - self.occupancy_bytes()
    }
}


/// Byte positions of a data block fit the arithmetic.
proof fn lemma_block_pos_bound(b: int, num_blocks: int)
    requires
        0 <= b < num_blocks - DATA_BLOCKS_OFFS,
        num_blocks <= MAX_NUM_BLOCKS,
    ensures
        b * 512 + 512 <= (num_blocks - DATA_BLOCKS_OFFS) * 512,
        (num_blocks - DATA_BLOCKS_OFFS) * 512 <= 0x8000_0000_0000_0000 - 8192,
{
}

/// The position `b * 512 + o` lies in block `b` at offset `o`.
proof fn lemma_split(b: int, o: int)
    requires
        0 <= o < 512,
    ensures
        (b * 512 + o) / 512 == b,
        (b * 512 + o) % 512 == o,
{
    vstd::arithmetic::div_mod::lemma_fundamental_div_mod_converse(b * 512 + o, 512, b, o);
}

impl<B: BlockIo, I: Item, const QLEN: usize> SdLog<B, I, QLEN> {
    /// Everything but the reading side (read position and cache) and the
    /// device's own state is the same.
    spec fn same_writer(&self, other: &Self) -> bool {
        &&& forall|j: u64| #[trigger] self.bio.stored(j) == other.bio.stored(j)
        &&& self.wrbuf == other.wrbuf
        &&& self.write_block == other.write_block
        &&& self.write_byte == other.write_byte
        &&& self.num_blocks == other.num_blocks
        &&& self.item_max == other.item_max
        &&& self.queue == other.queue
        &&& self.status_page_dirty == other.status_page_dirty
        &&& self.serial == other.serial
    }

    /// Moving the read position `t` bytes forward drops the first `t` bytes of
    /// the stream.
    proof fn lemma_advance(old_log: &Self, new_log: &Self, t: int)
        requires
            old_log.inv(),
            new_log.inv(),
            new_log.same_writer(old_log),
            0 <= t <= old_log.occupancy(),
            new_log.rpos() == old_log.rpos() + t || (new_log.rpos() == 0 && old_log.rpos() + t
                == old_log.capacity()),
        ensures
            new_log.occupancy() == old_log.occupancy() - t,
            new_log.stream() =~= old_log.stream().skip(t),
    {
        assert forall|k: int| 0 <= k < new_log.occupancy() implies #[trigger] new_log.stream()[k]
            == old_log.stream().skip(t)[k] by {
            assert(new_log.wrap(new_log.rpos() + k) == old_log.wrap(old_log.rpos() + t + k));
        }
    }

    /// With the reader in the block being assembled, behind the writer, the
    /// unread bytes are those between the two byte offsets.
    proof fn lemma_same_block_occupancy(log: &Self)
        requires
            log.inv(),
            log.read_block == log.write_block,
            log.read_byte <= log.write_byte,
        ensures
            log.occupancy() == log.write_byte - log.read_byte,
    {
        lemma_block_pos_bound(log.read_block as int, log.num_blocks as int);
    }

    /// Ensures the block at `self.read_block` is loaded into `self.rdcache`.
    fn load_read_cache(&mut self) -> (r: Result<(), Error>)
        requires
            old(self).inv(),
            old(self).cache_holds(old(self).read_block),
        ensures
            final(self).inv(),
            final(self).same_writer(old(self)),
            final(self).read_block == old(self).read_block,
            final(self).read_byte == old(self).read_byte,
            forall|b: u64| old(self).cache_holds(b) ==> #[trigger] final(self).cache_holds(b),
            r is Ok ==> final(self).cache_holds(final(self).read_block) && final(self).rdcache_idx
                == Some(final(self).read_block),
            r is Err ==> r == Err::<(), Error>(Error::BlockRead) && final(self).rdcache_idx
                == old(self).rdcache_idx,
    {
        if self.rdcache_idx != Some(self.read_block) {
            match self.bio.read_block(self.read_block + DATA_BLOCKS_OFFS) {
                Ok(block) => {
                    self.rdcache = block;
                    self.rdcache_idx = Some(self.read_block);
                },
                Err(_) => {
                    return Err(Error::BlockRead);
                },
            }
        }
        Ok(())
    }

    /// The unread bytes all lie in the write buffer: the reader is in the
    /// block being assembled, at or behind the writer.
    pub open spec fn unread_in_buffer(&self) -> bool {
        &&& self.read_block_index() == self.write_block_index()
        &&& self.read_byte_index() <= self.write_byte_index()
    }

    /// Reads exactly `n` bytes from the read stream, starting at the current
    /// read position, crossing block boundaries as needed.
    #[verifier::spinoff_prover]
    #[verifier::rlimit(40)]
    fn read_stream(&mut self, n: usize) -> (r: Result<Vec<u8>, Error>)
        requires
            old(self).inv(),
            old(self).good(),
            n <= old(self).occupancy(),
        ensures
            final(self).inv(),
            final(self).good(),
            final(self).same_writer(old(self)),
            old(self).cache_holds(old(self).read_block) ==> final(self).cache_holds(
                old(self).read_block,
            ),
            final(self).rdcache_idx == Some(old(self).read_block) && old(self).read_block
                == old(self).write_block ==> old(self).read_byte > old(self).write_byte,
            old(self).occupancy() - n <= final(self).occupancy() <= old(self).occupancy(),
            final(self).stream() == old(self).stream().skip(
                old(self).occupancy() - final(self).occupancy(),
            ),
            r matches Ok(out) ==> out@ == old(self).stream().take(n as int)
                && final(self).occupancy() == old(self).occupancy() - n,
            r is Err ==> r == Err::<Vec<u8>, Error>(Error::BlockRead),
            old(self).unread_in_buffer() ==> r is Ok,
            old(self).offsets_in_block() ==> final(self).offsets_in_block(),
    {
        let ghost s0 = self.stream();
        let ghost ob = self.read_block;
        let ghost occ0 = self.occupancy();
        let mut out: Vec<u8> = Vec::with_capacity(n);
        assert(out@ =~= s0.take(0));
        assert(s0 =~= s0.skip(0));
        while out.len() < n
            invariant
                self.inv(),
                self.good(),
                self.same_writer(old(self)),
                old(self).cache_holds(ob) ==> self.cache_holds(ob),
                self.rdcache_idx == Some(ob) && ob == old(self).write_block ==> old(self).read_byte
                    > old(self).write_byte,
                old(self).unread_in_buffer() ==> self.read_block == self.write_block
                    && self.read_byte <= self.write_byte,
                old(self).offsets_in_block() ==> self.offsets_in_block(),
                ob == old(self).read_block,
                s0 == old(self).stream(),
                occ0 == old(self).occupancy(),
                out.len() <= n <= occ0,
                self.occupancy() == occ0 - out.len(),
                self.stream() == s0.skip(out.len() as int),
                out@ == s0.take(out.len() as int),
            decreases 2 * (n - out.len()) + (if self.read_byte == 512 { 1int } else { 0int }),
        {
            let ghost before = out@;
            let want = n - out.len();
            let chunk = if self.read_block == self.write_block && self.read_byte <= self.write_byte {
                // The unread bytes are in the block being assembled for
                // writing: take them straight from the write buffer.
                let avail = (self.write_byte - self.read_byte) as usize;
                proof {
                    Self::lemma_same_block_occupancy(self);
                }
                self.read_from_wrbuf(if avail < want { avail } else { want })
            } else {
                match self.read_from_device(want) {
                    Ok(c) => c,
                    Err(e) => {
                        return Err(e);
                    },
                }
            };
            proof {
                assert(self.stream() =~= s0.skip((before.len() + chunk@.len()) as int));
            }
            out.extend_from_slice(chunk.as_slice());
            proof {
                assert(out@ =~= s0.take(out.len() as int));
            }
        }
        Ok(out)
    }

    /// Takes `take` bytes from the write buffer, where the reader is in the
    /// block being assembled.
    fn read_from_wrbuf(&mut self, take: usize) -> (chunk: Vec<u8>)
        requires
            old(self).inv(),
            old(self).good(),
            old(self).read_block == old(self).write_block,
            0 < take,
            old(self).read_byte + take <= old(self).write_byte,
        ensures
            final(self).inv(),
            final(self).good(),
            final(self).same_writer(old(self)),
            final(self).rdcache_idx == old(self).rdcache_idx,
            final(self).rdcache == old(self).rdcache,
            final(self).read_block == old(self).read_block,
            chunk@.len() == take,
            chunk@ == old(self).stream().take(take as int),
            final(self).occupancy() == old(self).occupancy() - take,
            final(self).stream() == old(self).stream().skip(take as int),
            final(self).read_byte == old(self).read_byte + take,
    {
        let start = self.read_byte as usize;
        proof {
            Self::lemma_same_block_occupancy(self);
        }
        let slice = vstd::slice::slice_subrange(wrbuf_as_slice(&self.wrbuf), start, start + take);
        let chunk = vstd::slice::slice_to_vec(slice);
        proof {
            assert forall|k: int| 0 <= k < take implies #[trigger] chunk@[k] == old(self).stream()[k] by {
                lemma_split(self.read_block as int, start + k);
                lemma_block_pos_bound(self.read_block as int, self.num_blocks as int);
            }
        }
        self.read_byte = self.read_byte + take as u16;
        proof {
            Self::lemma_advance(old(self), self, take as int);
        }
        assert(chunk@ =~= old(self).stream().take(take as int));
        chunk
    }

    /// Takes up to `want` bytes of the block being read, from the cache,
    /// moving on to the next block at the block's end.
    fn read_from_device(&mut self, want: usize) -> (r: Result<Vec<u8>, Error>)
        requires
            old(self).inv(),
            old(self).good(),
            old(self).read_block != old(self).write_block || old(self).read_byte > old(self).write_byte,
            0 < want <= old(self).occupancy(),
        ensures
            final(self).inv(),
            final(self).good(),
            final(self).same_writer(old(self)),
            forall|b: u64| old(self).cache_holds(b) ==> #[trigger] final(self).cache_holds(b),
            final(self).rdcache_idx == old(self).rdcache_idx || final(self).rdcache_idx == Some(
                old(self).read_block,
            ),
            r matches Ok(chunk) ==> {
                &&& chunk@.len() <= want
                &&& chunk@ == old(self).stream().take(chunk@.len() as int)
                &&& final(self).occupancy() == old(self).occupancy() - chunk@.len()
                &&& final(self).stream() == old(self).stream().skip(chunk@.len() as int)
                &&& (chunk@.len() > 0 || (old(self).read_byte == 512 && final(self).read_byte == 0))
                &&& final(self).read_byte < 512
                &&& (final(self).read_block == old(self).read_block ==> final(self).read_byte
                    >= old(self).read_byte)
            },
            r is Err ==> {
                &&& r == Err::<Vec<u8>, Error>(Error::BlockRead)
                &&& final(self).read_block == old(self).read_block
                &&& final(self).read_byte == old(self).read_byte
                &&& final(self).occupancy() == old(self).occupancy()
                &&& final(self).stream() == old(self).stream()
            },
    {
        match self.load_read_cache() {
            Ok(()) => {},
            Err(e) => {
                proof {
                    Self::lemma_advance(old(self), self, 0);
                    assert(old(self).cache_holds(self.read_block));
                    assert(self.cache_holds(self.read_block));
                }
                return Err(e);
            },
        }
        let ghost loaded = *self;
        proof {
            Self::lemma_advance(old(self), &loaded, 0);
        }
        let start = self.read_byte as usize;
        let take = if BLOCK_SIZE - start < want { BLOCK_SIZE - start } else { want };
        let slice = vstd::slice::slice_subrange(self.rdcache.as_slice(), start, start + take);
        let chunk = vstd::slice::slice_to_vec(slice);
        proof {
            assert forall|k: int| 0 <= k < take implies #[trigger] chunk@[k] == loaded.stream()[k] by {
                lemma_split(self.read_block as int, start + k);
                lemma_block_pos_bound(self.read_block as int, self.num_blocks as int);
                assert(loaded.rdcache@[start + k] == loaded.bio.stored((self.read_block + DATA_BLOCKS_OFFS) as u64)[start + k]);
            }
        }
        self.read_byte = self.read_byte + take as u16;
        if self.read_byte as usize == BLOCK_SIZE {
            self.read_block = self.block_idx_inc(self.read_block);
            self.read_byte = 0;
        }
        proof {
            Self::lemma_advance(&loaded, self, take as int);
        }
        assert(chunk@ =~= old(self).stream().take(take as int));
        Ok(chunk)
    }

    /// Like `read_stream`, but leaves the read position where it was.
    fn peek_stream(&mut self, n: usize) -> (r: Result<Vec<u8>, Error>)
        requires
            old(self).inv(),
            old(self).good(),
            n <= old(self).occupancy(),
        ensures
            final(self).inv(),
            final(self).good(),
            final(self).same_writer(old(self)),
            final(self).read_block == old(self).read_block,
            final(self).read_byte == old(self).read_byte,
            final(self).stream() == old(self).stream(),
            r matches Ok(out) ==> out@ == old(self).stream().take(n as int),
            r is Err ==> r == Err::<Vec<u8>, Error>(Error::BlockRead),
            old(self).unread_in_buffer() ==> r is Ok,
    {
        let saved_block = self.read_block;
        let saved_byte = self.read_byte;
        let result = self.read_stream(n);
        self.read_block = saved_block;
        self.read_byte = saved_byte;
        proof {
            Self::lemma_advance(old(self), self, 0);
        }
        result
    }
}


/// A block holding `bytes` followed by zeros.
fn block_from(bytes: &[u8]) -> (block: Block)
    requires
        bytes@.len() <= 512,
    ensures
        block@.subrange(0, bytes@.len() as int) == bytes@,
        forall|k: int| bytes@.len() <= k < 512 ==> block@[k] == 0,
{
    let mut block: Block = [0u8; 512];
    let mut i: usize = 0;
    while i < bytes.len()
        invariant
            0 <= i <= bytes@.len() <= 512,
            forall|k: int| 0 <= k < i ==> block@[k] == bytes@[k],
            forall|k: int| i <= k < 512 ==> block@[k] == 0,
        decreases bytes@.len() - i,
    {
        block[i] = bytes[i];
        i = i + 1;
    }
    assert(block@.subrange(0, bytes@.len() as int) =~= bytes@);
    block
}

impl<B: BlockIo, I: Item, const QLEN: usize> SdLog<B, I, QLEN> {
    /// Everything but the writing side (write position, write buffer and the
    /// device's block being assembled) is the same.
    spec fn same_reader(&self, other: &Self) -> bool {
        &&& self.read_block == other.read_block
        &&& self.read_byte == other.read_byte
        &&& self.rdcache == other.rdcache
        &&& self.rdcache_idx == other.rdcache_idx
        &&& self.num_blocks == other.num_blocks
        &&& self.item_max == other.item_max
        &&& self.queue == other.queue
        &&& self.serial == other.serial
    }

    /// Appending bytes to the block being assembled appends them to the stream.
    proof fn lemma_append(old_log: &Self, new_log: &Self, chunk: Seq<u8>)
        requires
            old_log.inv(),
            new_log.inv(),
            old_log.good(),
            new_log.same_reader(old_log),
            forall|j: u64| #[trigger] new_log.bio.stored(j) == old_log.bio.stored(j),
            new_log.write_block == old_log.write_block,
            new_log.write_byte == old_log.write_byte + chunk.len(),
            buffered(new_log.wrbuf) == buffered(old_log.wrbuf) + chunk,
            old_log.occupancy() + chunk.len() <= old_log.capacity() - 1,
        ensures
            new_log.occupancy() == old_log.occupancy() + chunk.len(),
            new_log.good(),
            new_log.stream() =~= old_log.stream() + chunk,
    {
        lemma_block_pos_bound(old_log.write_block as int, old_log.num_blocks as int);
        lemma_block_pos_bound(old_log.read_block as int, old_log.num_blocks as int);
        assert forall|k: int| 0 <= k < new_log.occupancy() implies #[trigger] new_log.stream()[k]
            == (old_log.stream() + chunk)[k] by {
            let p = new_log.wrap(new_log.rpos() + k);
            vstd::arithmetic::div_mod::lemma_fundamental_div_mod(p, 512);
            if k < old_log.occupancy() {
                if p / 512 == old_log.write_block {
                    lemma_split(old_log.write_block as int, p - old_log.write_block * 512);
                }
            } else {
                lemma_split(old_log.write_block as int, old_log.write_byte + (k - old_log.occupancy()));
            }
        }
    }

    /// Writing the full write buffer out and moving on to the next block keeps
    /// the stream.
    proof fn lemma_flush(old_log: &Self, new_log: &Self)
        requires
            old_log.inv(),
            new_log.inv(),
            old_log.good(),
            old_log.write_byte == 512,
            new_log.same_reader(old_log),
            forall|j: u64| j != old_log.write_block + DATA_BLOCKS_OFFS ==> #[trigger] new_log.bio.stored(j) == old_log.bio.stored(j),
            new_log.bio.stored((old_log.write_block + DATA_BLOCKS_OFFS) as u64) == buffered(old_log.wrbuf),
            new_log.write_block == (if old_log.write_block + 1 == old_log.data_blocks() { 0 } else { old_log.write_block + 1 }),
            new_log.write_byte == 0,
            buffered(new_log.wrbuf) == Seq::<u8>::empty(),
        ensures
            new_log.occupancy() == old_log.occupancy(),
            new_log.good(),
            new_log.stream() =~= old_log.stream(),
    {
        lemma_block_pos_bound(old_log.write_block as int, old_log.num_blocks as int);
        lemma_block_pos_bound(old_log.read_block as int, old_log.num_blocks as int);
        assert(new_log.rdcache_idx == Some(new_log.read_block) ==> new_log.read_block != old_log.write_block);
        assert(new_log.rdcache_idx == Some(new_log.read_block) && new_log.read_block == new_log.write_block
            ==> new_log.read_byte > 0);
        assert forall|k: int| 0 <= k < new_log.occupancy() implies #[trigger] new_log.stream()[k]
            == old_log.stream()[k] by {
            let p = new_log.wrap(new_log.rpos() + k);
            lemma_split(p / 512, p % 512);
            if p / 512 == old_log.write_block {
                lemma_split(old_log.write_block as int, p % 512);
            }
        }
    }
}


impl<B: BlockIo, I: Item, const QLEN: usize> SdLog<B, I, QLEN> {
    /// Writes the full write buffer to the device as a complete block and
    /// moves the write position to the start of the next block.
    fn flush_full_block(&mut self) -> (r: Result<(), Error>)
        requires
            old(self).inv(),
            old(self).write_byte == 512,
        ensures
            final(self).inv(),
            final(self).same_reader(old(self)),
            final(self).status_page_dirty == old(self).status_page_dirty,
            forall|j: u64| j != old(self).write_block + DATA_BLOCKS_OFFS ==> #[trigger] final(self).bio.stored(j) == old(self).bio.stored(j),
            r is Ok ==> {
                &&& final(self).bio.stored((old(self).write_block + DATA_BLOCKS_OFFS) as u64) == buffered(old(self).wrbuf)
                &&& final(self).write_block == (if old(self).write_block + 1 == old(self).data_blocks() { 0 } else { old(self).write_block + 1 })
                &&& final(self).write_byte == 0
                &&& buffered(final(self).wrbuf) == Seq::<u8>::empty()
            },
            r is Err ==> {
                &&& r == Err::<(), Error>(Error::BlockWrite)
                &&& final(self).write_block == old(self).write_block
                &&& final(self).write_byte == old(self).write_byte
                &&& final(self).wrbuf == old(self).wrbuf
            },
    {
        let block = block_from(wrbuf_as_slice(&self.wrbuf));
        assert(block@ =~= buffered(self.wrbuf));
        match self.bio.write_block(self.write_block + DATA_BLOCKS_OFFS, block) {
            Ok(()) => {},
            Err(_) => {
                return Err(Error::BlockWrite);
            },
        }
        self.write_block = self.block_idx_inc(self.write_block);
        self.write_byte = 0;
        wrbuf_clear(&mut self.wrbuf);
        Ok(())
    }

    /// Appends `buf` to the write stream, writing out each block as it fills.
    ///
    /// A device error while writing out a block ends the write and puts the
    /// write position, the write buffer and the status flag back as they
    /// were: none of `buf` is in the stream.
    fn write_data(&mut self, buf: &[u8]) -> (r: Result<(), Error>)
        requires
            old(self).inv(),
            old(self).good(),
            old(self).write_byte < 512,
            old(self).read_byte < 512,
            old(self).occupancy() + buf@.len() <= old(self).capacity() - 1,
        ensures
            final(self).inv(),
            final(self).good(),
            final(self).same_reader(old(self)),
            final(self).write_byte < 512,
            old(self).status_page_dirty ==> final(self).status_page_dirty,
            r is Ok && buf@.len() > 0 ==> final(self).status_page_dirty,
            r is Ok ==> final(self).occupancy() == old(self).occupancy() + buf@.len(),
            r is Ok ==> final(self).stream() == old(self).stream() + buf@,
            old(self).write_byte + buf@.len() < 512 ==> r is Ok && final(self).write_byte
                == old(self).write_byte + buf@.len() && final(self).write_block == old(self).write_block,
            forall|j: u64| j < DATA_BLOCKS_OFFS ==> #[trigger] final(self).bio.stored(j) == old(self).bio.stored(j),
            r is Err ==> {
                &&& r == Err::<(), Error>(Error::BlockWrite)
                &&& final(self).write_block == old(self).write_block
                &&& final(self).write_byte == old(self).write_byte
                &&& buffered(final(self).wrbuf) == buffered(old(self).wrbuf)
                &&& final(self).status_page_dirty == old(self).status_page_dirty
                &&& final(self).occupancy() == old(self).occupancy()
                &&& final(self).stream() == old(self).stream()
            },
    {
        let ghost s0 = self.stream();
        let ghost occ0 = self.occupancy();
        let saved_block = self.write_block;
        let saved_byte = self.write_byte;
        let saved_dirty = self.status_page_dirty;
        let saved = vstd::slice::slice_to_vec(wrbuf_as_slice(&self.wrbuf));
        let mut pos: usize = 0;
        while pos < buf.len()
            invariant
                self.inv(),
                self.good(),
                self.same_reader(old(self)),
                s0 == old(self).stream(),
                occ0 == old(self).occupancy(),
                occ0 + buf@.len() <= self.capacity() - 1,
                0 <= pos <= buf@.len(),
                self.write_byte < 512,
                old(self).inv(),
                old(self).good(),
                old(self).read_byte < 512,
                old(self).write_byte < 512,
                self.occupancy() == occ0 + pos,
                self.stream() == s0 + buf@.subrange(0, pos as int),
                old(self).write_byte + pos < 512 ==> self.write_byte == old(self).write_byte + pos
                    && self.write_block == old(self).write_block
                    && forall|j: u64| #[trigger] self.bio.stored(j) == old(self).bio.stored(j),
                old(self).write_byte + pos >= 512 ==> self.occupancy() - self.write_byte > occ0,
                forall|k: int| 0 <= k < occ0 ==> #[trigger] self.keeps_old_byte(old(self), k),
                old(self).read_block != old(self).write_block ==> self.bio.stored(
                    (old(self).read_block + DATA_BLOCKS_OFFS) as u64) == old(self).bio.stored(
                    (old(self).read_block + DATA_BLOCKS_OFFS) as u64),
                forall|j: u64| j < DATA_BLOCKS_OFFS ==> #[trigger] self.bio.stored(j) == old(self).bio.stored(j),
                old(self).status_page_dirty ==> self.status_page_dirty,
                pos > 0 ==> self.status_page_dirty,
                saved_block == old(self).write_block,
                saved_byte == old(self).write_byte,
                saved_dirty == old(self).status_page_dirty,
                saved@ == buffered(old(self).wrbuf),
            decreases buf@.len() - pos,
        {
            let len = wrbuf_len(&self.wrbuf);
            let space = BLOCK_SIZE - len;
            let n = if space < buf.len() - pos { space } else { buf.len() - pos };
            let chunk = vstd::slice::slice_subrange(buf, pos, pos + n);
            let ghost head = *self;
            proof {
                Self::lemma_write_block_start(&head);
                if old(self).reader_ahead() {
                    Self::lemma_ahead_room(old(self));
                }
            }
            let result = self.append_chunk(chunk);
            proof {
                assert(buf@.subrange(0, pos + n) =~= buf@.subrange(0, pos as int) + chunk@);
                let i0 = head.occupancy() - head.write_byte;
                assert forall|k: int| 0 <= k < occ0 implies #[trigger] self.keeps_old_byte(old(self), k) by {
                    assert(head.keeps_old_byte(old(self), k));
                    let p = old(self).wrap(old(self).rpos() + k);
                    if p / 512 == head.write_block && head.write_byte + n == 512 {
                        if old(self).write_byte + pos >= 512 {
                            Self::lemma_outside_block(&head, k, i0, head.write_block);
                        } else if p % 512 >= old(self).write_byte {
                            Self::lemma_tail_means_ahead(old(self), k);
                        }
                    }
                }
                if old(self).read_block != old(self).write_block && head.write_block == old(self).read_block
                    && head.write_byte + n == 512 {
                    Self::lemma_outside_block(&head, 0, i0, head.write_block);
                    lemma_split(old(self).read_block as int, old(self).read_byte as int);
                }
            }
            let ghost after = *self;
            pos = pos + n;
            match result {
                Ok(()) => {},
                Err(e) => {
                    self.write_block = saved_block;
                    self.write_byte = saved_byte;
                    wrbuf_clear(&mut self.wrbuf);
                    let restored = wrbuf_extend_from_slice(&mut self.wrbuf, saved.as_slice());
                    if restored.is_err() {
                        // Unreachable: the saved bytes fill less than a block.
                        assert(false);
                    }
                    self.status_page_dirty = saved_dirty;
                    proof {
                        assert(buffered(self.wrbuf) =~= buffered(old(self).wrbuf));
                        assert forall|k: int| 0 <= k < occ0 implies #[trigger] self.keeps_old_byte(old(self), k) by {
                            assert(after.keeps_old_byte(old(self), k));
                        }
                        if old(self).reader_ahead() {
                            Self::lemma_ahead_room(old(self));
                        }
                        Self::lemma_restore(old(self), self);
                    }
                    return Err(e);
                },
            }
        }
        assert(buf@.subrange(0, buf@.len() as int) =~= buf@);
        Ok(())
    }

    /// The device still holds, in `self`, the byte at position `k` of the
    /// stream of `old_log`, where reads of `old_log` take it from the device.
    spec fn keeps_old_byte(&self, old_log: &Self, k: int) -> bool {
        let p = old_log.wrap(old_log.rpos() + k);
        ||| p / 512 == old_log.write_block && p % 512 < old_log.write_byte
        ||| self.bio.stored((p / 512 + DATA_BLOCKS_OFFS) as u64)[p % 512] == old_log.bio.stored(
            (p / 512 + DATA_BLOCKS_OFFS) as u64)[p % 512]
    }

    /// The block being assembled starts `write_byte` bytes before the end of
    /// the stream.
    proof fn lemma_write_block_start(log: &Self)
        requires
            log.inv(),
            log.write_byte < 512,
        ensures
            log.write_block * 512 == log.wrap(log.rpos() + log.occupancy() - log.write_byte),
            log.rpos() + log.occupancy() - log.write_byte >= 0,
    {
        lemma_block_pos_bound(log.write_block as int, log.num_blocks as int);
        lemma_block_pos_bound(log.read_block as int, log.num_blocks as int);
    }

    /// With the reader ahead in the block being assembled, the free space is
    /// the gap between the two offsets, less one byte.
    proof fn lemma_ahead_room(log: &Self)
        requires
            log.inv(),
            log.reader_ahead(),
        ensures
            log.occupancy() == log.capacity() - (log.read_byte - log.write_byte),
    {
        lemma_block_pos_bound(log.read_block as int, log.num_blocks as int);
    }

    /// A stream position before index `i0` does not lie in the block that
    /// starts at stream index `i0`.
    proof fn lemma_outside_block(log: &Self, k: int, i0: int, b: u64)
        requires
            log.inv(),
            0 <= k < i0,
            i0 + 512 <= log.capacity(),
            b < log.data_blocks(),
            b * 512 == log.wrap(log.rpos() + i0),
        ensures
            log.wrap(log.rpos() + k) / 512 != b,
    {
        lemma_block_pos_bound(log.read_block as int, log.num_blocks as int);
        lemma_block_pos_bound(b as int, log.num_blocks as int);
        let p = log.wrap(log.rpos() + k);
        vstd::arithmetic::div_mod::lemma_fundamental_div_mod(p, 512);
        if p / 512 == b {
            assert(b * 512 <= p < b * 512 + 512);
        }
    }

    /// A stream byte in the block being assembled at or after the write
    /// offset is one the reader, ahead of the writer, has yet to read.
    proof fn lemma_tail_means_ahead(log: &Self, k: int)
        requires
            log.inv(),
            log.write_byte < 512,
            0 <= k < log.occupancy(),
            log.wrap(log.rpos() + k) / 512 == log.write_block,
            log.wrap(log.rpos() + k) % 512 >= log.write_byte,
        ensures
            log.reader_ahead(),
    {
        lemma_block_pos_bound(log.read_block as int, log.num_blocks as int);
        lemma_block_pos_bound(log.write_block as int, log.num_blocks as int);
        let p = log.wrap(log.rpos() + k);
        vstd::arithmetic::div_mod::lemma_fundamental_div_mod(p, 512);
        vstd::arithmetic::div_mod::lemma_fundamental_div_mod(log.rpos(), 512);
    }

    /// Putting back the write position and buffer of `old_log` gives its
    /// stream back, where the device still holds the bytes that reads take
    /// from it.
    proof fn lemma_restore(old_log: &Self, new_log: &Self)
        requires
            old_log.inv(),
            old_log.good(),
            old_log.write_byte < 512,
            !old_log.reader_ahead(),
            new_log.read_block == old_log.read_block,
            new_log.read_byte == old_log.read_byte,
            new_log.rdcache == old_log.rdcache,
            new_log.rdcache_idx == old_log.rdcache_idx,
            new_log.num_blocks == old_log.num_blocks,
            new_log.item_max == old_log.item_max,
            new_log.queue@.len() <= QLEN,
            new_log.write_block == old_log.write_block,
            new_log.write_byte == old_log.write_byte,
            buffered(new_log.wrbuf) == buffered(old_log.wrbuf),
            forall|k: int| 0 <= k < old_log.occupancy() ==> #[trigger] new_log.keeps_old_byte(old_log, k),
            old_log.read_block != old_log.write_block ==> new_log.bio.stored(
                (old_log.read_block + DATA_BLOCKS_OFFS) as u64) == old_log.bio.stored(
                (old_log.read_block + DATA_BLOCKS_OFFS) as u64),
        ensures
            new_log.inv(),
            new_log.good(),
            new_log.occupancy() == old_log.occupancy(),
            new_log.stream() =~= old_log.stream(),
    {
        assert forall|k: int| 0 <= k < new_log.occupancy() implies #[trigger] new_log.stream()[k]
            == old_log.stream()[k] by {
            assert(new_log.keeps_old_byte(old_log, k));
        }
    }

    /// Appends `chunk`, which fits in the block being assembled, and writes
    /// the block out once it is full.
    fn append_chunk(&mut self, chunk: &[u8]) -> (r: Result<(), Error>)
        requires
            old(self).inv(),
            old(self).good(),
            old(self).write_byte + chunk@.len() <= 512,
            chunk@.len() > 0 || old(self).write_byte == 512,
            old(self).occupancy() + chunk@.len() <= old(self).capacity() - 1,
        ensures
            final(self).inv(),
            final(self).good(),
            final(self).same_reader(old(self)),
            old(self).status_page_dirty ==> final(self).status_page_dirty,
            r is Ok ==> final(self).status_page_dirty,
            final(self).occupancy() == old(self).occupancy() + chunk@.len(),
            final(self).stream() == old(self).stream() + chunk@,
            forall|j: u64| j < DATA_BLOCKS_OFFS ==> #[trigger] final(self).bio.stored(j) == old(self).bio.stored(j),
            r is Ok ==> chunk@.len() > 0 || (old(self).write_byte == 512 && final(self).write_byte == 0),
            r is Ok ==> final(self).write_byte < 512,
            old(self).write_byte + chunk@.len() < 512 ==> r is Ok && final(self).write_byte
                == old(self).write_byte + chunk@.len() && final(self).write_block == old(self).write_block,
            r is Err ==> r == Err::<(), Error>(Error::BlockWrite) && final(self).write_byte == 512,
            forall|j: u64| j != old(self).write_block + DATA_BLOCKS_OFFS ==> #[trigger] final(self).bio.stored(j) == old(self).bio.stored(j),
            old(self).write_byte + chunk@.len() < 512 ==> forall|j: u64| #[trigger] final(self).bio.stored(j) == old(self).bio.stored(j),
            r is Ok && old(self).write_byte + chunk@.len() == 512 ==> final(self).write_byte == 0,
    {
        let ghost prev = *self;
        let result = wrbuf_extend_from_slice(&mut self.wrbuf, chunk);
        if result.is_err() {
            // Unreachable: the chunk fits in the block.
            assert(false);
        }
        self.write_byte = wrbuf_len(&self.wrbuf) as u16;
        proof {
            Self::lemma_append(&prev, self, chunk@);
        }
        if wrbuf_len(&self.wrbuf) == BLOCK_SIZE {
            let ghost appended = *self;
            match self.flush_full_block() {
                Ok(()) => {
                    proof {
                        Self::lemma_flush(&appended, self);
                    }
                },
                Err(e) => {
                    proof {
                        Self::lemma_keep_assembled(&appended, self);
                    }
                    return Err(e);
                },
            }
        }
        self.status_page_dirty = true;
        Ok(())
    }

    /// Changing the device's copy of the block being assembled, past what
    /// reads take from the device, changes nothing that reads give back.
    proof fn lemma_keep_assembled(old_log: &Self, new_log: &Self)
        requires
            old_log.inv(),
            old_log.good(),
            new_log.read_block == old_log.read_block,
            new_log.read_byte == old_log.read_byte,
            new_log.rdcache == old_log.rdcache,
            new_log.rdcache_idx == old_log.rdcache_idx,
            new_log.num_blocks == old_log.num_blocks,
            new_log.item_max == old_log.item_max,
            new_log.queue@.len() <= QLEN,
            forall|j: u64| j >= DATA_BLOCKS_OFFS && j != old_log.write_block + DATA_BLOCKS_OFFS ==> #[trigger] new_log.bio.stored(j) == old_log.bio.stored(j),
            old_log.reader_ahead() ==> forall|k: int| old_log.write_byte <= k < 512 ==> #[trigger] new_log.bio.stored(
                (old_log.write_block + DATA_BLOCKS_OFFS) as u64)[k] == old_log.bio.stored(
                (old_log.write_block + DATA_BLOCKS_OFFS) as u64)[k],
            new_log.write_block == old_log.write_block,
            new_log.write_byte == old_log.write_byte,
            new_log.wrbuf == old_log.wrbuf,
        ensures
            new_log.inv(),
            new_log.occupancy() == old_log.occupancy(),
            new_log.good(),
            new_log.stream() =~= old_log.stream(),
    {
        lemma_block_pos_bound(old_log.write_block as int, old_log.num_blocks as int);
        lemma_block_pos_bound(old_log.read_block as int, old_log.num_blocks as int);
        let wb = (old_log.write_block + DATA_BLOCKS_OFFS) as u64;
        if new_log.rdcache_idx == Some(new_log.read_block) {
            assert forall|k: int| new_log.device_from(new_log.read_block) <= k < 512
                implies #[trigger] new_log.rdcache@[k] == new_log.bio.stored((new_log.read_block + DATA_BLOCKS_OFFS) as u64)[k] by {
                assert(old_log.rdcache@[k] == old_log.bio.stored((old_log.read_block + DATA_BLOCKS_OFFS) as u64)[k]);
                if old_log.read_block == old_log.write_block {
                    assert(new_log.bio.stored(wb)[k] == old_log.bio.stored(wb)[k]);
                }
            }
        }
        assert forall|k: int| 0 <= k < new_log.occupancy() implies #[trigger] new_log.stream()[k]
            == old_log.stream()[k] by {
            let p = new_log.wrap(new_log.rpos() + k);
            lemma_split(p / 512, p % 512);
            vstd::arithmetic::div_mod::lemma_fundamental_div_mod(p, 512);
            if p / 512 == old_log.write_block && p % 512 >= old_log.write_byte {
                assert(old_log.reader_ahead());
                assert(new_log.bio.stored(wb)[p % 512] == old_log.bio.stored(wb)[p % 512]);
            }
        }
    }
}


/// The width of the length prefix for records of at most `max_size` bytes.
fn item_prefix_size(max_size: usize) -> (r: usize)
    ensures
        r == prefix_width(max_size as nat),
        is_width(r as nat),
{
    if max_size <= 0xff {
        1
    } else if max_size <= 0xffff {
        2
    } else if max_size <= 0xffff_ffff {
        4
    } else {
        8
    }
}

/// A record length that passes the size checks fits its prefix.
proof fn lemma_len_fits_prefix(len: nat, max_size: nat)
    requires
        len <= 0xffff,
        prefix_width(max_size) + len <= max_size,
    ensures
        len < pow256(prefix_width(max_size)),
        le_value(le_bytes(len, prefix_width(max_size))) == len,
{
    lemma_pow256_values();
    lemma_le_roundtrip(len, prefix_width(max_size));
    vstd::arithmetic::div_mod::lemma_small_mod(len, pow256(prefix_width(max_size)));
}

/// The stream that starts with a framed record gives back that record's size,
/// and the record's bytes after the prefix.
pub proof fn lemma_front_frame(payload: Seq<u8>, rest: Seq<u8>, prefix: nat)
    requires
        is_width(prefix),
        0 < payload.len() < pow256(prefix),
        prefix + payload.len() <= usize::MAX,
    ensures
        front_frame_size(frame(payload, prefix) + rest, prefix) == Some(prefix + payload.len()),
        (frame(payload, prefix) + rest).subrange(prefix as int, (prefix + payload.len()) as int) == payload,
        (frame(payload, prefix) + rest).skip((prefix + payload.len()) as int) == rest,
{
    let s = frame(payload, prefix) + rest;
    assert(s.take(prefix as int) =~= le_bytes(payload.len(), prefix));
    lemma_le_roundtrip(payload.len(), prefix);
    vstd::arithmetic::div_mod::lemma_small_mod(payload.len(), pow256(prefix));
    assert(s.subrange(prefix as int, (prefix + payload.len()) as int) =~= payload);
    assert(s.skip((prefix + payload.len()) as int) =~= rest);
}

impl<B: BlockIo, I: Item, const QLEN: usize> SdLog<B, I, QLEN> {
    /// Whether a record of `len` bytes is refused for its size alone.
    pub open spec fn size_refused(&self, len: nat) -> bool {
        ||| len == 0
        ||| len > 0xffff
        ||| self.prefix() + len > self.max_record()
        ||| self.prefix() + len > self.capacity() - 1
    }

    /// The shape of every log that `new` returns and the methods keep.
    pub closed spec fn wf(&self) -> bool {
        &&& self.inv()
        &&& self.good()
        &&& self.read_byte < 512
        &&& self.write_byte < 512
    }

    /// Frames `bytes` with their little-endian length.
    fn serialize_item(bytes: &[u8], prefix_size: usize) -> (r: Result<Vec<u8>, Error>)
        requires
            is_width(prefix_size as nat),
        ensures
            (bytes@.len() == 0 || bytes@.len() > 0xffff) <==> r == Err::<Vec<u8>, Error>(Error::ItemSerializeSize),
            r is Ok ==> r->Ok_0@ == frame(bytes@, prefix_size as nat),
            r is Err ==> r == Err::<Vec<u8>, Error>(Error::ItemSerializeSize),
    {
        let len = bytes.len();
        if len == 0 || len > 0xffff {
            return Err(Error::ItemSerializeSize);
        }
        let mut framed: Vec<u8> = Vec::with_capacity(prefix_size + len);
        to_le(&mut framed, prefix_size, len as u64);
        framed.extend_from_slice(bytes);
        assert(framed@ =~= frame(bytes@, prefix_size as nat));
        Ok(framed)
    }

    /// Frames `bytes` and appends them to the stream of records.
    ///
    /// Records of no bytes, of more than 65535 bytes, or whose framed size
    /// exceeds the item's maximum size or the device's capacity are refused
    /// with `ItemSerializeSize`; records that do not fit the free space with
    /// `BlockDeviceFull`. A device error while writing out a block leaves a
    /// part of the record in the stream.
    pub fn write_item_bytes(&mut self, bytes: &[u8]) -> (r: Result<(), Error>)
        requires
            old(self).wf(),
        ensures
            final(self).wf(),
            final(self).queued() == old(self).queued(),
            final(self).prefix() == old(self).prefix(),
            final(self).max_record() == old(self).max_record(),
            final(self).capacity() == old(self).capacity(),
            final(self).num_blocks() == old(self).num_blocks(),
            final(self).read_block_index() == old(self).read_block_index(),
            final(self).read_byte_index() == old(self).read_byte_index(),
            final(self).serial() == old(self).serial(),
            old(self).dirty() ==> final(self).dirty(),
            old(self).size_refused(bytes@.len()) <==> r == Err::<(), Error>(Error::ItemSerializeSize),
            !old(self).size_refused(bytes@.len()) && old(self).prefix() + bytes@.len() > old(self).capacity() - 1 - old(self).occupancy()
                <==> r == Err::<(), Error>(Error::BlockDeviceFull),
            r == Err::<(), Error>(Error::ItemSerializeSize) || r == Err::<(), Error>(Error::BlockDeviceFull) ==> *final(self) == *old(self),
            !old(self).size_refused(bytes@.len()) && old(self).prefix() + bytes@.len() <= old(self).capacity() - 1 - old(self).occupancy()
                && old(self).write_byte_index() + old(self).prefix() + bytes@.len() < 512 ==> r is Ok
                && final(self).write_byte_index() == old(self).write_byte_index() + old(self).prefix() + bytes@.len()
                && final(self).write_block_index() == old(self).write_block_index(),
            r is Ok ==> final(self).dirty(),
            old(self).status_consistent() && r is Ok ==> final(self).status_consistent(),
            r is Ok ==> final(self).write_byte_index() < 512,
            r is Ok && old(self).offsets_in_block() ==> final(self).offsets_in_block(),
            r is Ok ==> final(self).occupancy() == old(self).occupancy() + old(self).prefix() + bytes@.len(),
            r is Ok ==> final(self).stream() == old(self).stream() + frame(bytes@, old(self).prefix()),
            r is Err ==> r == Err::<(), Error>(Error::ItemSerializeSize) || r == Err::<(), Error>(Error::BlockDeviceFull)
                || r == Err::<(), Error>(Error::BlockWrite),
            r is Err ==> final(self).same_positions(old(self)),
            forall|j: u64| j < DATA_BLOCKS_OFFS ==> #[trigger] final(self).device().stored(j) == old(self).device().stored(j),
    {
        let prefix_size = item_prefix_size(self.item_max);
        let framed = Self::serialize_item(bytes, prefix_size)?;
        let needed = framed.len() as u64;
        if needed > self.item_max as u64 {
            return Err(Error::ItemSerializeSize);
        }
        let cap = self.capacity_bytes();
        let cap_less_one = if cap >= 1 { cap - 1 } else { 0 };
        if needed > cap_less_one {
            return Err(Error::ItemSerializeSize);
        }
        if needed > self.free_bytes() {
            return Err(Error::BlockDeviceFull);
        }
        let r = self.write_data(framed.as_slice());
        proof {
            assert(self.bio.stored(0) == old(self).bio.stored(0));
            assert(self.bio.stored(1) == old(self).bio.stored(1));
            if r is Err {
                assert(framed@.subrange(0, self.occupancy() - old(self).occupancy())
                    =~= frame(bytes@, old(self).prefix()).take(self.occupancy() - old(self).occupancy()));
            }
        }
        r
    }

    /// Takes the next complete record off the stream and returns its bytes.
    ///
    /// Gives `None` when the stream does not start with a complete record
    /// of non-zero length. A device error while reading the record leaves
    /// the read position inside it.
    #[verifier::spinoff_prover]
    #[verifier::rlimit(40)]
    pub fn pop_item_bytes(&mut self) -> (r: Result<Option<Vec<u8>>, Error>)
        requires
            old(self).wf(),
        ensures
            final(self).wf(),
            final(self).queued() == old(self).queued(),
            final(self).prefix() == old(self).prefix(),
            final(self).max_record() == old(self).max_record(),
            final(self).capacity() == old(self).capacity(),
            final(self).num_blocks() == old(self).num_blocks(),
            final(self).write_block_index() == old(self).write_block_index(),
            final(self).write_byte_index() == old(self).write_byte_index(),
            forall|j: u64| #[trigger] final(self).device().stored(j) == old(self).device().stored(j),
            old(self).dirty() ==> final(self).dirty(),
            old(self).occupancy() < old(self).prefix() ==> r == Ok::<Option<Vec<u8>>, Error>(None)
                && *final(self) == *old(self),
            r is Err ==> r == Err::<Option<Vec<u8>>, Error>(Error::BlockRead),
            old(self).unread_in_buffer() ==> r is Ok,
            old(self).status_consistent() && r is Ok ==> final(self).status_consistent(),
            old(self).offsets_in_block() ==> final(self).offsets_in_block(),
            final(self).read_pos() == (old(self).read_pos() + (old(self).occupancy() - final(self).occupancy())) % old(self).capacity(),
            match front_frame_size(old(self).stream(), old(self).prefix()) {
                None => {
                    &&& r == Ok::<Option<Vec<u8>>, Error>(None) || r == Err::<Option<Vec<u8>>, Error>(Error::BlockRead)
                    &&& final(self).stream() == old(self).stream()
                    &&& final(self).read_block_index() == old(self).read_block_index()
                    &&& final(self).read_byte_index() == old(self).read_byte_index()
                    &&& final(self).dirty() == old(self).dirty()
                },
                Some(t) => {
                    ||| {
                        &&& r matches Ok(Some(payload))
                        &&& payload@ == old(self).stream().subrange(old(self).prefix() as int, t as int)
                        &&& final(self).stream() == old(self).stream().skip(t as int)
                        &&& final(self).dirty()
                    }
                    ||| {
                        &&& r == Err::<Option<Vec<u8>>, Error>(Error::BlockRead)
                        &&& old(self).occupancy() - t <= final(self).occupancy() <= old(self).occupancy()
                        &&& final(self).stream() == old(self).stream().skip(old(self).occupancy() - final(self).occupancy())
                    }
                },
            },
    {
        let prefix_size = item_prefix_size(self.item_max);
        let avail = self.occupancy_bytes();
        if avail < prefix_size as u64 {
            proof {
                Self::lemma_read_pos(old(self), self);
            }
            return Ok(None);
        }
        let len_bytes = match self.peek_stream(prefix_size) {
            Ok(b) => b,
            Err(e) => {
                proof {
                    Self::lemma_read_pos(old(self), self);
                }
                return Err(e);
            },
        };
        proof {
            Self::lemma_read_pos(old(self), self);
        }
        let len = from_le(len_bytes.as_slice(), prefix_size);
        assert(len_bytes@.take(prefix_size as int) =~= len_bytes@);
        if len == 0 || avail - (prefix_size as u64) < len {
            // Not a complete record yet.
            return Ok(None);
        }
        let total = prefix_size as u64 + len;
        if total > usize::MAX as u64 {
            return Ok(None);
        }
        let bytes = match self.read_stream(total as usize) {
            Ok(b) => b,
            Err(e) => {
                proof {
                    Self::lemma_read_pos(old(self), self);
                }
                return Err(e);
            },
        };
        proof {
            Self::lemma_read_pos(old(self), self);
        }
        self.status_page_dirty = true;
        let payload = vstd::slice::slice_to_vec(vstd::slice::slice_subrange(bytes.as_slice(), prefix_size, total as usize));
        assert(payload@ =~= old(self).stream().subrange(prefix_size as int, total as int));
        Ok(Some(payload))
    }
}


impl<B: BlockIo, I: Item, const QLEN: usize> SdLog<B, I, QLEN> {
    /// The page that the status blocks of the device select.
    pub closed spec fn device_page(&self) -> StatusPage {
        newest_page(self.bio.stored(0), self.bio.stored(1), self.data_blocks() as nat)
    }

    /// The positions of the log are those that the status blocks select, and
    /// the device holds the bytes of the block being assembled.
    pub closed spec fn synced(&self) -> bool {
        let p = self.device_page();
        &&& p.read_block == self.read_block
        &&& p.read_byte == self.read_byte
        &&& p.write_block == self.write_block
        &&& p.write_byte == self.write_byte
        &&& p.serial0 == self.serial
        &&& self.bio.stored((self.write_block + DATA_BLOCKS_OFFS) as u64).take(self.write_byte as int)
            == buffered(self.wrbuf)
    }

    /// No status block holds a page with a larger serial than the log's, and
    /// while the log is clean its positions are those of the status blocks.
    pub closed spec fn status_consistent(&self) -> bool {
        &&& checked_page(self.bio.stored(0), self.data_blocks() as nat).serial0 <= self.serial
        &&& checked_page(self.bio.stored(1), self.data_blocks() as nat).serial0 <= self.serial
        &&& !self.status_page_dirty ==> {
            let p = self.device_page();
            &&& p.read_block == self.read_block
            &&& p.read_byte == self.read_byte
            &&& p.write_block == self.write_block
            &&& p.write_byte == self.write_byte
            &&& p.serial0 == self.serial
        }
    }

    /// The state that opening a device whose blocks are `stored` gives, for
    /// the number of blocks and item size of `self`.
    pub closed spec fn opened_from(&self, dev: B) -> bool {
        let p = newest_page(dev.stored(0), dev.stored(1), self.data_blocks() as nat);
        &&& forall|j: u64| #[trigger] self.bio.stored(j) == dev.stored(j)
        &&& self.read_block == p.read_block
        &&& self.read_byte == p.read_byte
        &&& self.write_block == p.write_block
        &&& self.write_byte == p.write_byte
        &&& self.serial == p.serial0
        &&& buffered(self.wrbuf) == dev.stored((p.write_block + DATA_BLOCKS_OFFS) as u64).take(
            p.write_byte as int,
        )
        &&& self.rdcache_idx is None
        &&& !self.status_page_dirty
        &&& self.queue@ == Seq::<I>::empty()
    }

    /// Reads and checks the status page in block `block_index`.
    fn sd_read_status_page_at(&mut self, block_index: u64) -> (r: Result<StatusPage, Error>)
        requires
            old(self).inv(),
        ensures
            *final(self) == (Self { bio: final(self).bio, ..*old(self) }),
            forall|j: u64| #[trigger] final(self).bio.stored(j) == old(self).bio.stored(j),
            r matches Ok(p) ==> p == checked_page(old(self).bio.stored(block_index), old(self).data_blocks() as nat),
            r is Err ==> r == Err::<StatusPage, Error>(Error::BlockRead),
    {
        match self.bio.read_block(block_index) {
            Ok(block) => {
                let stat = StatusPage::from_bytes(block.as_slice());
                if stat.magic0 == MAGIC && stat.magic0 == stat.magic1 && stat.serial0 == stat.serial1
                    && self.block_idx_is_valid(stat.read_block) && self.block_idx_is_valid(stat.write_block)
                    && (stat.read_byte as usize) < BLOCK_SIZE && (stat.write_byte as usize) < BLOCK_SIZE {
                    Ok(stat)
                } else {
                    Ok(StatusPage::zeroed())
                }
            },
            Err(_) => Err(Error::BlockRead),
        }
    }

    /// Loads the positions from the newer of the two status pages.
    fn sd_read_status_page(&mut self) -> (r: Result<(), Error>)
        requires
            old(self).inv(),
        ensures
            forall|j: u64| #[trigger] final(self).bio.stored(j) == old(self).bio.stored(j),
            final(self).num_blocks == old(self).num_blocks,
            final(self).item_max == old(self).item_max,
            final(self).queue == old(self).queue,
            final(self).wrbuf == old(self).wrbuf,
            final(self).rdcache_idx == old(self).rdcache_idx,
            final(self).rdcache == old(self).rdcache,
            r is Ok ==> {
                let p = newest_page(old(self).bio.stored(0), old(self).bio.stored(1), old(self).data_blocks() as nat);
                &&& final(self).serial == p.serial0
                &&& final(self).read_block == p.read_block
                &&& final(self).read_byte == p.read_byte
                &&& final(self).write_block == p.write_block
                &&& final(self).write_byte == p.write_byte
                &&& !final(self).status_page_dirty
            },
            r is Err ==> r == Err::<(), Error>(Error::BlockRead),
    {
        let stat0 = self.sd_read_status_page_at(0)?;
        let stat1 = self.sd_read_status_page_at(1)?;
        let stat = if stat0.serial0 >= stat1.serial0 {
            stat0
        } else {
            stat1
        };
        self.serial = stat.serial0;
        self.read_block = stat.read_block;
        self.read_byte = stat.read_byte;
        self.write_block = stat.write_block;
        self.write_byte = stat.write_byte;
        self.status_page_dirty = false;
        Ok(())
    }

    /// Writes the positions to the status block of the next serial.
    ///
    /// The serial cannot go past `u64::MAX`; at that point the page is
    /// refused with `StatusPageFormat`.
    fn sd_write_status_page(&mut self) -> (r: Result<(), Error>)
        requires
            old(self).inv(),
        ensures
            final(self).inv(),
            *final(self) == (Self { bio: final(self).bio, serial: final(self).serial, ..*old(self) }),
            old(self).serial == u64::MAX ==> r == Err::<(), Error>(Error::StatusPageFormat) && *final(self) == *old(self),
            old(self).serial < u64::MAX ==> final(self).serial == old(self).serial + 1,
            forall|j: u64| j != final(self).serial % 2 ==> #[trigger] final(self).bio.stored(j) == old(self).bio.stored(j),
            r is Ok ==> {
                let p = StatusPage {
                    magic0: MAGIC,
                    magic1: MAGIC,
                    serial0: final(self).serial,
                    serial1: final(self).serial,
                    read_block: old(self).read_block,
                    write_block: old(self).write_block,
                    read_byte: old(self).read_byte,
                    write_byte: old(self).write_byte,
                };
                &&& final(self).bio.stored(final(self).serial % 2).take(STATUS_PAGE_SIZE as int) == encode(p)
                &&& final(self).bio.stored(final(self).serial % 2).len() == 512
            },
            r is Err ==> r == Err::<(), Error>(Error::StatusPageFormat) || r == Err::<(), Error>(Error::BlockWrite),
            r == Err::<(), Error>(Error::StatusPageFormat) <==> old(self).serial == u64::MAX,
    {
        if self.serial == u64::MAX {
            return Err(Error::StatusPageFormat);
        }
        self.serial = self.serial + 1;
        let stat = StatusPage {
            magic0: MAGIC,
            magic1: MAGIC,
            serial0: self.serial,
            serial1: self.serial,
            read_block: self.read_block,
            write_block: self.write_block,
            read_byte: self.read_byte,
            write_byte: self.write_byte,
        };
        let bytes = stat.to_bytes();
        if bytes.len() > BLOCK_SIZE {
            return Err(Error::StatusPageFormat);
        }
        let block = block_from(bytes.as_slice());
        assert(block@.take(STATUS_PAGE_SIZE as int) =~= block@.subrange(0, bytes@.len() as int));
        let serial = self.serial;
        let block_index = serial & 1;  // Block 0 or 1.
        assert(serial & 1 == serial % 2) by (bit_vector);
        match self.bio.write_block(block_index, block) {
            Ok(()) => {},
            Err(_) => {
                return Err(Error::BlockWrite);
            },
        }
        Ok(())
    }
}


/// The records that the values of `items` are stored as, oldest first;
/// a value without a serialized form contributes no bytes.
pub open spec fn frames_of<I: Item>(items: Seq<I>, prefix: nat) -> Seq<u8>
    decreases items.len(),
{
    if items.len() == 0 {
        Seq::empty()
    } else {
        frames_of(items.drop_last(), prefix) + match items.last().encoded() {
            Some(b) => frame(b, prefix),
            None => Seq::empty(),
        }
    }
}

/// Decoding the serialized form of `item` gives `item` back.
pub open spec fn round_trips<I: Item>(item: I) -> bool {
    item.encoded() matches Some(b) && I::decoded(b) == Some(item)
}

/// The length of the records of the first `k` values is at most that of all.
proof fn lemma_frames_of_take_len<I: Item>(items: Seq<I>, k: int, prefix: nat)
    requires
        0 <= k <= items.len(),
    ensures
        frames_of(items.take(k), prefix).len() <= frames_of(items, prefix).len(),
    decreases items.len(),
{
    if k < items.len() {
        assert(items.drop_last().take(k) =~= items.take(k));
        lemma_frames_of_take_len(items.drop_last(), k, prefix);
    } else {
        assert(items.take(k) =~= items);
    }
}

impl<B: BlockIo, I: Item, const QLEN: usize> SdLog<B, I, QLEN> {
    /// The log is `other` with possibly other values queued.
    pub closed spec fn same_but_queue(&self, other: &Self) -> bool {
        *self == (Self { queue: self.queue, ..*other })
    }

    /// `item` has a serialized form of a size the log accepts, from which it
    /// is decoded back.
    pub open spec fn accepted(&self, item: I) -> bool {
        &&& round_trips(item)
        &&& !self.size_refused(item.encoded()->Some_0.len())
    }

    /// Logs that differ only in their queues hold the same unread bytes at
    /// the same positions, on the same device.
    proof fn lemma_same_but_queue(a: &Self, b: &Self)
        requires
            a.same_but_queue(b),
        ensures
            a.same_positions(b),
            forall|j: u64| #[trigger] a.device().stored(j) == b.device().stored(j),
    {
        assert(a.stream() =~= b.stream());
    }

    /// The error with which writing `item` is refused before anything is
    /// written, if it is.
    pub open spec fn write_outcome(&self, item: I) -> Option<Error> {
        match item.encoded() {
            None => Some(Error::ItemSerialize),
            Some(b) => if self.size_refused(b.len()) {
                Some(Error::ItemSerializeSize)
            } else if self.prefix() + b.len() > self.capacity() - 1 - self.occupancy() {
                Some(Error::BlockDeviceFull)
            } else {
                None
            },
        }
    }

    /// Every queued value has a serialized form of an accepted size, and
    /// their records fit the free space and the rest of the block being
    /// assembled.
    pub open spec fn queue_fits_buffer(&self) -> bool {
        let total = frames_of(self.queued(), self.prefix()).len();
        &&& forall|i: int| 0 <= i < self.queued().len() ==> {
            &&& (#[trigger] self.queued()[i]).encoded() is Some
            &&& !self.size_refused(self.queued()[i].encoded()->Some_0.len())
        }
        &&& self.write_byte_index() + total < 512
        &&& total <= self.capacity() - 1 - self.occupancy()
    }

    /// Opens the log on `bio`, loading its positions from the status blocks.
    ///
    /// Devices that cannot tell their number of blocks, or have fewer than
    /// 1024 blocks or more than 2^54, are refused with `InvalidNumBlocks`.
    pub fn new(bio: B) -> (r: Result<Self, Error>)
        ensures
            (match bio.block_count() {
                None => true,
                Some(n) => n < MIN_NUM_BLOCKS || n > MAX_NUM_BLOCKS,
            }) <==> r == Err::<Self, Error>(Error::InvalidNumBlocks),
            r is Err ==> r == Err::<Self, Error>(Error::InvalidNumBlocks) || r == Err::<Self, Error>(Error::BlockRead),
            r matches Ok(log) ==> {
                let p = newest_page(bio.stored(0), bio.stored(1), (log.num_blocks() - DATA_BLOCKS_OFFS) as nat);
                &&& bio.block_count() == Some(log.num_blocks())
                &&& log.max_record() == I::max_bytes()
                &&& log.wf()
                &&& log.offsets_in_block()
                &&& log.opened_from(bio)
                &&& log.status_consistent()
                &&& log.read_block_index() == p.read_block
                &&& log.read_byte_index() == p.read_byte
                &&& log.write_block_index() == p.write_block
                &&& log.write_byte_index() == p.write_byte
                &&& log.queued() == Seq::<I>::empty()
                &&& !log.dirty()
                &&& forall|j: u64| #[trigger] log.device().stored(j) == bio.stored(j)
            },
    {
        let num_blocks = match bio.num_blocks() {
            Ok(n) => n,
            Err(_) => {
                return Err(Error::InvalidNumBlocks);
            },
        };
        if num_blocks < MIN_NUM_BLOCKS || num_blocks > MAX_NUM_BLOCKS {
            return Err(Error::InvalidNumBlocks);
        }
        let ghost dev = bio;
        let mut this = Self {
            bio,
            queue: VecDeque::new(),
            wrbuf: wrbuf_new(),
            rdcache: [0u8; 512],
            rdcache_idx: None,
            status_page_dirty: false,
            serial: 0,
            read_block: 0,
            read_byte: 0,
            write_block: 0,
            write_byte: 0,
            num_blocks,
            item_max: I::max_size(),
        };
        this.sd_read_status_page()?;
        // Reload the bytes of the block being assembled from the device.
        if this.write_byte > 0 {
            let block = match this.bio.read_block(this.write_block + DATA_BLOCKS_OFFS) {
                Ok(b) => b,
                Err(_) => {
                    return Err(Error::BlockRead);
                },
            };
            let part = vstd::slice::slice_subrange(block.as_slice(), 0, this.write_byte as usize);
            let result = wrbuf_extend_from_slice(&mut this.wrbuf, part);
            if result.is_err() {
                // Unreachable: a valid page has its write offset inside the block.
                assert(false);
            }
        }
        proof {
            assert(buffered(this.wrbuf) =~= dev.stored((this.write_block + DATA_BLOCKS_OFFS) as u64).take(
                this.write_byte as int));
        }
        Ok(this)
    }

    /// Queues `item` for writing; the queue holds at most `QLEN` values.
    pub fn push_item(&mut self, item: I) -> (r: Result<(), Error>)
        requires
            old(self).wf(),
        ensures
            final(self).wf(),
            old(self).queued().len() < QLEN ==> r is Ok && final(self).queued() == old(self).queued().push(item),
            old(self).queued().len() >= QLEN ==> r == Err::<(), Error>(Error::QueueFull) && final(self).queued() == old(self).queued(),
            final(self).same_but_queue(old(self)),
            final(self).stream() == old(self).stream(),
            final(self).occupancy() == old(self).occupancy(),
            final(self).prefix() == old(self).prefix(),
            final(self).max_record() == old(self).max_record(),
            final(self).capacity() == old(self).capacity(),
            final(self).num_blocks() == old(self).num_blocks(),
            final(self).read_block_index() == old(self).read_block_index(),
            final(self).read_byte_index() == old(self).read_byte_index(),
            final(self).write_block_index() == old(self).write_block_index(),
            final(self).write_byte_index() == old(self).write_byte_index(),
            final(self).dirty() == old(self).dirty(),
            final(self).status_consistent() == old(self).status_consistent(),
            forall|j: u64| #[trigger] final(self).device().stored(j) == old(self).device().stored(j),
    {
        if self.queue.len() >= QLEN {
            return Err(Error::QueueFull);
        }
        self.queue.push_back(item);
        Ok(())
    }

    /// Serializes `item` and appends its record to the stream.
    pub fn write_item(&mut self, item: &I) -> (r: Result<(), Error>)
        requires
            old(self).wf(),
        ensures
            final(self).wf(),
            final(self).queued() == old(self).queued(),
            final(self).prefix() == old(self).prefix(),
            final(self).max_record() == old(self).max_record(),
            final(self).capacity() == old(self).capacity(),
            final(self).num_blocks() == old(self).num_blocks(),
            final(self).read_block_index() == old(self).read_block_index(),
            final(self).read_byte_index() == old(self).read_byte_index(),
            final(self).serial() == old(self).serial(),
            old(self).dirty() ==> final(self).dirty(),
            old(self).write_outcome(*item) matches Some(e) ==> r == Err::<(), Error>(e) && *final(self) == *old(self),
            old(self).write_outcome(*item) is None ==> r is Ok || r == Err::<(), Error>(Error::BlockWrite),
            old(self).write_outcome(*item) is None && old(self).write_byte_index() + old(self).prefix()
                + item.encoded()->Some_0.len() < 512 ==> r is Ok && final(self).write_byte_index()
                == old(self).write_byte_index() + old(self).prefix() + item.encoded()->Some_0.len()
                && final(self).write_block_index() == old(self).write_block_index(),
            r is Ok ==> round_trips(*item) && !old(self).size_refused(item.encoded()->Some_0.len()),
            r is Ok ==> final(self).dirty(),
            old(self).status_consistent() && r is Ok ==> final(self).status_consistent(),
            r is Ok ==> final(self).write_byte_index() < 512,
            r is Ok && old(self).offsets_in_block() ==> final(self).offsets_in_block(),
            item.encoded() matches Some(b) ==> {
                &&& r is Ok ==> final(self).occupancy() == old(self).occupancy() + old(self).prefix() + b.len()
                &&& r is Ok ==> final(self).stream() == old(self).stream() + frame(b, old(self).prefix())
            },
            r is Err ==> final(self).same_positions(old(self)),
            forall|j: u64| j < DATA_BLOCKS_OFFS ==> #[trigger] final(self).device().stored(j) == old(self).device().stored(j),
    {
        let bytes = match item.to_bytes() {
            Some(b) => b,
            None => {
                return Err(Error::ItemSerialize);
            },
        };
        self.write_item_bytes(bytes.as_slice())
    }

    /// Writes every queued value, oldest first. A value that cannot be
    /// written goes back to the front of the queue and its error is returned.
    pub fn flush_queue(&mut self) -> (r: Result<(), Error>)
        requires
            old(self).wf(),
        ensures
            final(self).wf(),
            final(self).prefix() == old(self).prefix(),
            final(self).max_record() == old(self).max_record(),
            final(self).capacity() == old(self).capacity(),
            final(self).num_blocks() == old(self).num_blocks(),
            final(self).read_block_index() == old(self).read_block_index(),
            final(self).read_byte_index() == old(self).read_byte_index(),
            final(self).serial() == old(self).serial(),
            old(self).dirty() ==> final(self).dirty(),
            old(self).queued().len() == 0 ==> r is Ok && *final(self) == *old(self),
            old(self).queue_fits_buffer() ==> r is Ok && final(self).write_block_index() == old(self).write_block_index()
                && final(self).write_byte_index() == old(self).write_byte_index() + frames_of(old(self).queued(), old(self).prefix()).len(),
            r is Ok ==> final(self).queued() == Seq::<I>::empty(),
            r is Ok && old(self).queued().len() > 0 ==> final(self).dirty(),
            r is Ok ==> final(self).stream() == old(self).stream() + frames_of(old(self).queued(), old(self).prefix()),
            r is Ok ==> forall|i: int| 0 <= i < old(self).queued().len() ==> old(self).accepted(#[trigger] old(self).queued()[i]),
            r is Ok && old(self).status_consistent() ==> final(self).status_consistent(),
            r is Ok && old(self).offsets_in_block() ==> final(self).offsets_in_block(),
            old(self).queued().len() > 0 && old(self).write_outcome(old(self).queued()[0]) is Some ==> {
                &&& r == Err::<(), Error>(old(self).write_outcome(old(self).queued()[0])->Some_0)
                &&& final(self).queued() == old(self).queued()
                &&& final(self).same_positions(old(self))
                &&& forall|j: u64| #[trigger] final(self).device().stored(j) == old(self).device().stored(j)
            },
            forall|j: u64| j < DATA_BLOCKS_OFFS ==> #[trigger] final(self).device().stored(j) == old(self).device().stored(j),
            r is Err ==> exists|k: int| 0 <= k < old(self).queued().len() && {
                &&& final(self).queued() == old(self).queued().skip(k)
                &&& final(self).stream() == old(self).stream() + frames_of(old(self).queued().take(k), old(self).prefix())
                &&& r != Err::<(), Error>(Error::BlockWrite) ==> final(self).write_outcome(final(self).queued()[0]) == Some(r->Err_0)
            },
    {
        let ghost q0 = self.queue@;
        let ghost s0 = self.stream();
        let ghost k: int = 0;
        let ghost fits = self.queue_fits_buffer();
        proof {
            if fits {
                assert(q0.take(0) =~= Seq::<I>::empty());
            }
        }
        while self.queue.len() > 0
            invariant
                self.wf(),
                0 <= k <= q0.len(),
                self.queue@ == q0.skip(k),
                q0 == old(self).queued(),
                s0 == old(self).stream(),
                fits == old(self).queue_fits_buffer(),
                k == 0 ==> *self == *old(self),
                k > 0 ==> old(self).write_outcome(q0[0]) is None,
                forall|j: u64| j < DATA_BLOCKS_OFFS ==> #[trigger] self.bio.stored(j) == old(self).bio.stored(j),
                self.prefix() == old(self).prefix(),
                self.max_record() == old(self).max_record(),
                self.capacity() == old(self).capacity(),
                self.num_blocks == old(self).num_blocks,
                self.read_block == old(self).read_block,
                self.read_byte == old(self).read_byte,
                self.serial == old(self).serial,
                old(self).dirty() ==> self.dirty(),
                k > 0 ==> self.dirty(),
                self.stream() == s0 + frames_of(q0.take(k), self.prefix()),
                forall|i: int| 0 <= i < k ==> old(self).accepted(#[trigger] q0[i]),
                old(self).status_consistent() ==> self.status_consistent(),
                old(self).offsets_in_block() ==> self.offsets_in_block(),
                fits ==> self.write_byte == old(self).write_byte + frames_of(q0.take(k), self.prefix()).len(),
                fits ==> self.write_block == old(self).write_block,
                fits ==> self.occupancy() == old(self).occupancy() + frames_of(q0.take(k), self.prefix()).len(),
            decreases self.queue@.len(),
        {
            let ghost prev = *self;
            let item = match self.queue.pop_front() {
                Some(it) => it,
                None => {
                    assert(false);
                    return Ok(());
                },
            };
            let ghost before = *self;
            proof {
                assert(q0[k] == item);
                assert(q0.take(k + 1).drop_last() =~= q0.take(k));
                assert(q0.take(k + 1).last() == item);
                if fits {
                    lemma_frames_of_take_len(q0, k + 1, self.prefix());
                    assert(q0[k].encoded() is Some);
                }
            }
            proof {
                if k == 0 {
                    assert(before.write_outcome(item) == old(self).write_outcome(q0[0]));
                }
            }
            let result = self.write_item(&item);
            match result {
                Ok(()) => {
                    proof {
                        assert(before.stream() == prev.stream());
                        assert(before.status_consistent() == prev.status_consistent());
                        assert forall|j: u64| j < DATA_BLOCKS_OFFS implies #[trigger] self.bio.stored(j) == old(self).bio.stored(j) by {
                            assert(self.device().stored(j) == before.device().stored(j));
                        }
                        let b = item.encoded()->Some_0;
                        assert(frames_of(q0.take(k + 1), self.prefix()) == frames_of(q0.take(k), self.prefix()) + frame(b, self.prefix()));
                        assert(self.stream() =~= s0 + frames_of(q0.take(k + 1), self.prefix()));
                        k = k + 1;
                        assert(self.queue@ =~= q0.skip(k));
                    }
                },
                Err(e) => {
                    let ghost failed = *self;
                    self.queue.push_front(item);
                    proof {
                        assert(self.queue@ =~= q0.skip(k));
                        assert(self.queue@[0] == item);
                        Self::lemma_same_but_queue(self, &failed);
                        Self::lemma_same_but_queue(&before, &prev);
                        assert(self.stream() == s0 + frames_of(q0.take(k), self.prefix()));
                        assert forall|j: u64| j < DATA_BLOCKS_OFFS implies #[trigger] self.bio.stored(j) == old(self).bio.stored(j) by {
                            assert(failed.device().stored(j) == before.device().stored(j));
                        }
                        if k == 0 && old(self).write_outcome(q0[0]) is Some {
                            assert(failed == before);
                            assert(prev == *old(self));
                            assert(q0.skip(0) =~= q0);
                            assert(self.same_but_queue(old(self)));
                            Self::lemma_same_but_queue(self, old(self));
                        }
                    }
                    return Err(e);
                },
            }
        }
        assert(q0.take(q0.len() as int) =~= q0);
        Ok(())
    }

    /// Takes the next record off the stream and returns the value it holds.
    ///
    /// A record whose bytes hold no value, or a value that is not valid, is
    /// consumed and reported as `ItemDeserialize`.
    pub fn pop_item(&mut self) -> (r: Result<Option<I>, Error>)
        requires
            old(self).wf(),
        ensures
            final(self).wf(),
            final(self).queued() == old(self).queued(),
            final(self).num_blocks() == old(self).num_blocks(),
            final(self).write_block_index() == old(self).write_block_index(),
            final(self).write_byte_index() == old(self).write_byte_index(),
            forall|j: u64| #[trigger] final(self).device().stored(j) == old(self).device().stored(j),
            old(self).dirty() ==> final(self).dirty(),
            old(self).occupancy() < old(self).prefix() ==> r == Ok::<Option<I>, Error>(None)
                && *final(self) == *old(self),
            r is Err ==> r == Err::<Option<I>, Error>(Error::BlockRead) || r == Err::<Option<I>, Error>(Error::ItemDeserialize),
            old(self).unread_in_buffer() ==> r != Err::<Option<I>, Error>(Error::BlockRead),
            old(self).status_consistent() && r != Err::<Option<I>, Error>(Error::BlockRead) ==> final(self).status_consistent(),
            old(self).offsets_in_block() ==> final(self).offsets_in_block(),
            final(self).read_pos() == (old(self).read_pos() + (old(self).occupancy() - final(self).occupancy())) % old(self).capacity(),
            match front_frame_size(old(self).stream(), old(self).prefix()) {
                None => {
                    &&& r == Ok::<Option<I>, Error>(None) || r == Err::<Option<I>, Error>(Error::BlockRead)
                    &&& final(self).stream() == old(self).stream()
                    &&& final(self).read_block_index() == old(self).read_block_index()
                    &&& final(self).read_byte_index() == old(self).read_byte_index()
                },
                Some(t) => {
                    let payload = old(self).stream().subrange(old(self).prefix() as int, t as int);
                    ||| {
                        &&& final(self).stream() == old(self).stream().skip(t as int)
                        &&& final(self).dirty()
                        &&& match I::decoded(payload) {
                            Some(v) => if v.valid() {
                                r == Ok::<Option<I>, Error>(Some(v))
                            } else {
                                r == Err::<Option<I>, Error>(Error::ItemDeserialize)
                            },
                            None => r == Err::<Option<I>, Error>(Error::ItemDeserialize),
                        }
                    }
                    ||| {
                        &&& r == Err::<Option<I>, Error>(Error::BlockRead)
                        &&& old(self).occupancy() - t <= final(self).occupancy() <= old(self).occupancy()
                        &&& final(self).stream() == old(self).stream().skip(old(self).occupancy() - final(self).occupancy())
                    }
                },
            },
    {
        let bytes = match self.pop_item_bytes() {
            Ok(Some(b)) => b,
            Ok(None) => {
                return Ok(None);
            },
            Err(e) => {
                return Err(e);
            },
        };
        match I::from_bytes(bytes.as_slice()) {
            Some(item) => {
                if item.is_valid() {
                    Ok(Some(item))
                } else {
                    Err(Error::ItemDeserialize)
                }
            },
            None => Err(Error::ItemDeserialize),
        }
    }
}


/// A block that starts with the encoding of a valid page holds that page.
proof fn lemma_block_holds_page(b: Seq<u8>, p: StatusPage, data_blocks: nat)
    requires
        b.len() == 512,
        b.take(STATUS_PAGE_SIZE as int) == encode(p),
        page_is_valid(p, data_blocks),
    ensures
        checked_page(b, data_blocks) == p,
{
    lemma_decode_encode(p);
    let e = b.take(STATUS_PAGE_SIZE as int);
    assert forall|off: int, n: int| 0 <= off && 0 <= n && off + n <= 56 implies #[trigger] b.subrange(off, off + n) == e.subrange(off, off + n) by {
        assert(b.subrange(off, off + n) =~= e.subrange(off, off + n));
    }
    assert(decode(b) == decode(e));
}

impl<B: BlockIo, I: Item, const QLEN: usize> SdLog<B, I, QLEN> {
    /// The device holds the block being assembled as `commit` writes it: the
    /// bytes written so far, then the unread bytes of a reader ahead in that
    /// block, or else zeros.
    pub closed spec fn block_persisted(&self) -> bool {
        let b = self.bio.stored((self.write_block + DATA_BLOCKS_OFFS) as u64);
        self.write_byte == 0 || {
            &&& b.len() == 512
            &&& b.take(self.write_byte as int) == buffered(self.wrbuf)
            &&& !self.reader_ahead() ==> forall|k: int| self.write_byte <= k < 512 ==> #[trigger] b[k] == 0
        }
    }

    /// Both byte offsets lie inside their blocks, as a status page requires.
    pub open spec fn offsets_in_block(&self) -> bool {
        self.read_byte_index() < 512 && self.write_byte_index() < 512
    }

    /// A block holding the first `head.len()` bytes of `head` followed by
    /// the rest of `tail`.
    fn block_over(head: &[u8], tail: &Block) -> (block: Block)
        requires
            head@.len() <= 512,
        ensures
            forall|k: int| 0 <= k < head@.len() ==> block@[k] == head@[k],
            forall|k: int| head@.len() <= k < 512 ==> block@[k] == tail@[k],
    {
        let mut block: Block = *tail;
        let mut i: usize = 0;
        while i < head.len()
            invariant
                0 <= i <= head@.len() <= 512,
                forall|k: int| 0 <= k < i ==> block@[k] == head@[k],
                forall|k: int| i <= k < 512 ==> block@[k] == tail@[k],
            decreases head@.len() - i,
        {
            block[i] = head[i];
            i = i + 1;
        }
        block
    }

    /// Writes the partly filled block being assembled to the device: the
    /// bytes written so far, then the unread bytes of a reader ahead in that
    /// block, or else zeros.
    fn persist_assembled(&mut self) -> (r: Result<(), Error>)
        requires
            old(self).inv(),
            old(self).good(),
            old(self).write_byte < 512,
            old(self).read_byte < 512,
        ensures
            final(self).inv(),
            final(self).good(),
            final(self).read_block == old(self).read_block,
            final(self).read_byte == old(self).read_byte,
            final(self).write_block == old(self).write_block,
            final(self).write_byte == old(self).write_byte,
            final(self).wrbuf == old(self).wrbuf,
            final(self).queue == old(self).queue,
            final(self).serial == old(self).serial,
            final(self).status_page_dirty == old(self).status_page_dirty,
            final(self).num_blocks == old(self).num_blocks,
            final(self).item_max == old(self).item_max,
            forall|j: u64| j != old(self).write_block + DATA_BLOCKS_OFFS ==> #[trigger] final(self).bio.stored(j) == old(self).bio.stored(j),
            r is Err ==> r == Err::<(), Error>(Error::BlockRead) || r == Err::<(), Error>(Error::BlockWrite),
            r == Err::<(), Error>(Error::BlockRead) ==> old(self).reader_ahead(),
            r != Err::<(), Error>(Error::BlockWrite) ==> final(self).stream() == old(self).stream(),
            final(self).occupancy() == old(self).occupancy(),
            r is Ok ==> final(self).block_persisted(),
            r is Ok ==> final(self).bio.stored((final(self).write_block + DATA_BLOCKS_OFFS) as u64).take(
                final(self).write_byte as int) == buffered(final(self).wrbuf),
            r is Ok && old(self).block_persisted() ==> forall|j: u64| #[trigger] final(self).bio.stored(j) == old(self).bio.stored(j),
            old(self).write_byte == 0 ==> r is Ok && *final(self) == *old(self),
    {
        if wrbuf_len(&self.wrbuf) == 0 {
            assert(self.bio.stored((self.write_block + DATA_BLOCKS_OFFS) as u64).take(0) =~= buffered(self.wrbuf));
            return Ok(());
        }
        let ahead = self.read_block == self.write_block && self.read_byte > self.write_byte;
        let block = if ahead {
            // The reader is ahead in this block: keep the unread bytes after
            // the write offset.
            match self.load_read_cache() {
                Ok(()) => {},
                Err(e) => {
                    proof {
                        Self::lemma_advance(old(self), self, 0);
                    }
                    return Err(e);
                },
            }
            Self::block_over(wrbuf_as_slice(&self.wrbuf), &self.rdcache)
        } else {
            block_from(wrbuf_as_slice(&self.wrbuf))
        };
        let ghost loaded = *self;
        let ghost wb = (self.write_block + DATA_BLOCKS_OFFS) as u64;
        proof {
            Self::lemma_advance(old(self), &loaded, 0);
            if ahead {
                assert forall|k: int| loaded.write_byte <= k < 512 implies #[trigger] block@[k]
                    == loaded.bio.stored(wb)[k] by {
                    assert(loaded.rdcache@[k] == loaded.bio.stored((loaded.read_block + DATA_BLOCKS_OFFS) as u64)[k]);
                }
            }
            if old(self).block_persisted() {
                let b = loaded.bio.stored(wb);
                assert(b == old(self).bio.stored(wb));
                assert forall|k: int| 0 <= k < 512 implies #[trigger] block@[k] == b[k] by {
                    if k < self.write_byte {
                        assert(b.take(self.write_byte as int)[k] == b[k]);
                    }
                }
                assert(block@ =~= b);
            }
        }
        match self.bio.write_block(self.write_block + DATA_BLOCKS_OFFS, block) {
            Ok(()) => {},
            Err(_) => {
                if ahead {
                    self.rdcache_idx = None;
                }
                proof {
                    if !ahead {
                        Self::lemma_keep_assembled(&loaded, self);
                    } else {
                        lemma_block_pos_bound(self.read_block as int, self.num_blocks as int);
                    }
                }
                return Err(Error::BlockWrite);
            },
        }
        proof {
            Self::lemma_keep_assembled(&loaded, self);
            assert(self.bio.stored(wb).take(self.write_byte as int) =~= buffered(self.wrbuf));
            if old(self).block_persisted() {
                assert forall|j: u64| #[trigger] self.bio.stored(j) == old(self).bio.stored(j) by {
                    if j == wb {
                        assert(self.bio.stored(j) =~= old(self).bio.stored(j));
                    }
                }
            }
        }
        Ok(())
    }

    /// Persists everything written so far: the queued values, the partly
    /// filled block, and, when the positions changed, the status page.
    ///
    /// The partly filled block is written with the device's bytes after the
    /// write offset where the reader has yet to read them (the reader is in
    /// that block, ahead of the writer), and with zeros otherwise.
    #[verifier::spinoff_prover]
    #[verifier::rlimit(40)]
    pub fn commit(&mut self) -> (r: Result<(), Error>)
        requires
            old(self).wf(),
        ensures
            final(self).wf(),
            final(self).prefix() == old(self).prefix(),
            final(self).max_record() == old(self).max_record(),
            final(self).capacity() == old(self).capacity(),
            final(self).num_blocks() == old(self).num_blocks(),
            final(self).read_block_index() == old(self).read_block_index(),
            final(self).read_byte_index() == old(self).read_byte_index(),
            old(self).queued().len() == 0 && old(self).write_byte_index() == 0 && !old(self).dirty()
                ==> r is Ok && *final(self) == *old(self),
            r is Ok && old(self).queue_fits_buffer() ==> final(self).write_block_index() == old(self).write_block_index()
                && final(self).write_byte_index() == old(self).write_byte_index() + frames_of(old(self).queued(), old(self).prefix()).len(),
            r is Ok ==> final(self).queued() == Seq::<I>::empty() && !final(self).dirty(),
            r is Ok && old(self).offsets_in_block() ==> final(self).offsets_in_block(),
            r is Ok ==> final(self).stream() == old(self).stream() + frames_of(old(self).queued(), old(self).prefix()),
            r is Ok ==> forall|i: int| 0 <= i < old(self).queued().len() ==> old(self).accepted(#[trigger] old(self).queued()[i]),
            r is Ok && old(self).status_consistent() && final(self).offsets_in_block() ==> final(self).synced()
                && final(self).status_consistent(),
            r is Err ==> exists|k: int| 0 <= k <= old(self).queued().len() && final(self).queued() == old(self).queued().skip(k),
            r == Err::<(), Error>(Error::BlockRead) ==> final(self).read_block_index() == final(self).write_block_index()
                && final(self).read_byte_index() > final(self).write_byte_index(),
            r is Err && r != Err::<(), Error>(Error::BlockWrite) && r != Err::<(), Error>(Error::BlockRead)
                && r != Err::<(), Error>(Error::StatusPageFormat) ==> {
                &&& final(self).queued().len() > 0
                &&& final(self).write_outcome(final(self).queued()[0]) == Some(r->Err_0)
            },
            r is Err && r != Err::<(), Error>(Error::BlockWrite) ==> exists|k: int| 0 <= k <= old(self).queued().len()
                && final(self).stream() == old(self).stream() + frames_of(old(self).queued().take(k), old(self).prefix()),
            old(self).queued().len() > 0 && old(self).write_outcome(old(self).queued()[0]) is Some ==> {
                &&& r == Err::<(), Error>(old(self).write_outcome(old(self).queued()[0])->Some_0)
                &&& final(self).queued() == old(self).queued()
                &&& final(self).same_positions(old(self))
                &&& forall|j: u64| #[trigger] final(self).device().stored(j) == old(self).device().stored(j)
            },
            r == Err::<(), Error>(Error::StatusPageFormat) <==> (old(self).serial() == u64::MAX && final(self).queued().len() == 0
                && final(self).dirty() && r != Err::<(), Error>(Error::BlockWrite) && r != Err::<(), Error>(Error::BlockRead)),
            final(self).serial() == old(self).serial() || final(self).serial() == old(self).serial() + 1,
            final(self).queued().len() > 0 || !final(self).dirty() && !old(self).dirty() && old(self).queued().len() == 0
                ==> forall|j: u64| j < DATA_BLOCKS_OFFS ==> #[trigger] final(self).device().stored(j) == old(self).device().stored(j),
            r is Ok ==> final(self).block_persisted(),
            r is Ok && old(self).queued().len() == 0 && !old(self).dirty() && old(self).block_persisted() ==> {
                &&& final(self).same_positions(old(self))
                &&& forall|j: u64| #[trigger] final(self).device().stored(j) == old(self).device().stored(j)
            },
    {
        let ghost q0 = self.queue@;
        match self.flush_queue() {
            Ok(()) => {},
            Err(e) => {
                proof {
                    let k = choose|k: int| 0 <= k < q0.len() && {
                        &&& self.queued() == q0.skip(k)
                        &&& self.stream() == old(self).stream() + frames_of(q0.take(k), old(self).prefix())
                        &&& e != Error::BlockWrite ==> self.write_outcome(self.queued()[0]) == Some(e)
                    };
                    assert(0 <= k <= q0.len() && self.stream() == old(self).stream() + frames_of(q0.take(k), old(self).prefix()));
                }
                return Err(e);
            },
        }
        assert(self.queue@ == q0.skip(q0.len() as int));
        assert(q0.take(q0.len() as int) =~= q0);
        let ghost flushed = *self;
        match self.persist_assembled() {
            Ok(()) => {},
            Err(e) => {
                proof {
                    assert(self.stream() == old(self).stream() + frames_of(q0.take(q0.len() as int), old(self).prefix())
                        || e == Error::BlockWrite);
                }
                return Err(e);
            },
        }
        let ghost persisted = *self;
        if self.status_page_dirty {
            match self.sd_write_status_page() {
                Ok(()) => {},
                Err(e) => {
                    proof {
                        Self::lemma_keep_assembled(&persisted, self);
                    }
                    return Err(e);
                },
            }
            self.status_page_dirty = false;
            proof {
                Self::lemma_keep_assembled(&persisted, self);
                if flushed.status_consistent() && self.offsets_in_block() {
                    let p = StatusPage {
                        magic0: MAGIC,
                        magic1: MAGIC,
                        serial0: self.serial,
                        serial1: self.serial,
                        read_block: self.read_block,
                        write_block: self.write_block,
                        read_byte: self.read_byte,
                        write_byte: self.write_byte,
                    };
                    lemma_block_holds_page(self.bio.stored(self.serial % 2), p, self.data_blocks() as nat);
                    assert(self.bio.stored(0) == persisted.bio.stored(0) || self.serial % 2 == 0);
                    assert(self.bio.stored(1) == persisted.bio.stored(1) || self.serial % 2 == 1);
                    assert(self.device_page() == p);
                }
            }
        }
        Ok(())
    }

    /// Index of the block being read.
    pub fn get_read_block_index(&self) -> (r: u64)
        ensures
            r == self.read_block_index(),
    {
        self.read_block
    }

    /// Index of the block being assembled for writing.
    pub fn get_write_block_index(&self) -> (r: u64)
        ensures
            r == self.write_block_index(),
    {
        self.write_block
    }

    /// Offset of the read position in its block.
    pub fn get_read_byte_index(&self) -> (r: u16)
        ensures
            r == self.read_byte_index(),
    {
        self.read_byte
    }

    /// Offset of the write position in its block.
    pub fn get_write_byte_index(&self) -> (r: u16)
        ensures
            r == self.write_byte_index(),
    {
        self.write_byte
    }

    /// Number of blocks of the device.
    pub fn get_num_blocks(&self) -> (r: u64)
        ensures
            r == self.num_blocks(),
    {
        self.num_blocks
    }

    /// Index of the data block being read.
    pub closed spec fn read_block_index(&self) -> u64 {
        self.read_block
    }

    /// Index of the data block being assembled.
    pub closed spec fn write_block_index(&self) -> u64 {
        self.write_block
    }

    /// Offset of the read position in its block.
    pub closed spec fn read_byte_index(&self) -> u16 {
        self.read_byte
    }

    /// Offset of the write position in its block.
    pub closed spec fn write_byte_index(&self) -> u16 {
        self.write_byte
    }

    /// Number of blocks of the device.
    pub closed spec fn num_blocks(&self) -> u64 {
        self.num_blocks
    }

    /// The read position, in bytes from the start of the data blocks.
    pub open spec fn read_pos(&self) -> int {
        self.read_block_index() * 512 + self.read_byte_index()
    }

    /// Reading moves the read position by the number of bytes read, round
    /// the ring.
    proof fn lemma_read_pos(old_log: &Self, new_log: &Self)
        requires
            old_log.inv(),
            new_log.inv(),
            old_log.read_byte < 512,
            new_log.read_byte < 512,
            new_log.write_block == old_log.write_block,
            new_log.write_byte == old_log.write_byte,
            new_log.num_blocks == old_log.num_blocks,
            0 <= old_log.occupancy() - new_log.occupancy() <= old_log.occupancy(),
        ensures
            new_log.read_pos() == (old_log.read_pos() + (old_log.occupancy() - new_log.occupancy())) % old_log.capacity(),
    {
        lemma_block_pos_bound(old_log.read_block as int, old_log.num_blocks as int);
        lemma_block_pos_bound(new_log.read_block as int, new_log.num_blocks as int);
        lemma_block_pos_bound(old_log.write_block as int, old_log.num_blocks as int);
        let x = old_log.rpos() + (old_log.occupancy() - new_log.occupancy());
        Self::lemma_mod_small(x, old_log.capacity());
    }

    /// The serial of the status page last read or written.
    pub closed spec fn serial(&self) -> u64 {
        self.serial
    }

    /// `self` holds the unread bytes of `other` at the same positions, with
    /// the same status flag and serial.
    pub open spec fn same_positions(&self, other: &Self) -> bool {
        &&& self.stream() == other.stream()
        &&& self.occupancy() == other.occupancy()
        &&& self.read_block_index() == other.read_block_index()
        &&& self.read_byte_index() == other.read_byte_index()
        &&& self.write_block_index() == other.write_block_index()
        &&& self.write_byte_index() == other.write_byte_index()
        &&& self.num_blocks() == other.num_blocks()
        &&& self.dirty() == other.dirty()
        &&& self.serial() == other.serial()
        &&& self.status_consistent() == other.status_consistent()
    }
}


/// The records of a sequence of values start with the record of its first value.
proof fn lemma_frames_of_front<I: Item>(items: Seq<I>, prefix: nat)
    requires
        items.len() > 0,
    ensures
        frames_of(items, prefix) == match items[0].encoded() {
            Some(b) => frame(b, prefix),
            None => Seq::empty(),
        } + frames_of(items.drop_first(), prefix),
    decreases items.len(),
{
    if items.len() == 1 {
        assert(items.drop_last() =~= Seq::<I>::empty());
        assert(items.drop_first() =~= Seq::<I>::empty());
        assert(frames_of(items, prefix) =~= match items[0].encoded() {
            Some(b) => frame(b, prefix),
            None => Seq::empty(),
        } + frames_of(items.drop_first(), prefix));
    } else {
        lemma_frames_of_front(items.drop_last(), prefix);
        assert(items.drop_last().drop_first() =~= items.drop_first().drop_last());
        assert(items.drop_last()[0] == items[0]);
        assert(items.drop_first().last() == items.last());
        let head = match items[0].encoded() {
            Some(b) => frame(b, prefix),
            None => Seq::empty(),
        };
        let tail = match items.last().encoded() {
            Some(b) => frame(b, prefix),
            None => Seq::empty(),
        };
        assert(frames_of(items, prefix) =~= head + frames_of(items.drop_first().drop_last(), prefix) + tail);
    }
}

/// Records come out in the order their values went in: when the stream holds
/// the records of `items` followed by anything, the next record is the one of
/// the first value, and after it come the records of the other values.
pub proof fn lemma_records_in_order<I: Item>(items: Seq<I>, rest: Seq<u8>, prefix: nat)
    requires
        is_width(prefix),
        items.len() > 0,
        items[0].encoded() is Some,
        0 < items[0].encoded()->Some_0.len() < pow256(prefix),
        prefix + items[0].encoded()->Some_0.len() <= usize::MAX,
    ensures
        ({
            let b = items[0].encoded()->Some_0;
            let s = frames_of(items, prefix) + rest;
            &&& front_frame_size(s, prefix) == Some(prefix + b.len())
            &&& s.subrange(prefix as int, (prefix + b.len()) as int) == b
            &&& s.skip((prefix + b.len()) as int) == frames_of(items.drop_first(), prefix) + rest
        }),
{
    let b = items[0].encoded()->Some_0;
    lemma_frames_of_front(items, prefix);
    assert(frames_of(items, prefix) + rest =~= frame(b, prefix) + (frames_of(items.drop_first(), prefix) + rest));
    lemma_front_frame(b, frames_of(items.drop_first(), prefix) + rest, prefix);
}

impl<B: BlockIo, I: Item, const QLEN: usize> SdLog<B, I, QLEN> {
    /// Opening again the device of a log whose state is persisted gives back
    /// the same positions and the same unread bytes.
    pub proof fn lemma_reopen(log: &Self, reopened: &Self)
        requires
            log.wf(),
            log.synced(),
            reopened.inv(),
            reopened.opened_from(log.device()),
            reopened.num_blocks() == log.num_blocks(),
        ensures
            reopened.wf(),
            reopened.read_block_index() == log.read_block_index(),
            reopened.read_byte_index() == log.read_byte_index(),
            reopened.write_block_index() == log.write_block_index(),
            reopened.write_byte_index() == log.write_byte_index(),
            reopened.stream() == log.stream(),
    {
        assert forall|k: int| 0 <= k < reopened.occupancy() implies #[trigger] reopened.stream()[k] == log.stream()[k] by {
            let p = reopened.wrap(reopened.rpos() + k);
            assert(reopened.bio.stored((p / 512 + DATA_BLOCKS_OFFS) as u64) == log.bio.stored((p / 512 + DATA_BLOCKS_OFFS) as u64));
        }
        assert(reopened.stream() =~= log.stream());
    }
}


impl<B: BlockIo, I: Item, const QLEN: usize> SdLog<B, I, QLEN> {
    /// Every log has a device of at least `MIN_NUM_BLOCKS` blocks, both
    /// positions inside its data blocks with their offsets inside a block, at
    /// most `capacity - 1` unread bytes, and at most `QLEN` queued values.
    /// `new` establishes this and every method keeps it, whatever it returns.
    pub proof fn lemma_shape(log: &Self)
        requires
            log.wf(),
        ensures
            MIN_NUM_BLOCKS <= log.num_blocks() <= MAX_NUM_BLOCKS,
            log.read_block_index() < log.num_blocks() - DATA_BLOCKS_OFFS,
            log.write_block_index() < log.num_blocks() - DATA_BLOCKS_OFFS,
            log.read_byte_index() < 512,
            log.write_byte_index() < 512,
            log.capacity() == (log.num_blocks() - DATA_BLOCKS_OFFS) * 512,
            0 <= log.occupancy() < log.capacity(),
            log.stream().len() == log.occupancy(),
            log.queued().len() <= QLEN,
            log.unread_in_buffer() ==> log.occupancy() == log.write_byte_index() - log.read_byte_index(),
    {
        if log.unread_in_buffer() {
            Self::lemma_same_block_occupancy(log);
        }
        lemma_block_pos_bound(log.read_block as int, log.num_blocks as int);
        lemma_block_pos_bound(log.write_block as int, log.num_blocks as int);
    }
}


impl<B: BlockIo, I: Item, const QLEN: usize> SdLog<B, I, QLEN> {
    /// A record that passes the size checks fits its length prefix, so that
    /// reading back its frame gives its length and bytes.
    pub proof fn lemma_accepted_record_fits(log: &Self, len: nat)
        requires
            !log.size_refused(len),
        ensures
            is_width(log.prefix()),
            len < pow256(log.prefix()),
            log.prefix() + len <= usize::MAX,
    {
        lemma_len_fits_prefix(len, log.item_max as nat);
    }

    /// What a read gives back of a write: when the unread bytes are the
    /// records of `items` followed by anything, and the log accepts the
    /// first value, the next record holds that value, and after it come the
    /// records of the other values.
    pub proof fn lemma_next_record(log: &Self, items: Seq<I>, rest: Seq<u8>)
        requires
            log.wf(),
            items.len() > 0,
            log.accepted(items[0]),
            log.stream() == frames_of(items, log.prefix()) + rest,
        ensures
            ({
                let t = log.prefix() + items[0].encoded()->Some_0.len();
                &&& front_frame_size(log.stream(), log.prefix()) == Some(t)
                &&& I::decoded(log.stream().subrange(log.prefix() as int, t as int)) == Some(items[0])
                &&& log.stream().skip(t as int) == frames_of(items.drop_first(), log.prefix()) + rest
            }),
    {
        Self::lemma_accepted_record_fits(log, items[0].encoded()->Some_0.len());
        lemma_records_in_order(items, rest, log.prefix());
    }
}

} // verus!
