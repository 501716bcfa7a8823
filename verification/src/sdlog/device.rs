//! The block device that the log is stored on, the items it holds, and its errors.

use vstd::prelude::*;

verus! {

/// Number of bytes of a device block.
pub const BLOCK_SIZE: usize = 512;

/// One device block.
pub type Block = [u8; 512];

/// A device that reads and writes whole blocks by index.
///
/// Implementations behave like memory: a read gives back the block as it is
/// stored, and a write changes the written block only. A failed write may
/// leave the written block in any state, but no other block.
///
/// The spec functions are how an implementation describes itself, and
/// the contracts below are requirements on it. Their defaults are fixed
/// placeholders (the same bytes for every block, the same count for every
/// device) that no real device matches; what is proved of the log holds of
/// an implementation that defines them by its contents.
pub trait BlockIo {
    type Error;

    /// The bytes that block `index` holds.
    closed spec fn stored(&self, index: u64) -> Seq<u8> {
        arbitrary()
    }

    /// The number of blocks of the device, when the device can tell it.
    closed spec fn block_count(&self) -> Option<u64> {
        arbitrary()
    }

    /// The number of blocks of the device.
    fn num_blocks(&self) -> (r: Result<u64, Self::Error>)
        ensures
            r is Ok <==> self.block_count() is Some,
            r matches Ok(n) ==> self.block_count() == Some(n),
    ;

    fn read_block(&mut self, index: u64) -> (r: Result<Block, Self::Error>)
        ensures
            forall|j: u64| #[trigger] final(self).stored(j) == old(self).stored(j),
            r matches Ok(b) ==> b@ == old(self).stored(index),
    ;

    fn write_block(&mut self, index: u64, block: Block) -> (r: Result<(), Self::Error>)
        ensures
            forall|j: u64| j != index ==> #[trigger] final(self).stored(j) == old(self).stored(j),
            r is Ok ==> final(self).stored(index) == block@,
    ;
}

/// A value that the log can hold.
///
/// Implementations serialize and deserialize deterministically: the bytes of
/// a value, and the value that given bytes hold, are fixed, and decoding the
/// bytes of a value gives the value back.
///
/// As for `BlockIo`, the spec functions are how an implementation describes
/// itself; their defaults are fixed placeholders, and what is proved of the
/// log holds of an implementation that defines them.
pub trait Item: Sized {
    /// Whether the value is acceptable when read back.
    closed spec fn valid(&self) -> bool {
        arbitrary()
    }

    /// The serialized form of the value, if it has one.
    closed spec fn encoded(&self) -> Option<Seq<u8>> {
        arbitrary()
    }

    /// The value that `bytes` hold, if any.
    closed spec fn decoded(bytes: Seq<u8>) -> Option<Self> {
        arbitrary()
    }

    fn is_valid(&self) -> (r: bool)
        ensures
            r == self.valid(),
    ;

    /// The largest number of bytes, length prefix included, that one stored
    /// value may take.
    closed spec fn max_bytes() -> usize {
        arbitrary()
    }

    /// The largest number of bytes, length prefix included, that one stored
    /// value may take.
    fn max_size() -> (r: usize)
        ensures
            r == Self::max_bytes(),
    ;

    fn to_bytes(&self) -> (r: Option<Vec<u8>>)
        ensures
            r matches Some(v) ==> self.encoded() == Some(v@) && Self::decoded(v@) == Some(*self),
            r is None ==> self.encoded() is None,
    ;

    fn from_bytes(bytes: &[u8]) -> (r: Option<Self>)
        ensures
            r == Self::decoded(bytes@),
    ;
}

#[derive(Clone, Copy, PartialEq, Eq, Debug)]
pub enum Error {
    InvalidNumBlocks,
    BlockRead,
    BlockWrite,
    BlockDeviceFull,
    QueueFull,
    StatusPageFormat,
    ItemSerialize,
    ItemSerializeSize,
    ItemDeserialize,
}

/// The name of an error, as it is displayed.
pub open spec fn error_name(e: Error) -> Seq<char> {
    match e {
        Error::InvalidNumBlocks => "InvalidNumBlocks"@,
        Error::BlockRead => "BlockRead"@,
        Error::BlockWrite => "BlockWrite"@,
        Error::BlockDeviceFull => "BlockDeviceFull"@,
        Error::QueueFull => "QueueFull"@,
        Error::StatusPageFormat => "StatusPageFormat"@,
        Error::ItemSerialize => "ItemSerialize"@,
        Error::ItemSerializeSize => "ItemSerializeSize"@,
        Error::ItemDeserialize => "ItemDeserialize"@,
    }
}

impl Error {
    /// The name of the error, as it is displayed.
    pub fn name(&self) -> (s: &'static str)
        ensures
            s@ == error_name(*self),
    {
        match self {
            Error::InvalidNumBlocks => "InvalidNumBlocks",
            Error::BlockRead => "BlockRead",
            Error::BlockWrite => "BlockWrite",
            Error::BlockDeviceFull => "BlockDeviceFull",
            Error::QueueFull => "QueueFull",
            Error::StatusPageFormat => "StatusPageFormat",
            Error::ItemSerialize => "ItemSerialize",
            Error::ItemSerializeSize => "ItemSerializeSize",
            Error::ItemDeserialize => "ItemDeserialize",
        }
    }
}

} // verus!
