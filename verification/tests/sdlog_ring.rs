use wetdet::sdlog::device::{Block, BlockIo, Error, Item, BLOCK_SIZE};
use wetdet::sdlog::ring::SdLog;

use std::cell::RefCell;
use std::rc::Rc;

/// A device in memory; clones share the blocks.
#[derive(Clone)]
struct RamDisk {
    blocks: Rc<RefCell<Vec<Block>>>,
    fail_writes: bool,
    no_count: bool,
}

impl RamDisk {
    fn new(n: usize) -> Self {
        RamDisk { blocks: Rc::new(RefCell::new(vec![[0u8; BLOCK_SIZE]; n])), fail_writes: false, no_count: false }
    }
}

impl BlockIo for RamDisk {
    type Error = ();

    fn num_blocks(&self) -> Result<u64, ()> {
        if self.no_count {
            return Err(());
        }
        Ok(self.blocks.borrow().len() as u64)
    }

    fn read_block(&mut self, index: u64) -> Result<Block, ()> {
        self.blocks.borrow().get(index as usize).copied().ok_or(())
    }

    fn write_block(&mut self, index: u64, block: Block) -> Result<(), ()> {
        if self.fail_writes {
            return Err(());
        }
        match self.blocks.borrow_mut().get_mut(index as usize) {
            Some(b) => {
                *b = block;
                Ok(())
            }
            None => Err(()),
        }
    }
}

#[derive(Clone, Debug, PartialEq)]
struct Rec(Vec<u8>);

impl Item for Rec {
    fn is_valid(&self) -> bool {
        self.0.first() != Some(&0xff)
    }

    fn max_size() -> usize {
        255
    }

    fn to_bytes(&self) -> Option<Vec<u8>> {
        Some(self.0.clone())
    }

    fn from_bytes(bytes: &[u8]) -> Option<Self> {
        Some(Rec(bytes.to_vec()))
    }
}

type Log = SdLog<RamDisk, Rec, 8>;

#[test]
fn fresh_device_is_empty() {
    let mut log = Log::new(RamDisk::new(1024)).unwrap();
    assert_eq!(log.get_read_block_index(), 0);
    assert_eq!(log.get_write_block_index(), 0);
    assert_eq!(log.get_num_blocks(), 1024);
    assert_eq!(log.pop_item().unwrap(), None);
}

#[test]
fn small_device_is_refused() {
    assert!(matches!(Log::new(RamDisk::new(1023)), Err(Error::InvalidNumBlocks)));
}

#[test]
fn items_come_back_in_order() {
    let mut log = Log::new(RamDisk::new(1024)).unwrap();
    for i in 0..5u8 {
        log.push_item(Rec(vec![i; (i as usize) + 1])).unwrap();
    }
    log.commit().unwrap();
    for i in 0..5u8 {
        assert_eq!(log.pop_item().unwrap(), Some(Rec(vec![i; (i as usize) + 1])));
    }
    assert_eq!(log.pop_item().unwrap(), None);
}

#[test]
fn queue_is_bounded() {
    let mut log = Log::new(RamDisk::new(1024)).unwrap();
    for i in 0..8u8 {
        log.push_item(Rec(vec![i])).unwrap();
    }
    assert_eq!(log.push_item(Rec(vec![9])), Err(Error::QueueFull));
}

#[test]
fn empty_and_oversized_records_are_refused() {
    let mut log = Log::new(RamDisk::new(1024)).unwrap();
    assert_eq!(log.write_item_bytes(&[]), Err(Error::ItemSerializeSize));
    // 1 byte of prefix + 255 bytes exceed the maximum of 255.
    assert_eq!(log.write_item_bytes(&[1u8; 255]), Err(Error::ItemSerializeSize));
    assert_eq!(log.write_item_bytes(&[1u8; 254]), Ok(()));
    assert_eq!(log.pop_item_bytes().unwrap(), Some(vec![1u8; 254]));
}

#[test]
fn records_cross_block_boundaries() {
    let mut log = Log::new(RamDisk::new(1024)).unwrap();
    let recs: Vec<Vec<u8>> = (0..20u8).map(|i| vec![i; 100]).collect();
    for r in &recs {
        log.write_item_bytes(r).unwrap();
    }
    // 20 records of 101 bytes: the writer is in the fourth block.
    assert_eq!(log.get_write_block_index(), 3);
    assert_eq!(log.get_write_byte_index(), (20 * 101 - 3 * 512) as u16);
    for r in &recs {
        assert_eq!(log.pop_item_bytes().unwrap().as_ref(), Some(r));
    }
    assert_eq!(log.get_read_block_index(), 3);
    assert_eq!(log.pop_item_bytes().unwrap(), None);
}

#[test]
fn committed_log_reopens_with_its_records() {
    let disk = RamDisk::new(1024);
    let mut log = Log::new(disk.clone()).unwrap();
    for i in 0..10u8 {
        log.write_item_bytes(&[i; 60]).unwrap();
    }
    assert_eq!(log.pop_item_bytes().unwrap(), Some(vec![0u8; 60]));
    log.commit().unwrap();
    let mut reopened = Log::new(disk).unwrap();
    for i in 1..10u8 {
        assert_eq!(reopened.pop_item_bytes().unwrap(), Some(vec![i; 60]));
    }
    assert_eq!(reopened.pop_item_bytes().unwrap(), None);
}

#[test]
fn uncommitted_positions_are_not_persisted() {
    let disk = RamDisk::new(1024);
    let mut log = Log::new(disk.clone()).unwrap();
    log.write_item_bytes(&[7u8; 10]).unwrap();
    log.commit().unwrap();
    assert_eq!(log.pop_item_bytes().unwrap(), Some(vec![7u8; 10]));
    // Not committed: opening again finds the record still unread.
    let mut reopened = Log::new(disk).unwrap();
    assert_eq!(reopened.pop_item_bytes().unwrap(), Some(vec![7u8; 10]));
}

#[test]
fn full_device_refuses_records() {
    let mut log = Log::new(RamDisk::new(1024)).unwrap();
    let capacity = (1024 - 16) * 512;
    let rec = [5u8; 254];
    let mut written = 0;
    loop {
        match log.write_item_bytes(&rec) {
            Ok(()) => written += 255,
            Err(e) => {
                assert_eq!(e, Error::BlockDeviceFull);
                break;
            }
        }
    }
    assert!(written <= capacity - 1);
    assert!(written + 255 > capacity - 1);
}

#[test]
fn invalid_items_are_reported() {
    let mut log = Log::new(RamDisk::new(1024)).unwrap();
    log.write_item_bytes(&[0xff, 1, 2]).unwrap();
    log.write_item_bytes(&[3]).unwrap();
    assert_eq!(log.pop_item(), Err(Error::ItemDeserialize));
    assert_eq!(log.pop_item(), Ok(Some(Rec(vec![3]))));
}

#[test]
fn write_errors_are_reported() {
    let mut disk = RamDisk::new(1024);
    disk.fail_writes = true;
    let mut log = Log::new(disk).unwrap();
    log.write_item_bytes(&[1u8; 10]).unwrap();
    assert_eq!(log.commit(), Err(Error::BlockWrite));
}

#[test]
fn error_names() {
    assert_eq!(Error::BlockDeviceFull.name(), "BlockDeviceFull");
    assert_eq!(Error::ItemDeserialize.name(), "ItemDeserialize");
}

#[test]
fn reader_ahead_in_the_writers_block() {
    let disk = RamDisk::new(1024);
    let mut log = Log::new(disk.clone()).unwrap();
    let rec = [9u8; 254];
    let mut written = 0;
    while log.write_item_bytes(&rec).is_ok() {
        written += 1;
    }
    for _ in 0..3 {
        assert_eq!(log.pop_item_bytes().unwrap(), Some(rec.to_vec()));
    }
    assert_eq!((log.get_read_block_index(), log.get_read_byte_index()), (1, 253));
    for _ in 0..3 {
        log.write_item_bytes(&rec).unwrap();
        written += 1;
    }
    // The writer came round into the reader's block, behind the reader.
    assert_eq!((log.get_write_block_index(), log.get_write_byte_index()), (1, 22));
    // Committing keeps the unread bytes of that block on the device.
    log.commit().unwrap();
    let mut reopened = Log::new(disk).unwrap();
    let mut popped = 3;
    while let Some(r) = log.pop_item_bytes().unwrap() {
        assert_eq!(r, rec.to_vec());
        popped += 1;
    }
    assert_eq!(popped, written);
    let mut popped_again = 3;
    while let Some(r) = reopened.pop_item_bytes().unwrap() {
        assert_eq!(r, rec.to_vec());
        popped_again += 1;
    }
    assert_eq!(popped_again, written);
}

#[test]
fn value_read_back_after_commit() {
    let disk = RamDisk::new(1024);
    let mut log = Log::new(disk.clone()).unwrap();
    let x = Rec(vec![4, 5, 6]);
    log.push_item(x.clone()).unwrap();
    log.commit().unwrap();
    assert_eq!(log.pop_item(), Ok(Some(x.clone())));
    assert_eq!(log.pop_item(), Ok(None));
    let mut reopened = Log::new(disk).unwrap();
    assert_eq!(reopened.pop_item(), Ok(Some(x)));
}

#[test]
fn unknown_block_count_is_refused() {
    let mut disk = RamDisk::new(1024);
    disk.no_count = true;
    assert!(matches!(Log::new(disk), Err(Error::InvalidNumBlocks)));
}

#[test]
fn flush_stops_at_the_value_that_does_not_fit() {
    let mut log = Log::new(RamDisk::new(1024)).unwrap();
    log.push_item(Rec(vec![1; 10])).unwrap();
    log.push_item(Rec(vec![])).unwrap();
    log.push_item(Rec(vec![3; 10])).unwrap();
    assert_eq!(log.flush_queue(), Err(Error::ItemSerializeSize));
    assert_eq!(log.get_write_byte_index(), 11);
    assert_eq!(log.pop_item(), Ok(Some(Rec(vec![1; 10]))));
    assert_eq!(log.pop_item(), Ok(None));
}

#[test]
fn failed_block_write_puts_the_record_back() {
    let mut disk = RamDisk::new(1024);
    disk.fail_writes = true;
    let mut log = Log::new(disk).unwrap();
    log.write_item_bytes(&[1u8; 254]).unwrap();
    log.write_item_bytes(&[2u8; 254]).unwrap();
    assert_eq!(log.get_write_byte_index(), 510);
    // The third record fills the block, whose write then fails: none of it
    // stays in the stream.
    assert_eq!(log.write_item_bytes(&[3u8; 254]), Err(Error::BlockWrite));
    assert_eq!((log.get_write_block_index(), log.get_write_byte_index()), (0, 510));
    assert_eq!(log.pop_item_bytes(), Ok(Some(vec![1u8; 254])));
    assert_eq!(log.pop_item_bytes(), Ok(Some(vec![2u8; 254])));
    assert_eq!(log.pop_item_bytes(), Ok(None));
    // Every failed attempt leaves the same state.
    assert_eq!(log.write_item_bytes(&[4u8; 1]), Err(Error::BlockWrite));
    assert_eq!((log.get_write_block_index(), log.get_write_byte_index()), (0, 510));
    assert_eq!(log.pop_item_bytes(), Ok(None));
}

#[test]
fn failed_flush_keeps_the_value_queued_once() {
    let mut disk = RamDisk::new(1024);
    disk.fail_writes = true;
    let mut log = Log::new(disk).unwrap();
    log.write_item_bytes(&[1u8; 254]).unwrap();
    log.write_item_bytes(&[2u8; 254]).unwrap();
    log.push_item(Rec(vec![3; 254])).unwrap();
    assert_eq!(log.flush_queue(), Err(Error::BlockWrite));
    assert_eq!(log.get_write_byte_index(), 510);
    assert_eq!(log.pop_item(), Ok(Some(Rec(vec![1; 254]))));
    assert_eq!(log.pop_item(), Ok(Some(Rec(vec![2; 254]))));
    assert_eq!(log.pop_item(), Ok(None));
}

#[test]
fn second_commit_changes_nothing() {
    let disk = RamDisk::new(1024);
    let mut log = Log::new(disk.clone()).unwrap();
    log.push_item(Rec(vec![5; 20])).unwrap();
    log.commit().unwrap();
    let before: Vec<Block> = disk.blocks.borrow().clone();
    let indices = (
        log.get_read_block_index(),
        log.get_read_byte_index(),
        log.get_write_block_index(),
        log.get_write_byte_index(),
    );
    log.commit().unwrap();
    assert!(*disk.blocks.borrow() == before);
    assert_eq!(
        (log.get_read_block_index(), log.get_read_byte_index(), log.get_write_block_index(), log.get_write_byte_index()),
        indices
    );
}

#[test]
fn commit_reports_the_value_that_does_not_fit() {
    let disk = RamDisk::new(1024);
    let mut log = Log::new(disk.clone()).unwrap();
    let rec = [9u8; 254];
    while log.write_item_bytes(&rec).is_ok() {}
    // Make room for exactly one more record.
    assert_eq!(log.pop_item_bytes(), Ok(Some(rec.to_vec())));
    let status = (disk.blocks.borrow()[0], disk.blocks.borrow()[1]);
    log.push_item(Rec(vec![1; 254])).unwrap();
    log.push_item(Rec(vec![2; 254])).unwrap();
    assert_eq!(log.commit(), Err(Error::BlockDeviceFull));
    assert_eq!((disk.blocks.borrow()[0], disk.blocks.borrow()[1]), status);
    // The first value was appended; the second is still queued.
    let mut last = None;
    while let Some(r) = log.pop_item().unwrap() {
        last = Some(r);
    }
    assert_eq!(last, Some(Rec(vec![1; 254])));
    log.commit().unwrap();
    assert_eq!(log.pop_item(), Ok(Some(Rec(vec![2; 254]))));
    assert_eq!(log.pop_item(), Ok(None));
}
