//! A ring-buffer log of length-prefixed records stored on a block device.

pub mod le;
pub mod status;
pub mod device;
pub mod wrbuf;
pub mod ring;
