//! A fixed-capacity announcement buffer: records are claimed in contiguous
//! spans while the buffer is open, then sorted by hash prefix and split into
//! ranges of equal bucket id when it is locked.

pub mod ann_buf;
pub mod databuf;
pub mod ranges;
pub mod types;
