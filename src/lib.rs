//! Reading side of prefix-compressed, sorted key/value blocks: the header
//! codec, a checked block container, the versioned key order and a seekable
//! cursor over a block.

pub mod buffer;
pub mod comparator;
pub mod block;
pub mod block_iterator;
