//! A reader for CHM (Compiled HTML Help) archives.

pub mod acceptance;
pub mod archive;
pub mod bits;
pub mod bitstream;
pub mod canonical;
pub mod code_count;
pub mod code_place;
pub mod code_tree;
pub mod decompress;
pub mod directory;
pub mod directory_blocks;
pub mod e8;
pub mod encoding;
pub mod entry;
pub mod error;
pub mod format;
pub mod headers;
pub mod huffman;
pub mod le;
pub mod lens;
pub mod lookup;
pub mod lzx;
pub mod matches;
pub mod naming;
pub mod paths;
pub mod placement;
pub mod random_access;
pub mod refusals;
pub mod self_contained;
pub mod sent_blocks;
pub mod sent_frames;
pub mod sent_lengths;
pub mod stored;
pub mod tokens;
