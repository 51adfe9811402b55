//! A log-structured store of keys and values, both byte strings.
//!
//! Writes go to a write-ahead log and to a write buffer that is sorted by
//! key. A flush writes the buffer as a segment file and empties the log. A
//! read asks the buffer, then the segments from the latest downwards, each by
//! its index. A compaction merges all segments into one.
//!
//! The store works on an image of its directory, a [`directory::Directory`],
//! which records every change made to it: whoever keeps the files on a disk
//! loads them into the image and carries the recorded changes out.
//!
//! What the store holds is the mathematical value [`state::State`]; the
//! functions of [`engine::Store`] are specified by its operations.
//!
//! The modules, from the bottom up:
//! - [`order`]: the byte-lexicographic order;
//! - [`byte_map`]: a sorted map keyed by byte strings;
//! - [`record`]: the layout of a record, and what a run of records holds;
//! - [`segment`]: the names of the files, and segment ids;
//! - [`directory`]: the image of the directory;
//! - [`mem_table`]: the entries of the write buffer;
//! - [`index`]: the indexes of the segments, and reading the log;
//! - [`writer`]: writing a segment with its index;
//! - [`state`]: what a store holds, and what follows from the operations;
//! - [`layout`]: how what a store holds lies in its files;
//! - [`engine`]: the store;
//! - [`command`], [`frame`], [`server`]: what clients ask, the frames of the
//!   wire protocol, and what the server does with a command.

pub mod byte_map;
pub mod command;
pub mod directory;
pub mod engine;
pub mod error;
pub mod frame;
pub mod index;
pub mod layout;
pub mod mem_table;
pub mod order;
pub mod record;
pub mod segment;
pub mod server;
pub mod state;
pub mod writer;
