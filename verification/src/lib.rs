//! Decoder for the exFAT on-disk format: boot-sector geometry, FAT
//! cluster chains, packed timestamps, directory-entry sets, and the
//! recursive tree walk that turns a raw volume into a file index.

pub mod chain;
pub mod dirent;
pub mod fat;
pub mod geometry;
pub mod lebytes;
pub mod model;
pub mod text;
pub mod timestamp;
pub mod util;
pub mod walk;
