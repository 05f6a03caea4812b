//! Core of a small teaching operating system kernel: process management with
//! round-robin scheduling, a virtual-memory model with frame recycling, keyed
//! counting semaphores, a syscall dispatcher, and a read-only FAT16 filesystem
//! over an MBR-partitioned block device.

use vstd::prelude::*;

pub mod blockdev;
pub mod bpb;
pub mod bytes;
pub mod direntry;
pub mod fat16;
pub mod input;
pub mod file;
pub mod filesystem;
pub mod mbr;
pub mod proc;
pub mod procvm;
pub mod resource;
pub mod sem;
pub mod strutil;
pub mod sync;
pub mod syscall;
pub mod utils;
pub mod vm;

verus! {

/// Errors returned by the filesystem layer.
#[derive(Debug, Clone, Copy, PartialEq, Eq, Structural)]
pub enum FsError {
    InvalidOperation,
    NotAFile,
    NotADirectory,
    FileNotFound,
    InvalidOffset,
    FilenameError(FilenameError),
}

/// Errors raised while parsing an 8.3 short filename.
#[derive(Debug, Clone, Copy, PartialEq, Eq, Structural)]
pub enum FilenameError {
    Empty,
    TooLong,
    InvalidCharacter,
    MisplacedPeriod,
}

} // verus!
