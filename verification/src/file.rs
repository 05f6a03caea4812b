//! A file handle: a directory entry, a byte cursor, and the volume it was
//! opened on; sequential reads cross cluster boundaries through the FAT.

use vstd::prelude::*;

use crate::FsError;
use crate::blockdev::BlockDevice;
use crate::direntry::DirEntry;
use crate::fat16::Fat16Impl;
use vstd::slice::SliceAdditionalExecFns;

verus! {

/// An open, read-only file.
pub struct File<T: BlockDevice> {
    offset: usize,
    entry: DirEntry,
    handle: Fat16Impl<T>,
}

impl<T: BlockDevice> File<T> {
    /// The current read position.
    pub closed spec fn spec_offset(&self) -> usize {
        self.offset
    }

    /// The directory entry the file was opened from.
    pub closed spec fn spec_entry(&self) -> DirEntry {
        self.entry
    }

    /// The volume the file lives on.
    pub closed spec fn spec_handle(&self) -> Fat16Impl<T> {
        self.handle
    }

    /// An open file's cursor never passes the end of the file.
    pub open spec fn wf(&self) -> bool {
        &&& self.spec_handle().wf()
        &&& self.spec_entry().wf()
        &&& self.spec_offset() <= self.spec_entry()@.size
    }

    /// Opens the file named by `entry` on the given volume, with the cursor
    /// at the start.
    pub fn new(handle: Fat16Impl<T>, entry: DirEntry) -> (r: File<T>)
        requires
            handle.wf(),
            entry.wf(),
        ensures
            r.wf(),
            r.spec_offset() == 0,
            r.spec_entry() == entry,
            r.spec_handle() == handle,
    {
        File { offset: 0, entry, handle }
    }

    /// The file's length in bytes.
    pub fn length(&self) -> (r: usize)
        ensures
            r == self.spec_entry()@.size as usize,
    {
        self.entry.size as usize
    }

    /// Reads up to `buf.len()` bytes at the cursor and advances it. The
    /// cursor stops at the end of the file: a read at the end returns zero
    /// bytes, and a read that reaches it returns exactly the bytes left.
    /// On a volume whose chain holds the whole file, the bytes read are the
    /// file's bytes at the old cursor.
    pub fn read(&mut self, buf: &mut [u8]) -> (r: Result<usize, FsError>)
        requires
            old(self).wf(),
        ensures
            final(self).wf(),
            final(self).spec_entry() == old(self).spec_entry(),
            final(self).spec_handle() == old(self).spec_handle(),
            final(buf)@.len() == old(buf)@.len(),
            (old(self).spec_offset() == old(self).spec_entry()@.size || old(buf)@.len() == 0)
                ==> r == Ok::<usize, FsError>(0) && *final(self) == *old(self) && final(buf)@
                == old(buf)@,
            ({
                let fs = old(self).spec_handle();
                let c = old(self).spec_entry()@.cluster;
                let size = old(self).spec_entry()@.size as int;
                let off0 = old(self).spec_offset() as int;
                let want = vstd::math::min(old(buf)@.len() as int, size - off0);
                match r {
                    Ok(n) => {
                        &&& n <= want
                        &&& (off0 == size ==> n == 0)
                        &&& final(self).spec_offset() == off0 + n
                        &&& (forall|j: int|
                            n <= j < old(buf)@.len() ==> final(buf)@[j] == old(buf)@[j])
                        &&& (fs.spec_file_ok(c, size as nat) ==> n == want && (forall|j: int|
                            0 <= j < n ==> final(buf)@[j] == fs.spec_file_bytes(c, size as nat)[off0
                                + j]))
                    },
                    Err(e) => {
                        &&& *final(self) == *old(self)
                        &&& final(buf)@ == old(buf)@
                        &&& !fs.spec_file_ok(c, size as nat)
                        &&& (e == FsError::InvalidOperation || e == FsError::InvalidOffset)
                    },
                }
            }),
    {
        let size = self.entry.size as usize;
        let remaining = size - self.offset;
        let len = buf.len();
        let want = if len < remaining {
            len
        } else {
            remaining
        };
        if want == 0 {
            return Ok(0);
        }
        let c = self.entry.cluster.0;
        if !(c >= 2 && c < 0xFFF0) {
            return Err(FsError::InvalidOperation);
        }
        let cs = self.handle.cluster_size();
        assert(size / cs <= size / 512) by (nonlinear_arith)
            requires
                cs >= 512,
                size >= 0,
        ;
        let k0 = size / cs + if size % cs == 0 {
            0
        } else {
            1
        };
        let k = if k0 > crate::fat16::CHAIN_CAP {
            crate::fat16::CHAIN_CAP
        } else {
            k0
        };
        let content = match self.handle.read_chain_bytes(c as u16, k) {
            Ok(v) => v,
            Err(e) => {
                proof {
                    assert(!self.handle.spec_chain_ok(
                        c as u16,
                        self.handle.spec_file_k(size as nat) as nat,
                    ));
                }
                return Err(e);
            },
        };
        let avail = if content.len() > self.offset {
            content.len() - self.offset
        } else {
            0
        };
        let n = if want < avail {
            want
        } else {
            avail
        };
        let ghost content0 = content@;
        crate::fat16::copy_window(&content, self.offset, n, buf);
        proof {
            let fs = self.handle;
            if fs.spec_file_ok(self.entry@.cluster, size as nat) {
                assert(content0.len() >= size);
                assert(avail >= remaining);
                assert(n == want);
                assert(forall|j: int|
                    0 <= j < n ==> fs.spec_file_bytes(self.entry@.cluster, size as nat)[
                    self.offset + j] == #[trigger] content0[self.offset + j]);
            }
        }
        self.offset = self.offset + n;
        Ok(n)
    }
}

} // verus!
