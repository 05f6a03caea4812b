//! Mounting the root filesystem: the disk's partition table is read, the
//! first active partition becomes the volume, and directories can be
//! listed as metadata.

use vstd::prelude::*;

use crate::FsError;
use crate::blockdev::{BlockDevice, Partition};
use crate::direntry::{Cluster, Metadata, CLUSTER_ROOT_DIR};
use crate::fat16::Fat16Impl;
use crate::mbr::MbrTable;

verus! {

/// Whether an MBR sector's bytes name no mountable volume: either no
/// active record fits the disk, or the named slice is empty, or its first
/// sector is not a FAT16 boot sector the library accepts.
pub open spec fn spec_no_volume(disk: Seq<Seq<u8>>) -> bool {
    match crate::mbr::spec_sector_first_active(disk[0], disk.len() as int, 0) {
        None => true,
        Some((b, t)) => t == 0 || {
            let s0 = disk[b as int];
            ||| crate::bytes::spec_u16_le(s0, 0x1FE) != 0xAA55
            ||| crate::bytes::spec_u16_le(s0, 0x0B) != 512
            ||| s0[0x0D] == 0
        },
    }
}

/// Mounts the root filesystem of a disk: the MBR is parsed, the first
/// active fitting partition taken, and a FAT16 volume opened on it.
/// Mounting succeeds exactly when the disk has a first sector, an active
/// record names a nonempty slice on the disk, and that slice starts with a
/// FAT16 boot sector the library accepts; the volume that comes back is
/// that slice.
pub fn init<T: BlockDevice>(drive: T) -> (r: Result<Fat16Impl<Partition<T>>, FsError>)
    requires
        drive.wf(),
    ensures
        match r {
            Ok(fs) => {
                let sel = crate::mbr::spec_sector_first_active(
                    drive.spec_blocks()[0],
                    drive.spec_blocks().len() as int,
                    0,
                );
                &&& fs.wf()
                &&& drive.spec_blocks().len() > 0
                &&& sel is Some
                &&& fs.spec_disk() == drive.spec_blocks().subrange(
                    sel->Some_0.0 as int,
                    sel->Some_0.0 + sel->Some_0.1,
                )
                &&& fs.spec_bpb() == drive.spec_blocks()[sel->Some_0.0 as int]
            },
            Err(e) => {
                ||| (drive.spec_blocks().len() == 0 && e == FsError::InvalidOffset)
                ||| (drive.spec_blocks().len() > 0 && spec_no_volume(drive.spec_blocks()) && (e
                    == FsError::InvalidOperation || e == FsError::InvalidOffset))
            },
        },
{
    let ghost disk = drive.spec_blocks();
    let table = match MbrTable::parse(drive) {
        Ok(t) => t,
        Err(e) => {
            return Err(e);
        },
    };
    let sel = match table.first_active() {
        Some(s) => s,
        None => {
            return Err(FsError::InvalidOperation);
        },
    };
    let (begin, total) = sel;
    proof {
        table.spec_inner().lemma_wf_blocks();
        crate::mbr::lemma_first_active_props(disk[0], disk.len() as int, 0);
    }
    let dev = table.duplicate_device();
    let part = Partition::new(dev, begin as usize, total as usize);
    let r = Fat16Impl::new(part);
    proof {
        if total == 0 {
            assert(spec_no_volume(disk));
        } else {
            assert(disk.subrange(begin as int, begin as int + total as int)[0] == disk[
                begin as int]);
        }
    }
    match r {
        Ok(fs) => Ok(fs),
        Err(e) => Err(e),
    }
}

/// Lists a directory: the root for `/` or an empty path, else the
/// directory the path names; a path naming a file is refused.
pub fn ls<T: BlockDevice>(fs: &Fat16Impl<T>, path: &str) -> (r: Result<Vec<Metadata>, FsError>)
    requires
        fs.wf(),
    ensures
        path@.len() == 0 ==> match r {
            Ok(ms) => {
                &&& fs.spec_dir_ok(CLUSTER_ROOT_DIR)
                &&& ms@.len() == fs.spec_dir_entries(CLUSTER_ROOT_DIR).len()
                &&& forall|i: int|
                    0 <= i < ms@.len() ==> (#[trigger] ms@[i]).len == fs.spec_dir_entries(
                        CLUSTER_ROOT_DIR,
                    )[i].size as usize
            },
            Err(e) => !fs.spec_dir_ok(CLUSTER_ROOT_DIR) && e == fs.spec_dir_err(
                CLUSTER_ROOT_DIR,
            ),
        },
{
    let cluster = if path.len() == 0 {
        Cluster(CLUSTER_ROOT_DIR)
    } else {
        match fs.find_path(path) {
            Ok(Some(e)) => {
                if e.is_directory() {
                    if e.cluster.0 != CLUSTER_ROOT_DIR && e.cluster.0 >= 0x10000 {
                        return Err(FsError::InvalidOperation);
                    }
                    e.cluster
                } else {
                    return Err(FsError::NotADirectory);
                }
            },
            Ok(None) => {
                if path.len() == 1 {
                    Cluster(CLUSTER_ROOT_DIR)
                } else {
                    return Err(FsError::NotADirectory);
                }
            },
            Err(e) => {
                return Err(e);
            },
        }
    };
    let entries = match fs.read_dir_entries(&cluster) {
        Ok(es) => es,
        Err(e) => {
            return Err(e);
        },
    };
    let mut metas: Vec<Metadata> = Vec::new();
    let n = entries.len();
    let mut i: usize = 0;
    while i < n
        invariant
            i <= n == entries@.len(),
            metas@.len() == i,
            forall|k: int| 0 <= k < entries@.len() ==> (#[trigger] entries@[k]).wf(),
            forall|k: int|
                0 <= k < i ==> (#[trigger] metas@[k]).len == entries@[k]@.size as usize,
        decreases n - i,
    {
        metas.push(entries[i].as_meta());
        i = i + 1;
    }
    proof {
        if path@.len() == 0 {
            assert(crate::fat16::spec_entries_view(entries@) == fs.spec_dir_entries(
                CLUSTER_ROOT_DIR,
            ));
            assert forall|k: int| 0 <= k < metas@.len() implies (#[trigger] metas@[k]).len
                == fs.spec_dir_entries(CLUSTER_ROOT_DIR)[k].size as usize by {
                assert(fs.spec_dir_entries(CLUSTER_ROOT_DIR)[k] == entries@[k]@);
            }
        }
    }
    Ok(metas)
}

} // verus!
