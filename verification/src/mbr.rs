//! The MBR partition table: four 16-byte records in the disk's first sector,
//! each naming a slice of the disk.

use vstd::prelude::*;

use crate::FsError;
use crate::blockdev::{Block, BlockDevice, Partition};
use crate::bytes::{spec_u32_le, u32_le};
use crate::strutil::bytes_at;

verus! {

/// One 16-byte partition record.
pub struct MbrPartition {
    data: Vec<u8>,
}

impl MbrPartition {
    /// The record's raw bytes.
    pub closed spec fn view(&self) -> Seq<u8> {
        self.data@
    }

    pub closed spec fn wf(&self) -> bool {
        self.data@.len() == 16
    }

    /// Whether the record's status byte carries the bootable bit.
    pub open spec fn spec_is_active(&self) -> bool {
        self@[0] & 0x80 != 0
    }

    /// The record's partition type byte; zero marks an empty record.
    pub open spec fn spec_type(&self) -> u8 {
        self@[4]
    }

    /// The first absolute sector of the partition.
    pub open spec fn spec_begin_lba(&self) -> u32 {
        spec_u32_le(self@, 8)
    }

    /// The number of sectors in the partition.
    pub open spec fn spec_total_lba(&self) -> u32 {
        spec_u32_le(self@, 12)
    }

    /// Takes one 16-byte record out of `data`.
    pub fn parse(data: &[u8]) -> (r: MbrPartition)
        requires
            data@.len() >= 16,
        ensures
            r@ == data@.subrange(0, 16),
            r.wf(),
    {
        MbrPartition { data: bytes_at(data, 0, 16) }
    }

    /// The status byte; `0x80` marks an active (bootable) partition.
    pub fn status(&self) -> (r: u8)
        requires
            self.wf(),
        ensures
            r == self@[0],
    {
        self.data[0]
    }

    /// Whether the bootable bit is set.
    pub fn is_active(&self) -> (r: bool)
        requires
            self.wf(),
        ensures
            r == self.spec_is_active(),
    {
        self.data[0] & 0x80 != 0
    }

    /// The partition type byte; zero marks an empty record.
    pub fn partition_type(&self) -> (r: u8)
        requires
            self.wf(),
        ensures
            r == self@[4],
    {
        self.data[4]
    }

    /// CHS begin: head.
    pub fn begin_head(&self) -> (r: u8)
        requires
            self.wf(),
        ensures
            r == self@[1],
    {
        self.data[1]
    }

    /// CHS begin: sector, the low six bits of byte 2.
    pub fn begin_sector(&self) -> (r: u8)
        requires
            self.wf(),
        ensures
            r == self@[2] & 0x3F,
    {
        self.data[2] & 0x3F
    }

    /// CHS begin: cylinder, ten bits spread over bytes 2 and 3.
    pub fn begin_cylinder(&self) -> (r: u16)
        requires
            self.wf(),
        ensures
            r == ((self@[2] & 0xC0) as u16) << 2 | self@[3] as u16,
    {
        ((self.data[2] & 0xC0) as u16) << 2u16 | self.data[3] as u16
    }

    /// CHS end: head.
    pub fn end_head(&self) -> (r: u8)
        requires
            self.wf(),
        ensures
            r == self@[5],
    {
        self.data[5]
    }

    /// CHS end: sector, the low six bits of byte 6.
    pub fn end_sector(&self) -> (r: u8)
        requires
            self.wf(),
        ensures
            r == self@[6] & 0x3F,
    {
        self.data[6] & 0x3F
    }

    /// CHS end: cylinder, ten bits spread over bytes 6 and 7.
    pub fn end_cylinder(&self) -> (r: u16)
        requires
            self.wf(),
        ensures
            r == ((self@[6] & 0xC0) as u16) << 2 | self@[7] as u16,
    {
        ((self.data[6] & 0xC0) as u16) << 2u16 | self.data[7] as u16
    }

    /// The first absolute sector of the partition.
    pub fn begin_lba(&self) -> (r: u32)
        requires
            self.wf(),
        ensures
            r == self.spec_begin_lba(),
    {
        u32_le(self.data.as_slice(), 8)
    }

    /// The number of sectors in the partition.
    pub fn total_lba(&self) -> (r: u32)
        requires
            self.wf(),
        ensures
            r == self.spec_total_lba(),
    {
        u32_le(self.data.as_slice(), 12)
    }
}

/// The records of `parts` with a nonzero partition type that fit on a
/// device of `count` blocks, in table order, as (first block, block count)
/// pairs.
pub open spec fn spec_selected_partitions(parts: Seq<MbrPartition>, count: int) -> Seq<(u32, u32)>
    decreases parts.len(),
{
    if parts.len() == 0 {
        Seq::empty()
    } else {
        let head: Seq<(u32, u32)> = if parts[0].spec_type() != 0 && parts[0].spec_begin_lba()
            + parts[0].spec_total_lba() <= count {
            seq![(parts[0].spec_begin_lba(), parts[0].spec_total_lba())]
        } else {
            Seq::empty()
        };
        head + spec_selected_partitions(parts.subrange(1, parts.len() as int), count)
    }
}

/// The partition table found in a disk's first sector: four records at fixed
/// offsets from `0x1BE`.
pub struct MbrTable<T: BlockDevice> {
    inner: T,
    partitions: Vec<MbrPartition>,
}

impl<T: BlockDevice> MbrTable<T> {
    pub closed spec fn spec_inner(&self) -> T {
        self.inner
    }

    pub closed spec fn spec_partitions(&self) -> Seq<MbrPartition> {
        self.partitions@
    }

    pub open spec fn wf(&self) -> bool {
        &&& self.spec_inner().wf()
        &&& self.spec_partitions().len() == 4
        &&& forall|i: int| 0 <= i < 4 ==> (#[trigger] self.spec_partitions()[i]).wf()
    }

    /// Reads the disk's first sector and takes the four partition records
    /// out of it; a disk without a first sector is rejected.
    pub fn parse(inner: T) -> (r: Result<MbrTable<T>, FsError>)
        requires
            inner.wf(),
        ensures
            match r {
                Ok(t) => {
                    &&& t.wf()
                    &&& t.spec_inner() == inner
                    &&& inner.spec_blocks().len() > 0
                    &&& forall|i: int|
                        0 <= i < 4 ==> (#[trigger] t.spec_partitions()[i])@
                            == inner.spec_blocks()[0].subrange(
                            0x1BE + i * 16,
                            0x1BE + i * 16 + 16,
                        )
                },
                Err(e) => inner.spec_blocks().len() == 0 && e == FsError::InvalidOffset,
            },
    {
        let mut block = Block::new();
        let res = inner.read_block(0, &mut block);
        if let Err(e) = res {
            return Err(e);
        }
        proof {
            inner.lemma_wf_blocks();
        }
        let mut partitions: Vec<MbrPartition> = Vec::new();
        let mut i: usize = 0;
        while i < 4
            invariant
                i <= 4,
                block.wf(),
                block@.len() == 512,
                block@ == inner.spec_blocks()[0],
                partitions@.len() == i,
                forall|j: int| 0 <= j < i ==> (#[trigger] partitions@[j]).wf(),
                forall|j: int| 0 <= j < i ==> (#[trigger] partitions@[j])@ == block@.subrange(
                    0x1BE + j * 16,
                    0x1BE + j * 16 + 16,
                ),
            decreases 4 - i,
        {
            let off = 0x1BE + i * 16;
            let part_data = block.slice_of(off, 16);
            let p = MbrPartition::parse(part_data.as_slice());
            assert(p@ =~= block@.subrange(0x1BE + i * 16, 0x1BE + i * 16 + 16));
            partitions.push(p);
            i = i + 1;
        }
        Ok(MbrTable { inner, partitions })
    }

    /// The disk slices named by the records with a nonzero partition type
    /// whose extent fits on the disk, in table order.
    pub fn partitions(&self) -> (r: Result<Vec<Partition<T>>, FsError>)
        requires
            self.wf(),
        ensures
            match r {
                Ok(parts) => {
                    let sel = spec_selected_partitions(
                        self.spec_partitions(),
                        self.spec_inner().spec_blocks().len() as int,
                    );
                    &&& parts@.len() == sel.len()
                    &&& forall|i: int|
                        0 <= i < sel.len() ==> {
                            &&& (#[trigger] parts@[i]).wf()
                            &&& parts@[i].spec_offset() == sel[i].0
                            &&& parts@[i].spec_size() == sel[i].1
                            &&& parts@[i].spec_blocks()
                                == self.spec_inner().spec_blocks().subrange(
                                sel[i].0 as int,
                                sel[i].0 + sel[i].1,
                            )
                        }
                },
                Err(_) => false,
            },
    {
        proof {
            self.inner.lemma_wf_blocks();
        }
        let ghost all = self.partitions@;
        let ghost count = self.inner.spec_blocks().len() as int;
        let mut parts: Vec<Partition<T>> = Vec::new();
        let total = self.block_count_of_inner();
        let mut i: usize = 0;
        while i < 4
            invariant
                i <= 4,
                self.wf(),
                all == self.partitions@,
                count == self.spec_inner().spec_blocks().len() as int,
                count <= usize::MAX,
                total == count,
                ({
                    let sel = spec_selected_partitions(all.subrange(0, i as int), count);
                    &&& parts@.len() == sel.len()
                    &&& forall|j: int|
                        0 <= j < sel.len() ==> {
                            &&& (#[trigger] parts@[j]).wf()
                            &&& parts@[j].spec_offset() == sel[j].0
                            &&& parts@[j].spec_size() == sel[j].1
                            &&& parts@[j].spec_blocks()
                                == self.spec_inner().spec_blocks().subrange(
                                sel[j].0 as int,
                                sel[j].0 + sel[j].1,
                            )
                        }
                }),
            decreases 4 - i,
        {
            let p = &self.partitions[i];
            let begin = p.begin_lba() as usize;
            let size = p.total_lba() as usize;
            if p.partition_type() != 0 && begin <= total && size <= total - begin {
                let slice = Partition::new(self.inner.duplicate(), begin, size);
                parts.push(slice);
            }
            proof {
                let prev = all.subrange(0, i as int);
                let cur = all.subrange(0, i + 1);
                assert(cur.drop_last() =~= prev);
                lemma_selected_push(cur, count);
            }
            i = i + 1;
        }
        proof {
            assert(all.subrange(0, 4) =~= all);
        }
        Ok(parts)
    }

    /// The size of the underlying device in blocks.
    fn block_count_of_inner(&self) -> (r: usize)
        requires
            self.wf(),
        ensures
            r == self.spec_inner().spec_blocks().len(),
    {
        proof {
            self.inner.lemma_wf_blocks();
        }
        match self.inner.block_count() {
            Ok(n) => n,
            Err(_) => {
                proof {
                    assert(false);
                }
                0
            },
        }
    }
}

/// Extending the scanned prefix by one record extends the selection by that
/// record's slice exactly when it is active and fits.
proof fn lemma_selected_push(parts: Seq<MbrPartition>, count: int)
    requires
        parts.len() > 0,
    ensures
        spec_selected_partitions(parts, count) == if parts.last().spec_type() != 0
            && parts.last().spec_begin_lba() + parts.last().spec_total_lba() <= count {
            spec_selected_partitions(parts.drop_last(), count) + seq![
                (parts.last().spec_begin_lba(), parts.last().spec_total_lba()),
            ]
        } else {
            spec_selected_partitions(parts.drop_last(), count)
        },
    decreases parts.len(),
{
    if parts.len() == 1 {
        assert(parts.drop_last() =~= Seq::empty());
        assert(parts.subrange(1, parts.len() as int) =~= Seq::<MbrPartition>::empty());
        assert(spec_selected_partitions(parts.drop_last(), count) =~= Seq::empty());
    } else {
        let tail = parts.subrange(1, parts.len() as int);
        lemma_selected_push(tail, count);
        assert(tail.last() == parts.last());
        assert(tail.drop_last() =~= parts.drop_last().subrange(
            1,
            parts.drop_last().len() as int,
        ));
        assert(parts.drop_last()[0] == parts[0]);
        if parts.last().spec_type() != 0 && parts.last().spec_begin_lba()
            + parts.last().spec_total_lba() <= count {
            assert(spec_selected_partitions(parts, count) =~= spec_selected_partitions(
                parts.drop_last(),
                count,
            ) + seq![(parts.last().spec_begin_lba(), parts.last().spec_total_lba())]);
        } else {
            assert(spec_selected_partitions(parts, count) =~= spec_selected_partitions(
                parts.drop_last(),
                count,
            ));
        }
    }
}


/// Record `i` of an MBR sector: sixteen bytes at `0x1BE + 16 * i`.
pub open spec fn spec_record(s0: Seq<u8>, i: int) -> Seq<u8> {
    s0.subrange(0x1BE + i * 16, 0x1BE + i * 16 + 16)
}

/// The first record of an MBR sector, from `i` on, whose bootable bit is
/// set and whose extent fits on a device of `count` blocks, as its (first
/// block, block count) pair.
pub open spec fn spec_sector_first_active(s0: Seq<u8>, count: int, i: int) -> Option<(u32, u32)>
    decreases 4 - i,
{
    if i < 0 || i >= 4 {
        None
    } else {
        let rec = spec_record(s0, i);
        if rec[0] & 0x80 != 0 && spec_u32_le(rec, 8) + spec_u32_le(rec, 12) <= count {
            Some((spec_u32_le(rec, 8), spec_u32_le(rec, 12)))
        } else {
            spec_sector_first_active(s0, count, i + 1)
        }
    }
}

impl<T: BlockDevice> MbrTable<T> {
    /// The first active record that fits on the disk: the one the
    /// filesystem mounts. The result names the slice as (first block,
    /// block count) on the sector the table was parsed from.
    pub fn first_active(&self) -> (r: Option<(u32, u32)>)
        requires
            self.wf(),
            forall|i: int|
                0 <= i < 4 ==> (#[trigger] self.spec_partitions()[i])@ == spec_record(
                    self.spec_inner().spec_blocks()[0],
                    i,
                ),
        ensures
            r == spec_sector_first_active(
                self.spec_inner().spec_blocks()[0],
                self.spec_inner().spec_blocks().len() as int,
                0,
            ),
    {
        proof {
            self.inner.lemma_wf_blocks();
        }
        let total = self.block_count_of_inner();
        let ghost s0 = self.spec_inner().spec_blocks()[0];
        let ghost count = self.spec_inner().spec_blocks().len() as int;
        let mut i: usize = 0;
        while i < 4
            invariant
                i <= 4,
                self.wf(),
                s0 == self.spec_inner().spec_blocks()[0],
                count == self.spec_inner().spec_blocks().len() as int,
                total == count,
                forall|j: int|
                    0 <= j < 4 ==> (#[trigger] self.spec_partitions()[j])@ == spec_record(s0, j),
                spec_sector_first_active(s0, count, 0) == spec_sector_first_active(
                    s0,
                    count,
                    i as int,
                ),
            decreases 4 - i,
        {
            let p = &self.partitions[i];
            let begin = p.begin_lba();
            let size = p.total_lba();
            let fits = begin as u64 + size as u64 <= total as u64;
            if p.is_active() && fits {
                proof {
                    assert(spec_record(s0, i as int)[0] == self.spec_partitions()[i as int]@[0]);
                }
                return Some((begin, size));
            }
            proof {
                assert(spec_record(s0, i as int) == self.spec_partitions()[i as int]@);
            }
            i = i + 1;
        }
        None
    }

    /// A second handle onto the table's underlying device.
    pub fn duplicate_device(&self) -> (r: T)
        requires
            self.wf(),
        ensures
            r.wf(),
            r.spec_blocks() == self.spec_inner().spec_blocks(),
    {
        self.inner.duplicate()
    }
}

/// When a first active record is found, its extent fits the device.
pub proof fn lemma_first_active_props(s0: Seq<u8>, count: int, i: int)
    ensures
        match spec_sector_first_active(s0, count, i) {
            Some((b, t)) => b + t <= count,
            None => true,
        },
    decreases 4 - i,
{
    if 0 <= i < 4 {
        let rec = spec_record(s0, i);
        if !(rec[0] & 0x80 != 0 && spec_u32_le(rec, 8) + spec_u32_le(rec, 12) <= count) {
            lemma_first_active_props(s0, count, i + 1);
        }
    }
}

/// A human-readable name for a partition type byte.
pub fn get_partition_type_name(partition_type: u8) -> (r: &'static str)
    ensures
        partition_type == 0x06 ==> r@ == "FAT16"@,
        partition_type == 0x00 ==> r@ == "Empty"@,
{
    match partition_type {
        0x00 => "Empty",
        0x01 => "FAT12",
        0x04 => "FAT16 <32M",
        0x05 => "Extended",
        0x06 => "FAT16",
        0x07 => "NTFS/HPFS",
        0x0B => "Win95 FAT32",
        0x0C => "Win95 FAT32 (LBA)",
        0x0E => "Win95 FAT16 (LBA)",
        0x0F => "Win95 Extended (LBA)",
        0x82 => "Linux swap",
        0x83 => "Linux",
        0x8E => "Linux LVM",
        0xFD => "Linux RAID",
        _ => "Unknown",
    }
}

} // verus!
