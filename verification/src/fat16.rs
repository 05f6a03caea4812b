//! The FAT16 volume: geometry derived from the boot parameter block, FAT
//! chain traversal, directory scanning and path resolution, all stated
//! against the block device's contents.

use vstd::prelude::*;

use crate::FsError;
use crate::blockdev::{Block, BlockDevice};
use crate::bpb::Fat16Bpb;
use crate::bytes::{spec_u16_le, u16_le};
use crate::direntry::{
    Cluster, DirEntry, CLUSTER_ROOT_DIR, spec_parse_datetime, spec_parse_sfn, ShortFileName,
};
use crate::direntry::FsTime;
use vstd::string::StringSliceAdditionalSpecFns;
use vstd::slice::SliceAdditionalExecFns;

verus! {

/// The longest cluster chain the library will follow: FAT16 cluster numbers
/// are 16 bits wide, so a longer chain must revisit a cluster.
pub const CHAIN_CAP: usize = 0x10000;

/// What one directory record denotes, as plain values.
pub ghost struct DirEntryV {
    pub name: Seq<u8>,
    pub ext: Seq<u8>,
    pub attributes: u8,
    pub created: FsTime,
    pub accessed: FsTime,
    pub modified: FsTime,
    pub cluster: u32,
    pub size: u32,
}

impl View for DirEntry {
    type V = DirEntryV;

    open spec fn view(&self) -> DirEntryV {
        DirEntryV {
            name: self.filename.name@,
            ext: self.filename.ext@,
            attributes: self.attributes.spec_bits(),
            created: self.created_time,
            accessed: self.accessed_time,
            modified: self.modified_time,
            cluster: self.cluster.0,
            size: self.size,
        }
    }
}

/// The entry denoted by one 32-byte directory record.
pub open spec fn spec_record_entry(rec: Seq<u8>) -> DirEntryV {
    DirEntryV {
        name: rec.subrange(0, 8),
        ext: rec.subrange(8, 11),
        attributes: rec[11] & 0x3F,
        created: spec_parse_datetime(spec_u16_le(rec, 16), spec_u16_le(rec, 14)),
        accessed: spec_parse_datetime(spec_u16_le(rec, 18), 0),
        modified: spec_parse_datetime(spec_u16_le(rec, 24), spec_u16_le(rec, 22)),
        cluster: ((spec_u16_le(rec, 20) as u32) << 16) | (spec_u16_le(rec, 26) as u32),
        size: crate::bytes::spec_u32_le(rec, 28),
    }
}

/// Whether a directory record is listed: not deleted and not part of a
/// long-filename run.
pub open spec fn spec_keep_record(rec: Seq<u8>) -> bool {
    rec[0] != 0xE5 && (rec[11] & 0x3F) & 0x0F != 0x0F
}

/// The entries of a directory byte stream from offset `i` on: records are 32
/// bytes; a record starting with a zero byte ends the directory; deleted and
/// long-filename records are skipped.
pub open spec fn spec_scan_from(bytes: Seq<u8>, i: int) -> Seq<DirEntryV>
    decreases bytes.len() - i,
{
    if i < 0 || i + 32 > bytes.len() {
        Seq::empty()
    } else {
        let rec = bytes.subrange(i, i + 32);
        if rec[0] == 0x00 {
            Seq::empty()
        } else if spec_keep_record(rec) {
            seq![spec_record_entry(rec)] + spec_scan_from(bytes, i + 32)
        } else {
            spec_scan_from(bytes, i + 32)
        }
    }
}

/// The views of a sequence of parsed entries.
pub open spec fn spec_entries_view(s: Seq<DirEntry>) -> Seq<DirEntryV> {
    s.map_values(|e: DirEntry| e@)
}

/// A FAT16 filesystem over a block device.
pub struct Fat16Impl<T: BlockDevice> {
    bpb: Fat16Bpb,
    inner: T,
    fat_start: usize,
    first_root_dir_sector: usize,
    first_data_sector: usize,
    root_dir_sectors: usize,
}

impl<T: BlockDevice> Fat16Impl<T> {
    /// The device contents the volume is read from.
    pub closed spec fn spec_disk(&self) -> Seq<Seq<u8>> {
        self.inner.spec_blocks()
    }

    /// The volume's boot sector bytes.
    pub closed spec fn spec_bpb(&self) -> Seq<u8> {
        self.bpb@
    }

    pub closed spec fn spec_fat_start(&self) -> int {
        self.fat_start as int
    }

    pub closed spec fn spec_first_root_dir_sector(&self) -> int {
        self.first_root_dir_sector as int
    }

    pub closed spec fn spec_first_data_sector(&self) -> int {
        self.first_data_sector as int
    }

    pub closed spec fn spec_root_dir_sectors(&self) -> int {
        self.root_dir_sectors as int
    }

    /// Sectors per cluster.
    pub open spec fn spec_spc(&self) -> int {
        self.spec_bpb()[0x0D] as int
    }

    /// Bytes per cluster.
    pub open spec fn spec_cluster_size(&self) -> int {
        self.spec_spc() * 512
    }

    /// The mounted volume's invariant: the device and boot sector are well
    /// formed, the volume uses 512-byte sectors and nonempty clusters, and
    /// the derived sector numbers follow the boot sector's fields.
    pub open spec fn wf(&self) -> bool {
        &&& self.spec_bpb().len() == 512
        &&& self.inner_wf()
        &&& spec_u16_le(self.spec_bpb(), 0x0B) == 512
        &&& self.spec_bpb()[0x0D] != 0
        &&& self.spec_fat_start() == spec_u16_le(self.spec_bpb(), 0x0E)
        &&& self.spec_root_dir_sectors() == (spec_u16_le(self.spec_bpb(), 0x11) * 32 + 511) / 512
        &&& self.spec_first_root_dir_sector() == self.spec_fat_start() + self.spec_bpb()[0x10]
            * spec_u16_le(self.spec_bpb(), 0x16)
        &&& self.spec_first_data_sector() == self.spec_first_root_dir_sector()
            + self.spec_root_dir_sectors()
        &&& self.spec_first_data_sector() <= 0x1000_0000
    }

    /// The underlying device's own invariant, kept opaque so that `wf` can
    /// name it.
    pub closed spec fn inner_wf(&self) -> bool {
        &&& self.inner.wf()
        &&& self.bpb.wf()
    }

    /// Every sector of the device holds 512 bytes, and the device is small
    /// enough to index.
    pub proof fn lemma_disk_wf(&self)
        requires
            self.wf(),
        ensures
            forall|i: int| 0 <= i < self.spec_disk().len() ==> self.spec_disk()[i].len() == 512,
            self.spec_disk().len() <= usize::MAX,
    {
        self.inner.lemma_wf_blocks();
    }

    /// Mounts the volume: reads sector 0, parses the boot parameter block,
    /// and derives the FAT, root directory and data region sector numbers.
    /// A disk without a first sector, a bad boot sector signature, a sector
    /// size other than 512 or an empty cluster size is rejected.
    pub fn new(inner: T) -> (r: Result<Fat16Impl<T>, FsError>)
        requires
            inner.wf(),
        ensures
            match r {
                Ok(fs) => {
                    &&& fs.wf()
                    &&& fs.spec_disk() == inner.spec_blocks()
                    &&& inner.spec_blocks().len() > 0
                    &&& fs.spec_bpb() == inner.spec_blocks()[0]
                },
                Err(e) => {
                    ||| inner.spec_blocks().len() == 0 && e == FsError::InvalidOffset
                    ||| inner.spec_blocks().len() > 0 && e == FsError::InvalidOperation && {
                        let s0 = inner.spec_blocks()[0];
                        ||| spec_u16_le(s0, 0x1FE) != 0xAA55
                        ||| spec_u16_le(s0, 0x0B) != 512
                        ||| s0[0x0D] == 0
                    }
                },
            },
    {
        proof {
            inner.lemma_wf_blocks();
        }
        let mut block = Block::new();
        if let Err(e) = inner.read_block(0, &mut block) {
            return Err(e);
        }
        let bpb = match Fat16Bpb::new(block.as_slice()) {
            Ok(b) => b,
            Err(e) => {
                return Err(e);
            },
        };
        if bpb.bytes_per_sector() != 512 || bpb.sectors_per_cluster() == 0 {
            return Err(FsError::InvalidOperation);
        }
        let fat_start = bpb.reserved_sector_count() as usize;
        let root_entries = bpb.root_entries_count() as usize;
        let root_dir_sectors = (root_entries * 32 + 511) / 512;
        let fat_count = bpb.fat_count() as usize;
        let sectors_per_fat = bpb.sectors_per_fat() as usize;
        assert(fat_count * sectors_per_fat <= 255 * 65535) by (nonlinear_arith)
            requires
                fat_count <= 255,
                sectors_per_fat <= 65535,
        ;
        let first_root_dir_sector = fat_start + fat_count * sectors_per_fat;
        let first_data_sector = first_root_dir_sector + root_dir_sectors;
        Ok(
            Fat16Impl {
                bpb,
                inner,
                fat_start,
                first_root_dir_sector,
                first_data_sector,
                root_dir_sectors,
            },
        )
    }

    /// The first sector of a cluster: the magic root directory value maps to
    /// the root directory region, cluster numbers below 2 are invalid and
    /// pinned to the start of the data region.
    pub open spec fn spec_cluster_to_sector(&self, c: u32) -> int {
        if c == CLUSTER_ROOT_DIR {
            self.spec_first_root_dir_sector()
        } else if c < 2 {
            self.spec_first_data_sector()
        } else {
            (c - 2) * self.spec_spc() + self.spec_first_data_sector()
        }
    }

    /// Maps a cluster number to its first sector. FAT16 cluster numbers fit
    /// in 16 bits; only the root directory's magic value lies above them.
    pub fn cluster_to_sector(&self, cluster: &Cluster) -> (r: usize)
        requires
            self.wf(),
            cluster.0 == CLUSTER_ROOT_DIR || cluster.0 < 0x10000,
        ensures
            r == self.spec_cluster_to_sector(cluster.0),
    {
        if cluster.0 == CLUSTER_ROOT_DIR {
            self.first_root_dir_sector
        } else if cluster.0 < 2 {
            self.first_data_sector
        } else {
            let c = (cluster.0 - 2) as usize;
            let spc = self.bpb.sectors_per_cluster() as usize;
            assert(c * spc <= 0xFFFF * 255) by (nonlinear_arith)
                requires
                    c <= 0xFFFF,
                    spc <= 255,
            ;
            c * spc + self.first_data_sector
        }
    }

    /// The sector of the FAT that holds cluster `c`'s entry.
    pub open spec fn spec_fat_sector(&self, c: u16) -> int {
        self.spec_fat_start() + c / 256
    }

    /// Cluster `c`'s 16-bit FAT entry.
    pub open spec fn spec_fat_entry(&self, c: u16) -> u16 {
        spec_u16_le(self.spec_disk()[self.spec_fat_sector(c)], 2 * ((c % 256) as int))
    }

    /// The cluster after `c` in its chain, if any: FAT entries of zero and
    /// `0xFFF8..=0xFFFF` end the chain.
    pub open spec fn spec_next_cluster(&self, c: u16) -> Option<u16> {
        let e = self.spec_fat_entry(c);
        if e == 0 || e >= 0xFFF8 {
            None
        } else {
            Some(e)
        }
    }

    /// Reads the FAT entry of cluster `c` and interprets it: `Some` of the
    /// next cluster, `None` at the end of the chain. Fails exactly when the
    /// FAT sector lies beyond the device.
    pub fn get_next_cluster(&self, cluster: u16) -> (r: Result<Option<u16>, FsError>)
        requires
            self.wf(),
        ensures
            match r {
                Ok(next) => self.spec_fat_sector(cluster) < self.spec_disk().len() && next
                    == self.spec_next_cluster(cluster),
                Err(e) => self.spec_fat_sector(cluster) >= self.spec_disk().len() && e
                    == FsError::InvalidOffset,
            },
    {
        proof {
            self.lemma_disk_wf();
        }
        let sector_offset = (cluster / 256) as usize;
        let byte_offset = ((cluster % 256) as usize) * 2;
        let mut block = Block::new();
        if let Err(e) = self.inner.read_block(self.fat_start + sector_offset, &mut block) {
            return Err(e);
        }
        let fat_entry = u16_le(block.as_slice(), byte_offset);
        if fat_entry == 0 || fat_entry >= 0xFFF8 {
            Ok(None)
        } else {
            Ok(Some(fat_entry))
        }
    }

    /// The bytes of `n` consecutive sectors starting at `start`.
    pub open spec fn spec_sectors(&self, start: int, n: nat) -> Seq<u8>
        decreases n,
    {
        if n == 0 {
            Seq::empty()
        } else {
            self.spec_sectors(start, (n - 1) as nat) + self.spec_disk()[start + n - 1]
        }
    }

    /// Reads `n` consecutive sectors starting at `start`. Fails exactly when
    /// the run leaves the device.
    fn read_sectors(&self, start: usize, n: usize) -> (r: Result<Vec<u8>, FsError>)
        requires
            self.wf(),
            n <= 0x1000_0000,
        ensures
            match r {
                Ok(v) => (n == 0 || start + n <= self.spec_disk().len()) && v@
                    == self.spec_sectors(start as int, n as nat) && v@.len() == 512 * n,
                Err(e) => n > 0 && start + n > self.spec_disk().len() && e
                    == FsError::InvalidOffset,
            },
    {
        proof {
            self.lemma_disk_wf();
        }
        let mut out: Vec<u8> = Vec::new();
        let mut i: usize = 0;
        let mut block = Block::new();
        while i < n
            invariant
                i <= n <= 0x1000_0000,
                self.wf(),
                block.wf(),
                i > 0 ==> start + i <= self.spec_disk().len(),
                out@ == self.spec_sectors(start as int, i as nat),
                out@.len() == 512 * i,
                forall|j: int| 0 <= j < self.spec_disk().len() ==> self.spec_disk()[j].len()
                    == 512,
                self.spec_disk().len() <= usize::MAX,
            decreases n - i,
        {
            if let Err(e) = self.inner.read_block(start + i, &mut block) {
                proof {
                    assert(start + i >= self.spec_disk().len());
                }
                return Err(e);
            }
            let mut piece = block.slice_of(0, 512);
            out.append(&mut piece);
            assert(out@ == self.spec_sectors(start as int, (i + 1) as nat));
            i = i + 1;
        }
        Ok(out)
    }

    /// The bytes of cluster `c`: its sectors in order.
    pub open spec fn spec_cluster_data(&self, c: u16) -> Seq<u8> {
        self.spec_sectors(self.spec_cluster_to_sector(c as u32), self.spec_spc() as nat)
    }

    /// The bytes of the chain starting at cluster `c`, following FAT entries
    /// for at most `fuel` clusters.
    pub open spec fn spec_chain_bytes(&self, c: u16, fuel: nat) -> Seq<u8>
        decreases fuel,
    {
        if fuel == 0 {
            Seq::empty()
        } else {
            self.spec_cluster_data(c) + match self.spec_next_cluster(c) {
                Some(n) => self.spec_chain_bytes(n, (fuel - 1) as nat),
                None => Seq::empty(),
            }
        }
    }

    /// Whether every sector the chain walk touches, for at most `fuel`
    /// clusters, lies on the device.
    pub open spec fn spec_chain_ok(&self, c: u16, fuel: nat) -> bool
        decreases fuel,
    {
        fuel == 0 || {
            &&& self.spec_cluster_to_sector(c as u32) + self.spec_spc() <= self.spec_disk().len()
            &&& self.spec_fat_sector(c) < self.spec_disk().len()
            &&& match self.spec_next_cluster(c) {
                Some(n) => self.spec_chain_ok(n, (fuel - 1) as nat),
                None => true,
            }
        }
    }

    /// Reads the bytes of the chain starting at cluster `c`, following FAT
    /// entries for at most `max_clusters` clusters. Succeeds exactly when
    /// every sector touched lies on the device.
    #[verifier::rlimit(50)]
    pub(crate) fn read_chain_bytes(&self, c: u16, max_clusters: usize) -> (r: Result<Vec<u8>, FsError>)
        requires
            self.wf(),
            max_clusters <= 0x10000,
        ensures
            match r {
                Ok(v) => self.spec_chain_ok(c, max_clusters as nat) && v@ == self.spec_chain_bytes(
                    c,
                    max_clusters as nat,
                ),
                Err(e) => !self.spec_chain_ok(c, max_clusters as nat) && e
                    == FsError::InvalidOffset,
            },
    {
        let ghost c0 = c;
        let ghost max = max_clusters as nat;
        let mut out: Vec<u8> = Vec::new();
        let mut cur: u16 = c;
        let mut fuel: usize = max_clusters;
        proof {
            self.lemma_disk_wf();
        }
        while fuel > 0
            invariant
                self.wf(),
                fuel <= max_clusters <= 0x10000,
                max == max_clusters as nat,
                c0 == c,
                self.spec_chain_bytes(c0, max) == out@ + self.spec_chain_bytes(cur, fuel as nat),
                self.spec_chain_ok(c0, max) == self.spec_chain_ok(cur, fuel as nat),
                forall|j: int| 0 <= j < self.spec_disk().len() ==> self.spec_disk()[j].len()
                    == 512,
                self.spec_disk().len() <= usize::MAX,
            decreases fuel,
        {
            let sector = self.cluster_to_sector(&Cluster(cur as u32));
            let spc = self.bpb.sectors_per_cluster() as usize;
            let mut data = match self.read_sectors(sector, spc) {
                Ok(d) => d,
                Err(_) => {
                    proof {
                        assert(!self.spec_chain_ok(cur, fuel as nat));
                    }
                    return Err(FsError::InvalidOffset);
                },
            };
            let ghost out_before = out@;
            out.append(&mut data);
            let next = match self.get_next_cluster(cur) {
                Ok(n) => n,
                Err(_) => {
                    proof {
                        assert(!self.spec_chain_ok(cur, fuel as nat));
                    }
                    return Err(FsError::InvalidOffset);
                },
            };
            proof {
                assert(self.spec_chain_bytes(cur, fuel as nat) == self.spec_cluster_data(cur)
                    + match self.spec_next_cluster(cur) {
                    Some(n) => self.spec_chain_bytes(n, (fuel - 1) as nat),
                    None => Seq::<u8>::empty(),
                });
            }
            match next {
                Some(n) => {
                    proof {
                        assert(out_before + self.spec_chain_bytes(cur, fuel as nat) =~= out@
                            + self.spec_chain_bytes(n, (fuel - 1) as nat));
                        assert(self.spec_chain_ok(cur, fuel as nat) == self.spec_chain_ok(
                            n,
                            (fuel - 1) as nat,
                        ));
                    }
                    cur = n;
                    fuel = fuel - 1;
                },
                None => {
                    proof {
                        assert(out_before + self.spec_chain_bytes(cur, fuel as nat) =~= out@);
                        assert(self.spec_chain_ok(cur, fuel as nat));
                    }
                    return Ok(out);
                },
            }
        }
        proof {
            assert(out@ + self.spec_chain_bytes(cur, 0) =~= out@);
        }
        Ok(out)
    }

    /// A second handle onto the same volume.
    pub fn duplicate(&self) -> (r: Fat16Impl<T>)
        requires
            self.wf(),
        ensures
            r.wf(),
            r.spec_disk() == self.spec_disk(),
            r.spec_bpb() == self.spec_bpb(),
            r.spec_fat_start() == self.spec_fat_start(),
            r.spec_first_root_dir_sector() == self.spec_first_root_dir_sector(),
            r.spec_first_data_sector() == self.spec_first_data_sector(),
            r.spec_root_dir_sectors() == self.spec_root_dir_sectors(),
    {
        Fat16Impl {
            bpb: self.bpb.duplicate(),
            inner: self.inner.duplicate(),
            fat_start: self.fat_start,
            first_root_dir_sector: self.first_root_dir_sector,
            first_data_sector: self.first_data_sector,
            root_dir_sectors: self.root_dir_sectors,
        }
    }

    /// The size of one cluster in bytes.
    pub fn cluster_size(&self) -> (r: usize)
        requires
            self.wf(),
        ensures
            r == self.spec_cluster_size(),
            r >= 512,
    {
        (self.bpb.sectors_per_cluster() as usize) * 512
    }

    /// The number of clusters that cover a file of `size` bytes.
    pub open spec fn spec_file_k(&self, size: nat) -> int {
        spec_read_k(size as int, self.spec_cluster_size())
    }

    /// Whether a file of `size` bytes starting at cluster `c` can be read
    /// whole: its chain starts at a real cluster, stays on the device, and
    /// holds at least `size` bytes.
    pub open spec fn spec_file_ok(&self, c: u32, size: nat) -> bool {
        size == 0 || {
            &&& 2 <= c < 0xFFF0
            &&& self.spec_chain_ok(c as u16, self.spec_file_k(size) as nat)
            &&& self.spec_chain_bytes(c as u16, self.spec_file_k(size) as nat).len() >= size
        }
    }

    /// The bytes of a file of `size` bytes starting at cluster `c`.
    pub open spec fn spec_file_bytes(&self, c: u32, size: nat) -> Seq<u8> {
        self.spec_chain_bytes(c as u16, self.spec_file_k(size) as nat).subrange(0, size as int)
    }

    /// Reads up to `buf.len()` bytes of the chain starting at
    /// `start_cluster`, beginning `offset` bytes in: the window
    /// `offset..offset + buf.len()` of the chain's bytes, clipped to what
    /// the chain holds. Bytes past the ones read keep their old values.
    pub fn read_file_data(&self, start_cluster: u16, offset: usize, buf: &mut [u8]) -> (r: Result<
        usize,
        FsError,
    >)
        requires
            self.wf(),
            offset + old(buf)@.len() <= usize::MAX,
        ensures
            ({
                let k = spec_read_k(offset + old(buf)@.len(), self.spec_cluster_size());
                let content = self.spec_chain_bytes(start_cluster, k as nat);
                match r {
                    Ok(n) => {
                        &&& self.spec_chain_ok(start_cluster, k as nat)
                        &&& n == vstd::math::min(
                            old(buf)@.len() as int,
                            vstd::math::max(content.len() - offset, 0),
                        )
                        &&& final(buf)@.len() == old(buf)@.len()
                        &&& (forall|j: int| 0 <= j < n ==> final(buf)@[j] == content[offset + j])
                        &&& (forall|j: int|
                            n <= j < old(buf)@.len() ==> final(buf)@[j] == old(buf)@[j])
                    },
                    Err(e) => {
                        &&& !self.spec_chain_ok(start_cluster, k as nat)
                        &&& e == FsError::InvalidOffset
                        &&& final(buf)@ == old(buf)@
                    },
                }
            }),
    {
        let len = buf.len();
        let spc = self.bpb.sectors_per_cluster() as usize;
        let cs = spc * 512;
        let total = offset + len;
        assert(total / cs <= total / 512) by (nonlinear_arith)
            requires
                cs >= 512,
                total >= 0,
        ;
        let k0 = total / cs + if total % cs == 0 {
            0
        } else {
            1
        };
        let k = if k0 > CHAIN_CAP {
            CHAIN_CAP
        } else {
            k0
        };
        let content = match self.read_chain_bytes(start_cluster, k) {
            Ok(c) => c,
            Err(e) => {
                return Err(e);
            },
        };
        let avail = if content.len() > offset {
            content.len() - offset
        } else {
            0
        };
        let n = if len < avail {
            len
        } else {
            avail
        };
        copy_window(&content, offset, n, buf);
        Ok(n)
    }

    /// The byte stream of a directory: the fixed root region for the magic
    /// root value, else the cluster chain.
    pub open spec fn spec_dir_bytes(&self, c: u32) -> Seq<u8> {
        if c == CLUSTER_ROOT_DIR {
            self.spec_sectors(
                self.spec_first_root_dir_sector(),
                self.spec_root_dir_sectors() as nat,
            )
        } else {
            self.spec_chain_bytes(c as u16, CHAIN_CAP as nat)
        }
    }

    /// Whether a directory can be read whole: its cluster number is a root
    /// marker or a real FAT16 cluster, and every sector touched lies on the
    /// device.
    pub open spec fn spec_dir_ok(&self, c: u32) -> bool {
        if c == CLUSTER_ROOT_DIR {
            self.spec_root_dir_sectors() == 0 || self.spec_first_root_dir_sector()
                + self.spec_root_dir_sectors() <= self.spec_disk().len()
        } else {
            2 <= c < 0xFFF0 && self.spec_chain_ok(c as u16, CHAIN_CAP as nat)
        }
    }

    /// The error that reading a directory earns when it cannot be read.
    pub open spec fn spec_dir_err(&self, c: u32) -> FsError {
        if c != CLUSTER_ROOT_DIR && !(2 <= c < 0xFFF0) {
            FsError::InvalidOperation
        } else {
            FsError::InvalidOffset
        }
    }

    /// The listed entries of a directory.
    pub open spec fn spec_dir_entries(&self, c: u32) -> Seq<DirEntryV> {
        spec_scan_from(self.spec_dir_bytes(c), 0)
    }

    /// Reads a directory's entries: the root region or the cluster chain,
    /// scanned record by record up to the end-of-directory marker, with
    /// deleted and long-filename records skipped.
    pub fn read_dir_entries(&self, cluster: &Cluster) -> (r: Result<Vec<DirEntry>, FsError>)
        requires
            self.wf(),
        ensures
            match r {
                Ok(es) => {
                    &&& self.spec_dir_ok(cluster.0)
                    &&& spec_entries_view(es@) == self.spec_dir_entries(cluster.0)
                    &&& forall|i: int| 0 <= i < es@.len() ==> (#[trigger] es@[i]).wf()
                },
                Err(e) => !self.spec_dir_ok(cluster.0) && e == self.spec_dir_err(cluster.0),
            },
    {
        let bytes = if cluster.0 == CLUSTER_ROOT_DIR {
            match self.read_sectors(self.first_root_dir_sector, self.root_dir_sectors) {
                Ok(b) => b,
                Err(e) => {
                    return Err(e);
                },
            }
        } else if cluster.0 >= 2 && cluster.0 < 0xFFF0 {
            match self.read_chain_bytes(cluster.0 as u16, CHAIN_CAP) {
                Ok(b) => b,
                Err(e) => {
                    return Err(e);
                },
            }
        } else {
            return Err(FsError::InvalidOperation);
        };
        Ok(scan_dir_bytes(&bytes))
    }

    /// Looks a parsed name up in a directory's entries.
    fn find_in_dir(&self, cluster: &Cluster, target: &ShortFileName) -> (r: Result<
        Option<DirEntry>,
        FsError,
    >)
        requires
            self.wf(),
        ensures
            match r {
                Ok(o) => self.spec_dir_ok(cluster.0) && match o {
                    Some(e) => e.wf() && spec_find_entry(
                        self.spec_dir_entries(cluster.0),
                        target.name@,
                        target.ext@,
                    ) == Some(e@),
                    None => spec_find_entry(
                        self.spec_dir_entries(cluster.0),
                        target.name@,
                        target.ext@,
                    ) is None,
                },
                Err(e) => !self.spec_dir_ok(cluster.0) && e == self.spec_dir_err(cluster.0),
            },
    {
        let entries = match self.read_dir_entries(cluster) {
            Ok(es) => es,
            Err(e) => {
                return Err(e);
            },
        };
        Ok(find_in_entries(entries, target))
    }

    /// Looks `name` up in the directory at `dir_cluster`: the name is parsed
    /// to its 8.3 form, then matched against the directory's entries.
    pub fn find_entry(&self, dir_cluster: &Cluster, name: &str) -> (r: Result<
        Option<DirEntry>,
        FsError,
    >)
        requires
            self.wf(),
        ensures
            match r {
                Ok(o) => spec_parse_sfn(name.spec_bytes()) is Ok && self.spec_dir_ok(dir_cluster.0)
                    && {
                    let t = spec_parse_sfn(name.spec_bytes())->Ok_0;
                    match o {
                        Some(e) => e.wf() && spec_find_entry(
                            self.spec_dir_entries(dir_cluster.0),
                            t.0,
                            t.1,
                        ) == Some(e@),
                        None => spec_find_entry(
                            self.spec_dir_entries(dir_cluster.0),
                            t.0,
                            t.1,
                        ) is None,
                    }
                },
                Err(e) => {
                    ||| spec_parse_sfn(name.spec_bytes()) == Err::<(Seq<u8>, Seq<u8>), FsError>(e)
                    ||| (spec_parse_sfn(name.spec_bytes()) is Ok && !self.spec_dir_ok(
                        dir_cluster.0,
                    ) && e == self.spec_dir_err(dir_cluster.0))
                },
            },
    {
        let target = match ShortFileName::parse(name) {
            Ok(t) => t,
            Err(e) => {
                return Err(e);
            },
        };
        self.find_in_dir(dir_cluster, &target)
    }

    /// What resolving path components from `i` on, starting in the directory
    /// at `cluster`, yields: each component is parsed and looked up; inner
    /// components must name directories; a missing component yields `None`.
    pub open spec fn spec_resolve(&self, comps: Seq<Seq<u8>>, i: int, cluster: u32) -> Result<
        Option<DirEntryV>,
        FsError,
    >
        decreases comps.len() - i,
    {
        if i < 0 || i >= comps.len() {
            Ok(None)
        } else {
            match spec_parse_sfn(comps[i]) {
                Err(e) => Err(e),
                Ok(t) => {
                    if !self.spec_dir_ok(cluster) {
                        Err(self.spec_dir_err(cluster))
                    } else {
                        match spec_find_entry(self.spec_dir_entries(cluster), t.0, t.1) {
                            None => Ok(None),
                            Some(ev) => {
                                if i == comps.len() - 1 {
                                    Ok(Some(ev))
                                } else if ev.attributes & 0x10 == 0x10 {
                                    self.spec_resolve(comps, i + 1, ev.cluster)
                                } else {
                                    Err(FsError::NotADirectory)
                                }
                            },
                        }
                    }
                },
            }
        }
    }

    /// Resolves a path: it is split on slashes with empty components
    /// dropped, and the components are looked up from the root directory
    /// down. An empty path has no entry of its own and yields `None`.
    pub fn find_path(&self, path: &str) -> (r: Result<Option<DirEntry>, FsError>)
        requires
            self.wf(),
        ensures
            ({
                let comps = spec_split_path(path.spec_bytes());
                match r {
                    Ok(o) => {
                        &&& (comps.len() == 0 ==> o is None)
                        &&& (comps.len() > 0 ==> match o {
                            Some(e) => e.wf() && self.spec_resolve(comps, 0, CLUSTER_ROOT_DIR)
                                == Ok::<Option<DirEntryV>, FsError>(Some(e@)),
                            None => self.spec_resolve(comps, 0, CLUSTER_ROOT_DIR) == Ok::<
                                Option<DirEntryV>,
                                FsError,
                            >(None),
                        })
                    },
                    Err(e) => comps.len() > 0 && self.spec_resolve(comps, 0, CLUSTER_ROOT_DIR)
                        == Err::<Option<DirEntryV>, FsError>(e),
                }
            }),
    {
        self.find_path_bytes(path.as_bytes())
    }

    /// `find_path`, on the path's bytes.
    pub fn find_path_bytes(&self, path: &[u8]) -> (r: Result<Option<DirEntry>, FsError>)
        requires
            self.wf(),
        ensures
            ({
                let comps = spec_split_path(path@);
                match r {
                    Ok(o) => {
                        &&& (comps.len() == 0 ==> o is None)
                        &&& (comps.len() > 0 ==> match o {
                            Some(e) => e.wf() && self.spec_resolve(comps, 0, CLUSTER_ROOT_DIR)
                                == Ok::<Option<DirEntryV>, FsError>(Some(e@)),
                            None => self.spec_resolve(comps, 0, CLUSTER_ROOT_DIR) == Ok::<
                                Option<DirEntryV>,
                                FsError,
                            >(None),
                        })
                    },
                    Err(e) => comps.len() > 0 && self.spec_resolve(comps, 0, CLUSTER_ROOT_DIR)
                        == Err::<Option<DirEntryV>, FsError>(e),
                }
            }),
    {
        let b = path;
        let comps = split_path(b);
        let ghost comps0 = spec_split_path(b@);
        if comps.len() == 0 {
            return Ok(None);
        }
        let n_comps = comps.len();
        let mut cur: u32 = CLUSTER_ROOT_DIR;
        let mut i: usize = 0;
        loop
            invariant
                self.wf(),
                i < n_comps == comps@.len(),
                comps0 == spec_vecs_view(comps@),
                comps0.len() == comps@.len(),
                comps0 == spec_split_path(path@),
                self.spec_resolve(comps0, 0, CLUSTER_ROOT_DIR) == self.spec_resolve(
                    comps0,
                    i as int,
                    cur,
                ),
            decreases comps@.len() - i,
        {
            proof {
                assert(comps0[i as int] == comps@[i as int]@);
            }
            let target = match ShortFileName::parse_bytes(comps[i].as_slice()) {
                Ok(t) => t,
                Err(e) => {
                    proof {
                        assert(self.spec_resolve(comps0, i as int, cur) == Err::<
                            Option<DirEntryV>,
                            FsError,
                        >(e));
                    }
                    return Err(e);
                },
            };
            proof {
                assert(spec_parse_sfn(comps0[i as int]) == Ok::<(Seq<u8>, Seq<u8>), FsError>(
                    (target.name@, target.ext@),
                ));
            }
            let found = match self.find_in_dir(&Cluster(cur), &target) {
                Ok(o) => o,
                Err(e) => {
                    proof {
                        assert(self.spec_resolve(comps0, i as int, cur) == Err::<
                            Option<DirEntryV>,
                            FsError,
                        >(e));
                    }
                    return Err(e);
                },
            };
            match found {
                None => {
                    proof {
                        assert(self.spec_resolve(comps0, i as int, cur) == Ok::<
                            Option<DirEntryV>,
                            FsError,
                        >(None));
                    }
                    return Ok(None);
                },
                Some(e) => {
                    if i + 1 == comps.len() {
                        proof {
                            assert(self.spec_resolve(comps0, i as int, cur) == Ok::<
                                Option<DirEntryV>,
                                FsError,
                            >(Some(e@)));
                        }
                        return Ok(Some(e));
                    }
                    if e.is_directory() {
                        proof {
                            assert(e@.attributes & 0x10 == 0x10);
                            assert(self.spec_resolve(comps0, i as int, cur) == self.spec_resolve(
                                comps0,
                                i + 1,
                                e@.cluster,
                            ));
                        }
                        cur = e.cluster.0;
                        i = i + 1;
                    } else {
                        proof {
                            assert(self.spec_resolve(comps0, i as int, cur) == Err::<
                                Option<DirEntryV>,
                                FsError,
                            >(FsError::NotADirectory));
                        }
                        return Err(FsError::NotADirectory);
                    }
                },
            }
        }
    }
}

/// Copies `n` bytes of `content`, starting at `offset`, into the front of
/// `buf`; the rest of `buf` keeps its old values.
pub(crate) fn copy_window(content: &Vec<u8>, offset: usize, n: usize, buf: &mut [u8])
    requires
        n <= old(buf)@.len(),
        n == 0 || offset + n <= content@.len(),
    ensures
        final(buf)@.len() == old(buf)@.len(),
        forall|j: int| 0 <= j < n ==> final(buf)@[j] == content@[offset + j],
        forall|j: int| n <= j < old(buf)@.len() ==> final(buf)@[j] == old(buf)@[j],
{
    let cl = content.len();
    let mut i: usize = 0;
    while i < n
        invariant
            i <= n <= old(buf)@.len(),
            n == 0 || offset + n <= cl,
            cl == content@.len(),
            buf@.len() == old(buf)@.len(),
            forall|j: int| 0 <= j < i ==> buf@[j] == content@[offset + j],
            forall|j: int| i <= j < old(buf)@.len() ==> buf@[j] == old(buf)@[j],
        decreases n - i,
    {
        let v = content[offset + i];
        buf.set(i, v);
        i = i + 1;
    }
}

/// The first entry of `es`, from index `i` on, whose stored name and
/// extension equal the given ones.
pub open spec fn spec_find_from(es: Seq<DirEntryV>, i: int, name: Seq<u8>, ext: Seq<u8>) -> Option<
    DirEntryV,
>
    decreases es.len() - i,
{
    if i < 0 || i >= es.len() {
        None
    } else if es[i].name == name && es[i].ext == ext {
        Some(es[i])
    } else {
        spec_find_from(es, i + 1, name, ext)
    }
}

/// The first entry of `es` whose stored name and extension equal the given
/// ones.
pub open spec fn spec_find_entry(es: Seq<DirEntryV>, name: Seq<u8>, ext: Seq<u8>) -> Option<
    DirEntryV,
> {
    spec_find_from(es, 0, name, ext)
}

/// Scans a sequence of parsed entries for a stored name.
fn find_in_entries(entries: Vec<DirEntry>, target: &ShortFileName) -> (r: Option<DirEntry>)
    requires
        forall|i: int| 0 <= i < entries@.len() ==> (#[trigger] entries@[i]).wf(),
    ensures
        match r {
            Some(e) => e.wf() && spec_find_entry(spec_entries_view(entries@), target.name@,
            target.ext@) == Some(e@),
            None => spec_find_entry(spec_entries_view(entries@), target.name@, target.ext@)
                is None,
        },
{
    let ghost es0 = spec_entries_view(entries@);
    let mut entries = entries;
    let mut i: usize = 0;
    let mut found: bool = false;
    while !found && i < entries.len()
        invariant
            es0 == spec_entries_view(entries@),
            i <= entries@.len(),
            forall|j: int| 0 <= j < entries@.len() ==> (#[trigger] entries@[j]).wf(),
            !found ==> spec_find_from(es0, 0, target.name@, target.ext@) == spec_find_from(
                es0,
                i as int,
                target.name@,
                target.ext@,
            ),
            found ==> i < entries@.len() && spec_find_from(es0, 0, target.name@, target.ext@)
                == Some(es0[i as int]),
        decreases entries@.len() - i, (if found {
            0int
        } else {
            1int
        }),
    {
        proof {
            assert(es0[i as int] == entries@[i as int]@);
        }
        if entries[i].filename.matches(target) {
            found = true;
        } else {
            i = i + 1;
        }
    }
    if found {
        let e = entries.remove(i);
        Some(e)
    } else {
        None
    }
}

/// Scans a directory byte stream: 32-byte records up to the
/// end-of-directory marker, keeping the listed ones.
fn scan_dir_bytes(bytes: &Vec<u8>) -> (r: Vec<DirEntry>)
    ensures
        spec_entries_view(r@) == spec_scan_from(bytes@, 0),
        forall|i: int| 0 <= i < r@.len() ==> (#[trigger] r@[i]).wf(),
{
    let n = bytes.len();
    let mut entries: Vec<DirEntry> = Vec::new();
    let mut pos: usize = 0;
    while pos <= n && n - pos >= 32
        invariant
            pos <= n == bytes@.len(),
            spec_scan_from(bytes@, 0) == spec_entries_view(entries@) + spec_scan_from(
                bytes@,
                pos as int,
            ),
            forall|i: int| 0 <= i < entries@.len() ==> (#[trigger] entries@[i]).wf(),
        decreases n - pos,
    {
        let ghost rec_spec = bytes@.subrange(pos as int, pos + 32);
        if bytes[pos] == 0x00 {
            proof {
                assert(rec_spec[0] == bytes@[pos as int]);
                assert(spec_scan_from(bytes@, pos as int) =~= Seq::<DirEntryV>::empty());
                assert(spec_entries_view(entries@) + Seq::<DirEntryV>::empty() =~= spec_entries_view(
                    entries@,
                ));
            }
            return entries;
        }
        let rec = crate::strutil::bytes_at(bytes.as_slice(), pos, 32);
        let keep: bool;
        let mut parsed: Option<DirEntry> = None;
        match DirEntry::parse(rec.as_slice()) {
            Ok(e) => {
                let k = e.is_valid() && !e.is_long_name();
                keep = k;
                parsed = Some(e);
            },
            Err(_) => {
                proof {
                    assert(false);
                }
                keep = false;
            },
        }
        proof {
            assert(rec@ == rec_spec);
            assert(keep == spec_keep_record(rec_spec));
        }
        if keep {
            let e = match parsed {
                Some(e) => e,
                None => {
                    proof {
                        assert(false);
                    }
                    return entries;
                },
            };
            let ghost before = entries@;
            entries.push(e);
            proof {
                assert(e@ == spec_record_entry(rec_spec));
                assert(spec_entries_view(entries@) =~= spec_entries_view(before) + seq![e@]);
                assert(spec_scan_from(bytes@, pos as int) == seq![spec_record_entry(rec_spec)]
                    + spec_scan_from(bytes@, pos + 32));
                assert(spec_entries_view(before) + spec_scan_from(bytes@, pos as int)
                    =~= spec_entries_view(entries@) + spec_scan_from(bytes@, pos + 32));
            }
        } else {
            proof {
                assert(spec_scan_from(bytes@, pos as int) == spec_scan_from(bytes@, pos + 32));
            }
        }
        pos = pos + 32;
    }
    proof {
        assert(spec_scan_from(bytes@, pos as int) =~= Seq::<DirEntryV>::empty());
        assert(spec_entries_view(entries@) + Seq::<DirEntryV>::empty() =~= spec_entries_view(
            entries@,
        ));
    }
    entries
}

/// The number of clusters that cover `total` bytes when a cluster holds
/// `cs`, capped at the longest chain the library follows.
pub open spec fn spec_read_k(total: int, cs: int) -> int {
    let k0 = total / cs + if total % cs == 0 {
        0int
    } else {
        1int
    };
    if k0 > CHAIN_CAP {
        CHAIN_CAP as int
    } else {
        k0
    }
}

/// The root directory region ends exactly where the data region begins:
/// mapping the root directory marker to its sector and stepping over the
/// root directory lands on the first data sector.
pub proof fn lemma_root_dir_adjacent<T: BlockDevice>(fs: &Fat16Impl<T>)
    requires
        fs.wf(),
    ensures
        fs.spec_cluster_to_sector(CLUSTER_ROOT_DIR) + fs.spec_root_dir_sectors()
            == fs.spec_first_data_sector(),
{
}

/// The views of a sequence of byte vectors.
pub open spec fn spec_vecs_view(v: Seq<Vec<u8>>) -> Seq<Seq<u8>> {
    v.map_values(|x: Vec<u8>| x@)
}

/// The index of the first slash in `s`, or `s.len()` when there is none.
pub open spec fn spec_first_slash(s: Seq<u8>) -> int
    decreases s.len(),
{
    if s.len() == 0 {
        0
    } else if s[0] == 0x2F {
        0
    } else {
        1 + spec_first_slash(s.subrange(1, s.len() as int))
    }
}

/// A scan that finds no slash before `d`, and a slash at `d` unless `d` is
/// the length, has found the first-slash index.
proof fn lemma_first_slash_char(s: Seq<u8>, d: int)
    requires
        0 <= d <= s.len(),
        forall|j: int| 0 <= j < d ==> s[j] != 0x2F,
        d < s.len() ==> s[d] == 0x2F,
    ensures
        spec_first_slash(s) == d,
    decreases s.len(),
{
    if s.len() == 0 {
    } else if s[0] == 0x2F {
        assert(d == 0);
    } else {
        let t = s.subrange(1, s.len() as int);
        assert(d >= 1);
        assert(forall|j: int| 0 <= j < d - 1 ==> t[j] == s[j + 1] && s[j + 1] != 0x2F);
        lemma_first_slash_char(t, d - 1);
    }
}

/// A path's components: the stretches between slashes, empty ones dropped.
pub open spec fn spec_split_path(b: Seq<u8>) -> Seq<Seq<u8>>
    decreases b.len(),
{
    if b.len() == 0 {
        Seq::empty()
    } else {
        let d = spec_first_slash(b);
        if d < 0 || d >= b.len() {
            seq![b]
        } else {
            let rest = spec_split_path(b.subrange(d + 1, b.len() as int));
            if d == 0 {
                rest
            } else {
                seq![b.subrange(0, d)] + rest
            }
        }
    }
}

/// Splits a path on slashes, dropping empty components.
fn split_path(b: &[u8]) -> (r: Vec<Vec<u8>>)
    ensures
        spec_vecs_view(r@) == spec_split_path(b@),
{
    let n = b.len();
    let mut acc: Vec<Vec<u8>> = Vec::new();
    let mut pos: usize = 0;
    proof {
        assert(b@.subrange(0, n as int) =~= b@);
        assert(spec_vecs_view(acc@) =~= Seq::<Seq<u8>>::empty());
        assert(Seq::<Seq<u8>>::empty() + spec_split_path(b@) =~= spec_split_path(b@));
    }
    while pos < n
        invariant
            pos <= n == b@.len(),
            spec_split_path(b@) == spec_vecs_view(acc@) + spec_split_path(
                b@.subrange(pos as int, n as int),
            ),
        decreases n - pos,
    {
        let ghost tail = b@.subrange(pos as int, n as int);
        if b[pos] == 0x2F {
            proof {
                assert(tail[0] == 0x2F);
                assert(spec_first_slash(tail) == 0);
                assert(tail.subrange(1, tail.len() as int) =~= b@.subrange(pos + 1, n as int));
                assert(spec_split_path(tail) == spec_split_path(b@.subrange(pos + 1, n as int)));
            }
            pos = pos + 1;
        } else {
            let mut j = pos;
            while j < n && b[j] != 0x2F
                invariant
                    pos <= j <= n == b@.len(),
                    pos < n,
                    b@[pos as int] != 0x2F,
                    forall|k: int| pos <= k < j ==> b@[k] != 0x2F,
                decreases n - j,
            {
                j = j + 1;
            }
            proof {
                assert(j > pos);
            }
            proof {
                assert(forall|k: int| 0 <= k < j - pos ==> tail[k] == b@[pos + k]);
                lemma_first_slash_char(tail, j - pos);
            }
            let piece = crate::strutil::bytes_at(b, pos, j - pos);
            let ghost before = acc@;
            acc.push(piece);
            proof {
                assert(spec_vecs_view(acc@) =~= spec_vecs_view(before) + seq![piece@]);
                assert(piece@ == tail.subrange(0, (j - pos) as int));
            }
            if j < n {
                proof {
                    assert(spec_split_path(tail) == seq![tail.subrange(0, (j - pos) as int)]
                        + spec_split_path(tail.subrange((j - pos) + 1, tail.len() as int)));
                    assert(tail.subrange((j - pos) + 1, tail.len() as int) =~= b@.subrange(
                        j + 1,
                        n as int,
                    ));
                    assert(spec_vecs_view(before) + spec_split_path(tail) =~= spec_vecs_view(acc@)
                        + spec_split_path(b@.subrange(j + 1, n as int)));
                }
                pos = j + 1;
            } else {
                proof {
                    assert(spec_split_path(tail) == seq![tail]);
                    assert(tail.subrange(0, (j - pos) as int) =~= tail);
                    assert(b@.subrange(n as int, n as int) =~= Seq::<u8>::empty());
                    assert(spec_split_path(Seq::<u8>::empty()) =~= Seq::<Seq<u8>>::empty());
                    assert(spec_vecs_view(before) + spec_split_path(tail) =~= spec_vecs_view(acc@)
                        + spec_split_path(b@.subrange(n as int, n as int)));
                }
                pos = n;
            }
        }
    }
    proof {
        assert(b@.subrange(n as int, n as int) =~= Seq::<u8>::empty());
        assert(spec_split_path(Seq::<u8>::empty()) =~= Seq::<Seq<u8>>::empty());
        assert(spec_vecs_view(acc@) + Seq::<Seq<u8>>::empty() =~= spec_vecs_view(acc@));
    }
    acc
}

} // verus!
