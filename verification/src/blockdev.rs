//! Block devices: a 512-byte block, the capability interface that the
//! filesystem reads through, an in-memory disk, and the partition slice.

use vstd::prelude::*;

use crate::FsError;
use crate::strutil::bytes_at;

verus! {

/// The size of one disk block in bytes.
pub const BLOCK_SIZE: usize = 512;

/// One 512-byte disk block.
pub struct Block {
    data: Vec<u8>,
}

impl Block {
    /// The block's bytes.
    pub closed spec fn view(&self) -> Seq<u8> {
        self.data@
    }

    /// A block always holds exactly 512 bytes.
    pub closed spec fn wf(&self) -> bool {
        self.data@.len() == 512
    }

    /// A zeroed block.
    pub fn new() -> (r: Block)
        ensures
            r.wf(),
            r@ == Seq::new(512, |i: int| 0u8),
    {
        let mut data: Vec<u8> = Vec::new();
        let mut i: usize = 0;
        while i < 512
            invariant
                i <= 512,
                data@ =~= Seq::new(i as nat, |j: int| 0u8),
            decreases 512 - i,
        {
            data.push(0);
            assert(data@ =~= Seq::new((i + 1) as nat, |j: int| 0u8));
            i = i + 1;
        }
        Block { data }
    }

    /// Wraps 512 bytes as a block.
    pub fn from_vec(data: Vec<u8>) -> (r: Block)
        requires
            data@.len() == 512,
        ensures
            r.wf(),
            r@ == data@,
    {
        Block { data }
    }

    /// The byte at `i`.
    pub fn byte(&self, i: usize) -> (r: u8)
        requires
            self.wf(),
            i < 512,
        ensures
            r == self@[i as int],
    {
        self.data[i]
    }

    /// Copies `len` bytes starting at `off` out of the block.
    pub fn slice_of(&self, off: usize, len: usize) -> (r: Vec<u8>)
        requires
            self.wf(),
            off + len <= 512,
        ensures
            r@ == self@.subrange(off as int, off + len),
    {
        bytes_at(self.data.as_slice(), off, len)
    }

    /// The whole block as a byte slice.
    pub fn as_slice(&self) -> (r: &[u8])
        ensures
            r@ == self@,
    {
        self.data.as_slice()
    }

    /// Replaces the block's contents.
    pub fn fill_from(&mut self, data: &[u8])
        requires
            data@.len() == 512,
        ensures
            final(self).wf(),
            final(self)@ == data@,
    {
        self.data = bytes_at(data, 0, 512);
        assert(self.data@ =~= data@);
    }
}

/// Reads 512-byte blocks by index. The filesystem is generic over this
/// capability; a verified in-memory implementation lives beside it, and a
/// real drive may stand behind it outside the library.
pub trait BlockDevice: Sized {
    /// The device's contents, one 512-byte sequence per block.
    spec fn spec_blocks(&self) -> Seq<Seq<u8>>;

    /// The device's structural invariant; every block it serves holds
    /// exactly 512 bytes.
    spec fn wf(&self) -> bool;

    proof fn lemma_wf_blocks(&self)
        requires
            self.wf(),
        ensures
            forall|i: int| 0 <= i < self.spec_blocks().len() ==> self.spec_blocks()[i].len() == 512,
            self.spec_blocks().len() <= usize::MAX,
    ;

    /// The number of blocks the device serves.
    fn block_count(&self) -> (r: Result<usize, FsError>)
        requires
            self.wf(),
        ensures
            r == Ok::<usize, FsError>(self.spec_blocks().len() as usize),
    ;

    /// Reads block `offset` into `block`; an offset past the end of the
    /// device is rejected.
    fn read_block(&self, offset: usize, block: &mut Block) -> (r: Result<(), FsError>)
        requires
            self.wf(),
            old(block).wf(),
        ensures
            final(block).wf(),
            r is Ok <==> offset < self.spec_blocks().len(),
            r is Ok ==> final(block)@ == self.spec_blocks()[offset as int],
            r is Err ==> r == Err::<(), FsError>(FsError::InvalidOffset) && *final(block) == *old(
                block,
            ),
    ;

    /// Writes `block` at index `offset`; an offset past the end of the
    /// device is rejected.
    fn write_block(&mut self, offset: usize, block: &Block) -> (r: Result<(), FsError>)
        requires
            old(self).wf(),
            block.wf(),
        ensures
            final(self).wf(),
            r is Ok <==> offset < old(self).spec_blocks().len(),
            r is Ok ==> final(self).spec_blocks() == old(self).spec_blocks().update(
                offset as int,
                block@,
            ),
            r is Err ==> r == Err::<(), FsError>(FsError::InvalidOffset) && *final(self) == *old(
                self,
            ),
    ;

    /// A second handle onto the same contents.
    fn duplicate(&self) -> (r: Self)
        requires
            self.wf(),
        ensures
            r.wf(),
            r.spec_blocks() == self.spec_blocks(),
    ;
}

/// A disk held in memory, block by block.
pub struct MemDisk {
    blocks: Vec<Block>,
}

impl MemDisk {
    /// A zeroed disk of `count` blocks.
    pub fn new(count: usize) -> (r: MemDisk)
        ensures
            r.wf(),
            r.spec_blocks().len() == count,
            forall|i: int, j: int|
                0 <= i < count && 0 <= j < 512 ==> #[trigger] r.spec_blocks()[i][j] == 0,
    {
        let mut blocks: Vec<Block> = Vec::new();
        let mut i: usize = 0;
        while i < count
            invariant
                i <= count,
                blocks@.len() == i,
                forall|j: int| 0 <= j < i ==> (#[trigger] blocks@[j]).wf(),
                forall|j: int, k: int| 0 <= j < i && 0 <= k < 512 ==> #[trigger] blocks@[j]@[k]
                    == 0,
            decreases count - i,
        {
            blocks.push(Block::new());
            i = i + 1;
        }
        MemDisk { blocks }
    }
}

impl BlockDevice for MemDisk {
    closed spec fn spec_blocks(&self) -> Seq<Seq<u8>> {
        self.blocks@.map_values(|b: Block| b@)
    }

    closed spec fn wf(&self) -> bool {
        forall|i: int| 0 <= i < self.blocks@.len() ==> (#[trigger] self.blocks@[i]).wf()
    }

    proof fn lemma_wf_blocks(&self) {
        vstd::std_specs::vec::axiom_spec_len(&self.blocks);
    }

    fn block_count(&self) -> (r: Result<usize, FsError>) {
        Ok(self.blocks.len())
    }

    fn read_block(&self, offset: usize, block: &mut Block) -> (r: Result<(), FsError>) {
        if offset >= self.blocks.len() {
            return Err(FsError::InvalidOffset);
        }
        let src = &self.blocks[offset];
        block.fill_from(src.as_slice());
        Ok(())
    }

    fn write_block(&mut self, offset: usize, block: &Block) -> (r: Result<(), FsError>) {
        if offset >= self.blocks.len() {
            return Err(FsError::InvalidOffset);
        }
        let mut copy = Block::new();
        copy.fill_from(block.as_slice());
        self.blocks.set(offset, copy);
        assert(self.spec_blocks() =~= old(self).spec_blocks().update(offset as int, block@));
        Ok(())
    }

    fn duplicate(&self) -> (r: Self) {
        let mut blocks: Vec<Block> = Vec::new();
        let mut i: usize = 0;
        while i < self.blocks.len()
            invariant
                i <= self.blocks@.len(),
                self.wf(),
                blocks@.len() == i,
                forall|j: int| 0 <= j < i ==> (#[trigger] blocks@[j]).wf(),
                forall|j: int| 0 <= j < i ==> #[trigger] blocks@[j]@ == self.blocks@[j]@,
            decreases self.blocks@.len() - i,
        {
            let mut b = Block::new();
            b.fill_from(self.blocks[i].as_slice());
            blocks.push(b);
            assert(blocks@[i as int]@ == self.blocks@[i as int]@);
            i = i + 1;
        }
        let r = MemDisk { blocks };
        assert(r.spec_blocks() =~= self.spec_blocks());
        r
    }
}

/// A contiguous slice of a larger device, as named by a partition table
/// entry.
pub struct Partition<T: BlockDevice> {
    inner: T,
    offset: usize,
    size: usize,
}

impl<T: BlockDevice> Partition<T> {
    /// Where the slice begins on the underlying device.
    pub closed spec fn spec_offset(&self) -> usize {
        self.offset
    }

    /// How many blocks the slice holds.
    pub closed spec fn spec_size(&self) -> usize {
        self.size
    }

    /// The underlying device.
    pub closed spec fn spec_inner(&self) -> T {
        self.inner
    }

    /// Wraps `size` blocks of `inner` starting at `offset`.
    pub fn new(inner: T, offset: usize, size: usize) -> (r: Partition<T>)
        requires
            inner.wf(),
            offset + size <= inner.spec_blocks().len(),
        ensures
            r.wf(),
            r.spec_offset() == offset,
            r.spec_size() == size,
            r.spec_blocks() == inner.spec_blocks().subrange(offset as int, offset + size),
    {
        Partition { inner, offset, size }
    }
}

impl<T: BlockDevice> BlockDevice for Partition<T> {
    closed spec fn spec_blocks(&self) -> Seq<Seq<u8>> {
        self.inner.spec_blocks().subrange(
            self.offset as int,
            self.offset + self.size,
        )
    }

    closed spec fn wf(&self) -> bool {
        &&& self.inner.wf()
        &&& self.offset + self.size <= self.inner.spec_blocks().len()
    }

    proof fn lemma_wf_blocks(&self) {
        self.inner.lemma_wf_blocks();
    }

    fn block_count(&self) -> (r: Result<usize, FsError>) {
        Ok(self.size)
    }

    fn read_block(&self, offset: usize, block: &mut Block) -> (r: Result<(), FsError>) {
        if offset >= self.size {
            return Err(FsError::InvalidOffset);
        }
        proof {
            self.inner.lemma_wf_blocks();
        }
        let actual = self.offset + offset;
        self.inner.read_block(actual, block)
    }

    fn write_block(&mut self, offset: usize, block: &Block) -> (r: Result<(), FsError>) {
        if offset >= self.size {
            return Err(FsError::InvalidOffset);
        }
        proof {
            self.inner.lemma_wf_blocks();
        }
        let actual = self.offset + offset;
        let r = self.inner.write_block(actual, block);
        assert(r is Ok);
        assert(self.spec_blocks() =~= old(self).spec_blocks().update(offset as int, block@));
        r
    }

    fn duplicate(&self) -> (r: Self) {
        Partition { inner: self.inner.duplicate(), offset: self.offset, size: self.size }
    }
}

} // verus!
