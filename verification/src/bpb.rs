//! FAT16 BIOS Parameter Block: the first sector of a FAT16 volume, read
//! through typed byte-offset accessors.

use vstd::prelude::*;

use crate::FsError;
use crate::bytes::{spec_u16_le, spec_u32_le, u16_le, u32_le};
use crate::strutil::{ascii_string, bytes_at, spec_ascii_chars};

verus! {

/// A boot parameter block: one 512-byte sector describing a FAT16 volume.
#[derive(Debug)]
pub struct Fat16Bpb {
    data: Vec<u8>,
}

pub const BPB_SIZE: usize = 512;

impl Fat16Bpb {
    /// The raw sector bytes.
    pub closed spec fn view(&self) -> Seq<u8> {
        self.data@
    }

    /// A parsed BPB always holds exactly one sector whose trail signature is
    /// `0xAA55`.
    pub closed spec fn wf(&self) -> bool {
        &&& self.data@.len() == 512
        &&& spec_u16_le(self.data@, 0x1FE) == 0xAA55
    }

    /// Attempts to parse a boot parameter block from a 512-byte sector.
    /// Succeeds exactly on sectors of the right length whose trail signature
    /// is `0xAA55`.
    pub fn new(data: &[u8]) -> (r: Result<Fat16Bpb, FsError>)
        ensures
            match r {
                Ok(bpb) => data@.len() == 512 && bpb@ == data@ && bpb.wf() && spec_u16_le(
                    data@,
                    0x1FE,
                ) == 0xAA55,
                Err(e) => (data@.len() != 512 || spec_u16_le(data@, 0x1FE) != 0xAA55) && e
                    == FsError::InvalidOperation,
            },
    {
        if data.len() != 512 {
            return Err(FsError::InvalidOperation);
        }
        if u16_le(data, 0x1FE) != 0xAA55 {
            return Err(FsError::InvalidOperation);
        }
        let mut copy: Vec<u8> = Vec::new();
        let mut i: usize = 0;
        while i < 512
            invariant
                i <= 512,
                data@.len() == 512,
                copy@ == data@.subrange(0, i as int),
            decreases 512 - i,
        {
            copy.push(data[i]);
            assert(copy@ == data@.subrange(0, i + 1 as int));
            i = i + 1;
        }
        assert(copy@ == data@);
        Ok(Fat16Bpb { data: copy })
    }

    /// A second copy of the parsed sector.
    pub fn duplicate(&self) -> (r: Fat16Bpb)
        requires
            self.wf(),
        ensures
            r@ == self@,
            r.wf(),
    {
        Fat16Bpb { data: bytes_at(self.data.as_slice(), 0, 512) }
    }

    /// Total sector count: the 16-bit field when nonzero, else the 32-bit one.
    pub fn total_sectors(&self) -> (r: u32)
        requires
            self.wf(),
        ensures
            r == if spec_u16_le(self@, 0x13) == 0 {
                spec_u32_le(self@, 0x20)
            } else {
                spec_u16_le(self@, 0x13) as u32
            },
    {
        if self.total_sectors_16() == 0 {
            self.total_sectors_32()
        } else {
            self.total_sectors_16() as u32
        }
    }

    /// OEM name (offset 0x03, 8 bytes).
    pub fn oem_name(&self) -> (r: Vec<u8>)
        requires
            self.wf(),
        ensures
            r@ == self@.subrange(0x03, 0x0B),
    {
        bytes_at(self.data.as_slice(), 0x03, 8)
    }

    /// OEM name as text.
    pub fn oem_name_str(&self) -> (r: String)
        requires
            self.wf(),
        ensures
            r@ == spec_ascii_chars(self@.subrange(0x03, 0x0B)),
    {
        let b = self.oem_name();
        ascii_string(&b)
    }

    /// Bytes per sector (offset 0x0B).
    pub fn bytes_per_sector(&self) -> (r: u16)
        requires
            self.wf(),
        ensures
            r == spec_u16_le(self@, 0x0B),
    {
        u16_le(self.data.as_slice(), 0x0B)
    }

    /// Sectors per cluster (offset 0x0D).
    pub fn sectors_per_cluster(&self) -> (r: u8)
        requires
            self.wf(),
        ensures
            r == self@[0x0D],
    {
        self.data[0x0D]
    }

    /// Reserved sector count (offset 0x0E).
    pub fn reserved_sector_count(&self) -> (r: u16)
        requires
            self.wf(),
        ensures
            r == spec_u16_le(self@, 0x0E),
    {
        u16_le(self.data.as_slice(), 0x0E)
    }

    /// Number of FAT copies (offset 0x10).
    pub fn fat_count(&self) -> (r: u8)
        requires
            self.wf(),
        ensures
            r == self@[0x10],
    {
        self.data[0x10]
    }

    /// Number of root directory entries (offset 0x11).
    pub fn root_entries_count(&self) -> (r: u16)
        requires
            self.wf(),
        ensures
            r == spec_u16_le(self@, 0x11),
    {
        u16_le(self.data.as_slice(), 0x11)
    }

    /// 16-bit total sector count (offset 0x13).
    pub fn total_sectors_16(&self) -> (r: u16)
        requires
            self.wf(),
        ensures
            r == spec_u16_le(self@, 0x13),
    {
        u16_le(self.data.as_slice(), 0x13)
    }

    /// Media descriptor (offset 0x15).
    pub fn media_descriptor(&self) -> (r: u8)
        requires
            self.wf(),
        ensures
            r == self@[0x15],
    {
        self.data[0x15]
    }

    /// Sectors per FAT (offset 0x16).
    pub fn sectors_per_fat(&self) -> (r: u16)
        requires
            self.wf(),
        ensures
            r == spec_u16_le(self@, 0x16),
    {
        u16_le(self.data.as_slice(), 0x16)
    }

    /// Sectors per track (offset 0x18).
    pub fn sectors_per_track(&self) -> (r: u16)
        requires
            self.wf(),
        ensures
            r == spec_u16_le(self@, 0x18),
    {
        u16_le(self.data.as_slice(), 0x18)
    }

    /// Head count (offset 0x1A).
    pub fn track_count(&self) -> (r: u16)
        requires
            self.wf(),
        ensures
            r == spec_u16_le(self@, 0x1A),
    {
        u16_le(self.data.as_slice(), 0x1A)
    }

    /// Hidden sector count (offset 0x1C).
    pub fn hidden_sectors(&self) -> (r: u32)
        requires
            self.wf(),
        ensures
            r == spec_u32_le(self@, 0x1C),
    {
        u32_le(self.data.as_slice(), 0x1C)
    }

    /// 32-bit total sector count (offset 0x20).
    pub fn total_sectors_32(&self) -> (r: u32)
        requires
            self.wf(),
        ensures
            r == spec_u32_le(self@, 0x20),
    {
        u32_le(self.data.as_slice(), 0x20)
    }

    /// Drive number (offset 0x24).
    pub fn drive_number(&self) -> (r: u8)
        requires
            self.wf(),
        ensures
            r == self@[0x24],
    {
        self.data[0x24]
    }

    /// Reserved flags (offset 0x25).
    pub fn reserved_flags(&self) -> (r: u8)
        requires
            self.wf(),
        ensures
            r == self@[0x25],
    {
        self.data[0x25]
    }

    /// Extended boot signature (offset 0x26).
    pub fn boot_signature(&self) -> (r: u8)
        requires
            self.wf(),
        ensures
            r == self@[0x26],
    {
        self.data[0x26]
    }

    /// Volume id (offset 0x27).
    pub fn volume_id(&self) -> (r: u32)
        requires
            self.wf(),
        ensures
            r == spec_u32_le(self@, 0x27),
    {
        u32_le(self.data.as_slice(), 0x27)
    }

    /// Volume label (offset 0x2B, 11 bytes).
    pub fn volume_label(&self) -> (r: Vec<u8>)
        requires
            self.wf(),
        ensures
            r@ == self@.subrange(0x2B, 0x36),
    {
        bytes_at(self.data.as_slice(), 0x2B, 11)
    }

    /// Volume label as text.
    pub fn volume_label_str(&self) -> (r: String)
        requires
            self.wf(),
        ensures
            r@ == spec_ascii_chars(self@.subrange(0x2B, 0x36)),
    {
        let b = self.volume_label();
        ascii_string(&b)
    }

    /// Filesystem identifier (offset 0x36, 8 bytes).
    pub fn system_identifier(&self) -> (r: Vec<u8>)
        requires
            self.wf(),
        ensures
            r@ == self@.subrange(0x36, 0x3E),
    {
        bytes_at(self.data.as_slice(), 0x36, 8)
    }

    /// Filesystem identifier as text.
    pub fn system_identifier_str(&self) -> (r: String)
        requires
            self.wf(),
        ensures
            r@ == spec_ascii_chars(self@.subrange(0x36, 0x3E)),
    {
        let b = self.system_identifier();
        ascii_string(&b)
    }

    /// Trailing signature (offset 0x1FE); always `0xAA55` once parsed.
    pub fn trail(&self) -> (r: u16)
        requires
            self.wf(),
        ensures
            r == spec_u16_le(self@, 0x1FE),
            r == 0xAA55,
    {
        u16_le(self.data.as_slice(), 0x1FE)
    }
}

/// Re-encoding every defined multi-byte field of a parsed BPB in little-endian
/// order reproduces the bytes of the sector it was parsed from, so parsing
/// then reformatting the fields is the identity on the defined fields.
pub proof fn lemma_bpb_fields_determine_bytes(bpb: Fat16Bpb)
    requires
        bpb.wf(),
    ensures
        (spec_u16_le(bpb@, 0x0B) & 0xff) as u8 == bpb@[0x0B],
        ((spec_u16_le(bpb@, 0x0B) >> 8) & 0xff) as u8 == bpb@[0x0C],
        (spec_u16_le(bpb@, 0x0E) & 0xff) as u8 == bpb@[0x0E],
        ((spec_u16_le(bpb@, 0x0E) >> 8) & 0xff) as u8 == bpb@[0x0F],
        (spec_u16_le(bpb@, 0x11) & 0xff) as u8 == bpb@[0x11],
        ((spec_u16_le(bpb@, 0x11) >> 8) & 0xff) as u8 == bpb@[0x12],
        (spec_u16_le(bpb@, 0x13) & 0xff) as u8 == bpb@[0x13],
        ((spec_u16_le(bpb@, 0x13) >> 8) & 0xff) as u8 == bpb@[0x14],
        (spec_u16_le(bpb@, 0x16) & 0xff) as u8 == bpb@[0x16],
        ((spec_u16_le(bpb@, 0x16) >> 8) & 0xff) as u8 == bpb@[0x17],
        (spec_u16_le(bpb@, 0x18) & 0xff) as u8 == bpb@[0x18],
        ((spec_u16_le(bpb@, 0x18) >> 8) & 0xff) as u8 == bpb@[0x19],
        (spec_u16_le(bpb@, 0x1A) & 0xff) as u8 == bpb@[0x1A],
        ((spec_u16_le(bpb@, 0x1A) >> 8) & 0xff) as u8 == bpb@[0x1B],
        (spec_u32_le(bpb@, 0x1C) & 0xff) as u8 == bpb@[0x1C],
        ((spec_u32_le(bpb@, 0x1C) >> 8) & 0xff) as u8 == bpb@[0x1D],
        ((spec_u32_le(bpb@, 0x1C) >> 16) & 0xff) as u8 == bpb@[0x1E],
        ((spec_u32_le(bpb@, 0x1C) >> 24) & 0xff) as u8 == bpb@[0x1F],
        (spec_u32_le(bpb@, 0x20) & 0xff) as u8 == bpb@[0x20],
        ((spec_u32_le(bpb@, 0x20) >> 8) & 0xff) as u8 == bpb@[0x21],
        ((spec_u32_le(bpb@, 0x20) >> 16) & 0xff) as u8 == bpb@[0x22],
        ((spec_u32_le(bpb@, 0x20) >> 24) & 0xff) as u8 == bpb@[0x23],
        (spec_u32_le(bpb@, 0x27) & 0xff) as u8 == bpb@[0x27],
        ((spec_u32_le(bpb@, 0x27) >> 8) & 0xff) as u8 == bpb@[0x28],
        ((spec_u32_le(bpb@, 0x27) >> 16) & 0xff) as u8 == bpb@[0x29],
        ((spec_u32_le(bpb@, 0x27) >> 24) & 0xff) as u8 == bpb@[0x2A],
        (spec_u16_le(bpb@, 0x1FE) & 0xff) as u8 == bpb@[0x1FE],
        ((spec_u16_le(bpb@, 0x1FE) >> 8) & 0xff) as u8 == bpb@[0x1FF],
{
    crate::bytes::lemma_u16_le_bytes(bpb@, 0x0B);
    crate::bytes::lemma_u16_le_bytes(bpb@, 0x0E);
    crate::bytes::lemma_u16_le_bytes(bpb@, 0x11);
    crate::bytes::lemma_u16_le_bytes(bpb@, 0x13);
    crate::bytes::lemma_u16_le_bytes(bpb@, 0x16);
    crate::bytes::lemma_u16_le_bytes(bpb@, 0x18);
    crate::bytes::lemma_u16_le_bytes(bpb@, 0x1A);
    crate::bytes::lemma_u32_le_bytes(bpb@, 0x1C);
    crate::bytes::lemma_u32_le_bytes(bpb@, 0x20);
    crate::bytes::lemma_u32_le_bytes(bpb@, 0x27);
    crate::bytes::lemma_u16_le_bytes(bpb@, 0x1FE);
}

} // verus!
