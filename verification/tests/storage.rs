//! Tests of the storage stack: boot parameter block, directory entries,
//! short filenames, the MBR, and file reads over an in-memory disk.

use ysos::blockdev::{Block, BlockDevice, MemDisk, Partition};
use ysos::bpb::Fat16Bpb;
use ysos::direntry::{parse_datetime, DirEntry, FsTime, ShortFileName};
use ysos::fat16::Fat16Impl;
use ysos::file::File;
use ysos::mbr::{get_partition_type_name, MbrTable};
use ysos::FsError;
use ysos::FilenameError;

fn hex(s: &str) -> Vec<u8> {
    let mut out = Vec::new();
    let mut nibbles: Vec<u8> = Vec::new();
    for c in s.chars() {
        if let Some(d) = c.to_digit(16) {
            nibbles.push(d as u8);
        }
    }
    let mut i = 0;
    while i + 1 < nibbles.len() {
        out.push((nibbles[i] << 4) | nibbles[i + 1]);
        i += 2;
    }
    out
}

#[test]
fn test_fat16_bpb_1() {
    // Taken from a bootable SD card image.
    let data = hex(
        "EB 3C 90 6D 6B 66 73 2E 66 61 74 00 02 10 01 00
        02 00 02 00 00 F8 20 00 3F 00 FF 00 00 00 00 00
        00 E0 01 00 80 01 29 BB B0 71 77 62 6F 6F 74 20
        20 20 20 20 20 20 46 41 54 31 36 20 20 20 0E 1F
        BE 5B 7C AC 22 C0 74 0B 56 B4 0E BB 07 00 CD 10
        5E EB F0 32 E4 CD 16 CD 19 EB FE 54 68 69 73 20
        69 73 20 6E 6F 74 20 61 20 62 6F 6F 74 61 62 6C
        65 20 64 69 73 6B 2E 20 20 50 6C 65 61 73 65 20
        69 6E 73 65 72 74 20 61 20 62 6F 6F 74 61 62 6C
        65 20 66 6C 6F 70 70 79 20 61 6E 64 0D 0A 70 72
        65 73 73 20 61 6E 79 20 6B 65 79 20 74 6F 20 74
        72 79 20 61 67 61 69 6E 20 2E 2E 2E 20 0D 0A 00",
    );
    let mut bpb_data = data;
    bpb_data.resize(510, 0u8);
    bpb_data.extend_from_slice(&[0x55, 0xAA]);

    let bpb = Fat16Bpb::new(&bpb_data).unwrap();

    assert_eq!(bpb.oem_name(), b"mkfs.fat".to_vec());
    assert_eq!(bpb.bytes_per_sector(), 512);
    assert_eq!(bpb.sectors_per_cluster(), 16);
    assert_eq!(bpb.reserved_sector_count(), 1);
    assert_eq!(bpb.fat_count(), 2);
    assert_eq!(bpb.root_entries_count(), 512);
    assert_eq!(bpb.total_sectors_16(), 0);
    assert_eq!(bpb.media_descriptor(), 0xf8);
    assert_eq!(bpb.sectors_per_fat(), 32);
    assert_eq!(bpb.sectors_per_track(), 63);
    assert_eq!(bpb.track_count(), 255);
    assert_eq!(bpb.hidden_sectors(), 0);
    assert_eq!(bpb.total_sectors_32(), 0x1e000);
    assert_eq!(bpb.drive_number(), 128);
    assert_eq!(bpb.reserved_flags(), 1);
    assert_eq!(bpb.boot_signature(), 0x29);
    assert_eq!(bpb.volume_id(), 0x7771b0bb);
    assert_eq!(bpb.volume_label(), b"boot       ".to_vec());
    assert_eq!(bpb.system_identifier(), b"FAT16   ".to_vec());

    assert_eq!(bpb.total_sectors(), 0x1e000);

    println!("{:#?}", bpb);
}

#[test]
fn test_fat16_bpb_2() {
    // Taken from an emulator's virtual FAT volume.
    let data = hex(
        "EB 3E 90 4D 53 57 49 4E 34 2E 31 00 02 10 01 00
        02 00 02 00 00 F8 FC 00 3F 00 10 00 3F 00 00 00
        C1 BF 0F 00 80 00 29 FD 1A BE FA 51 45 4D 55 20
        56 56 46 41 54 20 46 41 54 31 36 20 20 20 00 00",
    );
    let mut bpb_data = data;
    bpb_data.resize(510, 0u8);
    bpb_data.extend_from_slice(&[0x55, 0xAA]);

    let bpb = Fat16Bpb::new(&bpb_data).unwrap();

    assert_eq!(bpb.oem_name(), b"MSWIN4.1".to_vec());
    assert_eq!(bpb.oem_name_str(), "MSWIN4.1");
    assert_eq!(bpb.bytes_per_sector(), 512);
    assert_eq!(bpb.sectors_per_cluster(), 16);
    assert_eq!(bpb.reserved_sector_count(), 1);
    assert_eq!(bpb.fat_count(), 2);
    assert_eq!(bpb.root_entries_count(), 512);
    assert_eq!(bpb.total_sectors_16(), 0);
    assert_eq!(bpb.media_descriptor(), 0xf8);
    assert_eq!(bpb.sectors_per_fat(), 0xfc);
    assert_eq!(bpb.sectors_per_track(), 63);
    assert_eq!(bpb.track_count(), 16);
    assert_eq!(bpb.hidden_sectors(), 63);
    assert_eq!(bpb.total_sectors_32(), 0xfbfc1);
    assert_eq!(bpb.drive_number(), 128);
    assert_eq!(bpb.reserved_flags(), 0);
    assert_eq!(bpb.boot_signature(), 0x29);
    assert_eq!(bpb.volume_id(), 0xfabe1afd);
    assert_eq!(bpb.volume_label(), b"QEMU VVFAT ".to_vec());
    assert_eq!(bpb.volume_label_str(), "QEMU VVFAT ");
    assert_eq!(bpb.system_identifier(), b"FAT16   ".to_vec());
    assert_eq!(bpb.system_identifier_str(), "FAT16   ");

    assert_eq!(bpb.total_sectors(), 0xfbfc1);

    println!("{:#?}", bpb);
}

#[test]
fn test_dir_entry() {
    let data = hex(
        "4b 45 52 4e 45 4c 20 20 45 4c 46 20 00 00 0f be
         d0 50 d0 50 00 00 0f be d0 50 02 00 f0 e4 0e 00",
    );

    let res = DirEntry::parse(&data).unwrap();

    assert_eq!(res.filename.name, b"KERNEL  ".to_vec());
    assert_eq!(res.filename.ext, b"ELF".to_vec());
    assert_eq!(res.attributes.bits(), 0x20);
    assert_eq!(res.cluster.0, 2);
    assert_eq!(res.size, 0xee4f0);
    assert_eq!(res.created_time, FsTime::new(2020, 6, 16, 23, 48, 30));
    assert_eq!(res.modified_time, FsTime::new(2020, 6, 16, 23, 48, 30));
    assert_eq!(res.accessed_time, FsTime::new(2020, 6, 16, 0, 0, 0));

    println!("{:#?}", res);
}

#[test]
fn bpb_rejects_bad_trail() {
    let mut data = vec![0u8; 512];
    data[510] = 0x12;
    data[511] = 0x34;
    assert_eq!(Fat16Bpb::new(&data).unwrap_err(), FsError::InvalidOperation);
    assert_eq!(
        Fat16Bpb::new(&vec![0u8; 100]).unwrap_err(),
        FsError::InvalidOperation
    );
}

#[test]
fn short_filename_round_trip() {
    let sfn = ShortFileName::parse("kernel.elf").unwrap();
    assert_eq!(sfn.name, b"KERNEL  ".to_vec());
    assert_eq!(sfn.ext, b"ELF".to_vec());
    assert_eq!(sfn.format_text(), "KERNEL.ELF");

    let plain = ShortFileName::parse("boot").unwrap();
    assert_eq!(plain.format_text(), "BOOT");

    let dotted = ShortFileName::parse(".cfg").unwrap();
    assert_eq!(dotted.format_text(), ".CFG");
}

#[test]
fn short_filename_errors() {
    assert_eq!(
        ShortFileName::parse("").unwrap_err(),
        FsError::FilenameError(FilenameError::Empty)
    );
    assert_eq!(
        ShortFileName::parse("bad*name").unwrap_err(),
        FsError::FilenameError(FilenameError::InvalidCharacter)
    );
    assert_eq!(
        ShortFileName::parse("with space").unwrap_err(),
        FsError::FilenameError(FilenameError::InvalidCharacter)
    );
    assert_eq!(
        ShortFileName::parse("muchtoolongname").unwrap_err(),
        FsError::FilenameError(FilenameError::TooLong)
    );
    assert_eq!(
        ShortFileName::parse("muchtoolong.txt").unwrap_err(),
        FsError::FilenameError(FilenameError::MisplacedPeriod)
    );
    assert_eq!(
        ShortFileName::parse("a.toolong").unwrap_err(),
        FsError::FilenameError(FilenameError::TooLong)
    );
}

#[test]
fn datetime_parsing() {
    // 2020-06-16, 23:48:30: the fields of the directory entry test above.
    assert_eq!(parse_datetime(0x50d0, 0xbe0f), FsTime::new(2020, 6, 16, 23, 48, 30));
    // A month of zero is not a date: the epoch stands in.
    assert_eq!(parse_datetime(0x0010, 0), FsTime::new(1970, 1, 1, 0, 0, 0));
    // June has no 31st day.
    assert_eq!(parse_datetime((40u16 << 9) | (6 << 5) | 31, 0), FsTime::new(1970, 1, 1, 0, 0, 0));
    // February 29th exists exactly in leap years.
    assert_eq!(
        parse_datetime((40u16 << 9) | (2 << 5) | 29, 0),
        FsTime::new(2020, 2, 29, 0, 0, 0)
    );
    assert_eq!(parse_datetime((41u16 << 9) | (2 << 5) | 29, 0), FsTime::new(1970, 1, 1, 0, 0, 0));
}

/// A 16-sector disk with one FAT16 volume: one reserved sector, one FAT
/// sector, one root directory sector, and data from sector 3 on. It holds
/// `HELLO.TXT` (14 bytes, cluster 2) and `BIG.BIN` (600 bytes, clusters
/// 4 and 5).
fn make_disk() -> MemDisk {
    let mut disk = MemDisk::new(16);

    let mut bpb = vec![0u8; 512];
    bpb[0x0B] = 0x00;
    bpb[0x0C] = 0x02; // 512 bytes per sector
    bpb[0x0D] = 1; // one sector per cluster
    bpb[0x0E] = 1; // one reserved sector
    bpb[0x10] = 1; // one FAT
    bpb[0x11] = 16; // sixteen root entries: one root sector
    bpb[0x13] = 16; // sixteen sectors in all
    bpb[0x15] = 0xF8;
    bpb[0x16] = 1; // one sector per FAT
    bpb[510] = 0x55;
    bpb[511] = 0xAA;
    disk.write_block(0, &Block::from_vec(bpb)).unwrap();

    let mut fat = vec![0u8; 512];
    let entries: [u16; 6] = [0xFFF8, 0xFFFF, 0xFFFF, 0x0000, 0x0005, 0xFFFF];
    for (i, e) in entries.iter().enumerate() {
        fat[2 * i] = (e & 0xFF) as u8;
        fat[2 * i + 1] = (e >> 8) as u8;
    }
    disk.write_block(1, &Block::from_vec(fat)).unwrap();

    let mut root = vec![0u8; 512];
    root[0..11].copy_from_slice(b"HELLO   TXT");
    root[11] = 0x20;
    root[26] = 2; // first cluster
    root[28] = 14; // size
    root[32..43].copy_from_slice(b"BIG     BIN");
    root[32 + 11] = 0x20;
    root[32 + 26] = 4;
    root[32 + 28] = (600 & 0xFF) as u8;
    root[32 + 29] = (600 >> 8) as u8;
    disk.write_block(2, &Block::from_vec(root)).unwrap();

    let mut hello = vec![0u8; 512];
    hello[0..14].copy_from_slice(b"hello, fat16!\n");
    disk.write_block(3, &Block::from_vec(hello)).unwrap();

    let mut big1 = vec![0u8; 512];
    for i in 0..512 {
        big1[i] = (i % 251) as u8;
    }
    disk.write_block(5, &Block::from_vec(big1)).unwrap();
    let mut big2 = vec![0u8; 512];
    for i in 0..512 {
        big2[i] = ((i + 7) % 251) as u8;
    }
    disk.write_block(6, &Block::from_vec(big2)).unwrap();

    disk
}

#[test]
fn fat16_geometry() {
    let fs = Fat16Impl::new(make_disk()).unwrap();
    // The root directory region ends where the data region begins.
    assert_eq!(fs.cluster_to_sector(&ysos::direntry::Cluster(ysos::direntry::CLUSTER_ROOT_DIR)), 2);
    assert_eq!(fs.cluster_to_sector(&ysos::direntry::Cluster(2)), 3);
    assert_eq!(fs.cluster_to_sector(&ysos::direntry::Cluster(4)), 5);
    assert_eq!(fs.get_next_cluster(2).unwrap(), None);
    assert_eq!(fs.get_next_cluster(4).unwrap(), Some(5));
    assert_eq!(fs.get_next_cluster(5).unwrap(), None);
}

#[test]
fn fat16_read_dir_and_find() {
    let fs = Fat16Impl::new(make_disk()).unwrap();
    let root = ysos::direntry::Cluster(ysos::direntry::CLUSTER_ROOT_DIR);
    let entries = fs.read_dir_entries(&root).unwrap();
    assert_eq!(entries.len(), 2);
    assert_eq!(entries[0].filename.name, b"HELLO   ".to_vec());
    assert_eq!(entries[1].filename.name, b"BIG     ".to_vec());

    let found = fs.find_entry(&root, "hello.txt").unwrap().unwrap();
    assert_eq!(found.size, 14);
    assert!(fs.find_entry(&root, "missing.txt").unwrap().is_none());

    let by_path = fs.find_path("/hello.txt").unwrap().unwrap();
    assert_eq!(by_path.cluster.0, 2);
    assert!(fs.find_path("/no/such").unwrap().is_none());
    assert!(fs.find_path("").unwrap().is_none());
}

#[test]
fn file_read_to_eof() {
    let fs = Fat16Impl::new(make_disk()).unwrap();
    let root = ysos::direntry::Cluster(ysos::direntry::CLUSTER_ROOT_DIR);
    let entry = fs.find_entry(&root, "hello.txt").unwrap().unwrap();
    let mut file = File::new(fs.duplicate(), entry);
    assert_eq!(file.length(), 14);

    let mut buf = [0u8; 32];
    // Reading to the end hands back exactly the bytes that remain.
    let n = file.read(&mut buf[..]).unwrap();
    assert_eq!(n, 14);
    assert_eq!(&buf[..14], b"hello, fat16!\n");
    // Reading past the end hands back nothing.
    let n2 = file.read(&mut buf[..]).unwrap();
    assert_eq!(n2, 0);
}

#[test]
fn file_read_across_clusters() {
    let fs = Fat16Impl::new(make_disk()).unwrap();
    let root = ysos::direntry::Cluster(ysos::direntry::CLUSTER_ROOT_DIR);
    let entry = fs.find_entry(&root, "big.bin").unwrap().unwrap();
    let mut file = File::new(fs.duplicate(), entry);
    assert_eq!(file.length(), 600);

    let mut buf = [0u8; 256];
    let mut collected: Vec<u8> = Vec::new();
    loop {
        let n = file.read(&mut buf[..]).unwrap();
        if n == 0 {
            break;
        }
        collected.extend_from_slice(&buf[..n]);
    }
    assert_eq!(collected.len(), 600);
    assert_eq!(collected[0], 0);
    assert_eq!(collected[511], (511 % 251) as u8);
    assert_eq!(collected[512], 7 % 251);
    assert_eq!(collected[599], ((599 - 512 + 7) % 251) as u8);
}

#[test]
fn fat16_read_file_data_window() {
    let fs = Fat16Impl::new(make_disk()).unwrap();
    let mut buf = [0u8; 8];
    // A window in the middle of the chain starting at cluster 2: the chain
    // is a whole cluster, so the window is filled past the text with the
    // cluster's zero padding.
    let n = fs.read_file_data(2, 7, &mut buf[..]).unwrap();
    assert_eq!(n, 8);
    assert_eq!(&buf[..7], b"fat16!\n");
    assert_eq!(buf[7], 0);
}

#[test]
fn mbr_partitions() {
    let mut disk = MemDisk::new(16);
    let mut sector0 = vec![0u8; 512];
    sector0[0x1BE] = 0x80; // active
    sector0[0x1BE + 4] = 0x06; // FAT16
    sector0[0x1BE + 8] = 1; // first block
    sector0[0x1BE + 12] = 15; // block count
    sector0[510] = 0x55;
    sector0[511] = 0xAA;
    disk.write_block(0, &Block::from_vec(sector0)).unwrap();
    let mut marker = vec![0u8; 512];
    marker[0] = 0xAB;
    disk.write_block(1, &Block::from_vec(marker)).unwrap();

    let table = MbrTable::parse(disk).unwrap();
    let parts = table.partitions().unwrap();
    assert_eq!(parts.len(), 1);

    let mut block = Block::new();
    parts[0].read_block(0, &mut block).unwrap();
    assert_eq!(block.as_slice()[0], 0xAB);
    assert_eq!(
        parts[0].read_block(15, &mut block).unwrap_err(),
        FsError::InvalidOffset
    );
    assert_eq!(get_partition_type_name(0x06), "FAT16");
}

#[test]
fn partition_rejects_out_of_range() {
    let disk = MemDisk::new(8);
    let part = Partition::new(disk, 2, 4);
    let mut block = Block::new();
    assert!(part.read_block(3, &mut block).is_ok());
    assert_eq!(part.read_block(4, &mut block).unwrap_err(), FsError::InvalidOffset);
}

#[test]
fn mount_and_list() {
    let mut disk = MemDisk::new(32);
    let mut mbr = vec![0u8; 512];
    mbr[0x1BE] = 0x80;
    mbr[0x1BE + 4] = 0x06;
    mbr[0x1BE + 8] = 1;
    mbr[0x1BE + 12] = 16;
    mbr[510] = 0x55;
    mbr[511] = 0xAA;
    disk.write_block(0, &Block::from_vec(mbr)).unwrap();
    let mut bpb = vec![0u8; 512];
    bpb[0x0C] = 0x02;
    bpb[0x0D] = 1;
    bpb[0x0E] = 1;
    bpb[0x10] = 1;
    bpb[0x11] = 16;
    bpb[0x13] = 16;
    bpb[0x16] = 1;
    bpb[510] = 0x55;
    bpb[511] = 0xAA;
    disk.write_block(1, &Block::from_vec(bpb)).unwrap();
    let mut fat = vec![0u8; 512];
    fat[0] = 0xF8;
    fat[1] = 0xFF;
    fat[2] = 0xFF;
    fat[3] = 0xFF;
    fat[4] = 0xFF;
    fat[5] = 0xFF;
    disk.write_block(2, &Block::from_vec(fat)).unwrap();
    let mut root = vec![0u8; 512];
    root[0..11].copy_from_slice(b"BOOT    CFG");
    root[11] = 0x20;
    root[26] = 2;
    root[28] = 5;
    disk.write_block(3, &Block::from_vec(root)).unwrap();
    let mut content = vec![0u8; 512];
    content[0..5].copy_from_slice(b"hello");
    disk.write_block(4, &Block::from_vec(content)).unwrap();

    let fs = ysos::filesystem::init(disk).unwrap();
    let metas = ysos::filesystem::ls(&fs, "").unwrap();
    assert_eq!(metas.len(), 1);
    assert_eq!(metas[0].name, "BOOT.CFG");
    assert_eq!(metas[0].len, 5);
    assert!(matches!(
        ysos::filesystem::ls(&fs, "/boot.cfg"),
        Err(FsError::NotADirectory)
    ));
}
