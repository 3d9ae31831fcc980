use checked_wipe::inventory::{parse_partitions, DiskData, InventoryError, PartitionData};

const SDA_HEADER: &str = "Disk /dev/sda: 3.64 TiB, 4000787030016 bytes, 7814037168 sectors";

#[test]
fn one_device_one_partition() {
    let report = format!(
        "{}\n/dev/sda1  2048  7814037134  7814035087  3.6T  Linux filesystem\n",
        SDA_HEADER
    );
    let mut drives: Vec<DiskData> = Vec::new();
    assert_eq!(parse_partitions(report.as_bytes(), b"", &mut drives), Ok(()));
    assert_eq!(drives.len(), 1);
    assert_eq!(drives[0].path, "/dev/sda");
    assert_eq!(drives[0].partitions.len(), 1);
    let p = &drives[0].partitions[0];
    assert_eq!(p.start, 2048);
    assert_eq!(p.end, 7814037134);
    assert_eq!(p.id, "/dev/sda1");
    assert_eq!(p.size, "3.6T");
    assert_eq!(p.fstype, "Linux");
    assert!(!p.is_mounted);
}

#[test]
fn header_fields() {
    let d = DiskData::new(SDA_HEADER.as_bytes()).unwrap();
    assert_eq!(d.path, "/dev/sda");
    assert_eq!(d.size, "3.64");
    assert_eq!(d.size_unit, "TiB");
    assert_eq!(d.bytes, 4000787030016);
    assert!(d.partitions.is_empty());
}

#[test]
fn header_without_trailing_sectors() {
    let d = DiskData::new(b"Disk /dev/nvme0n1: 931.51 GiB, 1000204886016 bytes").unwrap();
    assert_eq!(d.path, "/dev/nvme0n1");
    assert_eq!(d.size, "931.51");
    assert_eq!(d.size_unit, "GiB");
    assert_eq!(d.bytes, 1000204886016);
}

#[test]
fn lines_that_are_not_headers() {
    assert!(DiskData::new(b"Disk model: Samsung SSD").is_none());
    assert!(DiskData::new(b"Disk identifier: 0x1234abcd").is_none());
    assert!(DiskData::new(b"Disk /dev/sda: 3.64 TiB, many bytes").is_none());
    assert!(DiskData::new(b"").is_none());
}

#[test]
fn regular_row() {
    let p = PartitionData::new(b"/dev/sdb2\t4096\t8191\t4096\t2M\tswap", b"").unwrap();
    assert_eq!(p.id, "/dev/sdb2");
    assert_eq!(p.start, 4096);
    assert_eq!(p.end, 8191);
    assert_eq!(p.size, "2M");
    assert_eq!(p.fstype, "swap");
}

#[test]
fn bootable_row() {
    let p = PartitionData::new(b"/dev/sdb1  *  2048  4095  2048  1M  EFI", b"").unwrap();
    assert_eq!(p.id, "/dev/sdb1");
    assert_eq!(p.start, 2048);
    assert_eq!(p.end, 4095);
    assert_eq!(p.size, "1M");
    assert_eq!(p.fstype, "EFI");
}

#[test]
fn row_mount_flag_from_table() {
    let table = b"/dev/sdb1 /boot vfat rw 0 0\n";
    let p = PartitionData::new(b"/dev/sdb1 2048 4095 2048 1M EFI", table).unwrap();
    assert!(p.is_mounted);
    let q = PartitionData::new(b"/dev/sdb2 4096 8191 4096 2M swap", table).unwrap();
    assert!(!q.is_mounted);
}

#[test]
fn malformed_rows_are_skipped() {
    assert!(PartitionData::new(b"/dev/sda1 2048", b"").is_none());
    assert!(PartitionData::new(b"/dev/sda1 x 10 11 1M ext4", b"").is_none());
    assert!(PartitionData::new(b"/dev/sda1 30 20 11 1M ext4", b"").is_none());
    assert!(PartitionData::new(b"/dev/sda1 1 99999999999999999999 11 1M ext4", b"").is_none());
    let report = format!("{}\n/dev/sda1 two 3 4 5 six\n", SDA_HEADER);
    let mut drives: Vec<DiskData> = Vec::new();
    assert_eq!(parse_partitions(report.as_bytes(), b"", &mut drives), Ok(()));
    assert_eq!(drives.len(), 1);
    assert!(drives[0].partitions.is_empty());
}

#[test]
fn partitions_belong_to_their_device() {
    let report = "Disk /dev/sda: 10 GiB, 10737418240 bytes\n\
                  Disk model: Example\n\
                  Device     Start   End Sectors Size Type\n\
                  /dev/sda1   2048  4095    2048   1M BIOS\n\
                  /dev/sda2   4096  8191    4096   2M Linux\n\
                  \n\
                  Disk /dev/sdb: 20 GiB, 21474836480 bytes\n\
                  /dev/sdb1 * 2048  9999    7952   4M Linux\n";
    let mut drives: Vec<DiskData> = Vec::new();
    assert_eq!(parse_partitions(report.as_bytes(), b"", &mut drives), Ok(()));
    assert_eq!(drives.len(), 2);
    assert_eq!(drives[0].partitions.len(), 2);
    assert_eq!(drives[1].partitions.len(), 1);
    for d in drives.iter() {
        for p in d.partitions.iter() {
            assert!(p.id.starts_with(&d.path));
            assert!(p.start <= p.end);
        }
    }
    assert_eq!(drives[1].partitions[0].id, "/dev/sdb1");
    assert_eq!(drives[1].bytes, 21474836480);
}

#[test]
fn unpartitioned_device() {
    let mut drives: Vec<DiskData> = Vec::new();
    let report = b"Disk /dev/sdc: 1 GiB, 1073741824 bytes, 2097152 sectors\n";
    assert_eq!(parse_partitions(report, b"", &mut drives), Ok(()));
    assert_eq!(drives.len(), 1);
    assert!(drives[0].partitions.is_empty());
}

#[test]
fn report_that_is_not_text() {
    let mut drives: Vec<DiskData> = Vec::new();
    let report: &[u8] = &[68, 105, 115, 107, 32, 0xff, 0xfe, 10];
    assert_eq!(parse_partitions(report, b"", &mut drives), Err(InventoryError::NotText));
    assert!(drives.is_empty());
}

#[test]
fn empty_report() {
    let mut drives: Vec<DiskData> = Vec::new();
    assert_eq!(parse_partitions(b"", b"", &mut drives), Ok(()));
    assert!(drives.is_empty());
}

#[test]
fn add_partition_appends() {
    let mut d = DiskData::new(SDA_HEADER.as_bytes()).unwrap();
    let p = PartitionData::new(b"/dev/sda1 2048 4095 2048 1M EFI", b"").unwrap();
    d.add_partition(p);
    assert_eq!(d.partitions.len(), 1);
    assert_eq!(d.partitions[0].end, 4095);
}
