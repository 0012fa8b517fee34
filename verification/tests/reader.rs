use flate2::write::ZlibEncoder;
use flate2::Compression;
use std::io::Write;
use vmdkrs::bytessource::MemSource;
use vmdkrs::descriptor::read_image_descriptor;
use vmdkrs::errors::OpenErrorKind;
use vmdkrs::extent_description::{
    extract_extent_descriptions, AccessMode, ExtentDescription, ExtentDescriptionInner,
};
use vmdkrs::vmdk_reader::{
    extent_urls, is_lone_sparse_file, parent_url, ReadError, VmdkBuilder, VmdkReader,
};
use vmdkrs::extents::read_extent;
use vmdkrs::header::FileType;
use vmdkrs::storage::ExtentStorage;

const SECTOR: usize = 512;

fn put_u32(b: &mut [u8], at: usize, v: u32) {
    b[at..at + 4].copy_from_slice(&v.to_le_bytes());
}

fn put_u64(b: &mut [u8], at: usize, v: u64) {
    b[at..at + 8].copy_from_slice(&v.to_le_bytes());
}

fn fill(b: &mut [u8], from_sector: usize, sectors: usize, v: u8) {
    for x in &mut b[from_sector * SECTOR..(from_sector + sectors) * SECTOR] {
        *x = v;
    }
}

/// A VMDK4 sparse file of 16 sectors with grains of 2 sectors and grain
/// tables of 4 entries; `gt` gives the grain table entries, `desc` the
/// embedded descriptor.
fn vmdk4_file(flags: u32, gt: [u32; 8], desc: &str, sectors: usize) -> Vec<u8> {
    let mut b = vec![0u8; sectors * SECTOR];
    b[0..4].copy_from_slice(b"KDMV");
    put_u32(&mut b, 4, 1);
    put_u32(&mut b, 8, flags);
    put_u64(&mut b, 12, 16); // capacity
    put_u64(&mut b, 20, 2); // granularity
    put_u64(&mut b, 28, 1); // descriptor offset
    put_u64(&mut b, 36, 1); // descriptor size
    put_u32(&mut b, 44, 4); // grain table entries
    put_u64(&mut b, 56, 2); // grain directory
    put_u64(&mut b, 64, 5); // grains
    b[73..77].copy_from_slice(b"\n \r\n"); // line-check bytes
    b[SECTOR..SECTOR + desc.len()].copy_from_slice(desc.as_bytes());
    put_u32(&mut b, 2 * SECTOR, 3);
    put_u32(&mut b, 2 * SECTOR + 4, 4);
    // grain table i / 4 sits in sector 3 + i / 4
    for (i, e) in gt.iter().enumerate() {
        put_u32(&mut b, (3 + i / 4) * SECTOR + 4 * (i % 4), *e);
    }
    b
}

fn sparse_child(parent_hint: bool) -> Vec<u8> {
    let mut desc = String::from("# Disk DescriptorFile\nversion=1\nCID=fffffffe\n");
    if parent_hint {
        desc.push_str("parentFileNameHint=\"parent.vmdk\"\n");
    }
    desc.push_str("createType=\"monolithicSparse\"\n\n# Extent description\nRW 16 SPARSE \"child.vmdk\"\n");
    let mut b = vmdk4_file(0x1, [5, 0, 7, 0, 0, 9, 0, 0], &desc, 11);
    fill(&mut b, 5, 2, 0xA1);
    fill(&mut b, 7, 2, 0xA2);
    fill(&mut b, 9, 2, 0xA5);
    b
}

fn open_single(file: Vec<u8>) -> VmdkReader<MemSource> {
    let src = MemSource::new(file);
    let desc = read_image_descriptor(&src).unwrap();
    let eds = extract_extent_descriptions(&desc).unwrap();
    let (b, _) = VmdkBuilder::new().add_image(&eds, vec![Some(src)]).unwrap();
    b.finish("image.vmdk".to_string())
}

fn read_all(r: &mut VmdkReader<MemSource>, chunk: usize) -> Vec<u8> {
    let mut out = Vec::new();
    let mut buf = vec![0u8; chunk];
    let mut offset = 0u64;
    while offset < r.image_size() {
        let n = r.read_at_offset(offset, &mut buf).unwrap();
        assert!(n > 0);
        out.extend_from_slice(&buf[..n]);
        offset += n as u64;
    }
    out
}

fn expected(runs: &[(usize, u8)]) -> Vec<u8> {
    let mut v = Vec::new();
    for (n, b) in runs {
        v.extend(std::iter::repeat(*b).take(*n));
    }
    v
}

#[test]
fn monolithic_sparse_reads_grains_and_zeros() {
    let mut r = open_single(sparse_child(false));
    assert_eq!(r.image_size(), 8192);
    assert_eq!(r.image_path(), "image.vmdk");
    let all = read_all(&mut r, 700);
    assert_eq!(
        all,
        expected(&[(1024, 0xA1), (1024, 0), (1024, 0xA2), (2048, 0), (1024, 0xA5), (2048, 0)])
    );
}

#[test]
fn read_stops_at_image_end() {
    let mut r = open_single(sparse_child(false));
    let mut buf = vec![7u8; 4096];
    let n = r.read_at_offset(6144, &mut buf).unwrap();
    assert_eq!(n, 2048);
    assert!(buf[..2048].iter().all(|&x| x == 0));
    assert!(buf[2048..].iter().all(|&x| x == 7));
}

#[test]
fn read_at_image_end_reads_nothing() {
    let mut r = open_single(sparse_child(false));
    let mut buf = vec![0u8; 16];
    assert_eq!(r.read_at_offset(8192, &mut buf).unwrap(), 0);
}

#[test]
fn read_past_image_end_is_an_error() {
    let mut r = open_single(sparse_child(false));
    let mut buf = vec![0u8; 16];
    assert!(matches!(
        r.read_at_offset(8193, &mut buf),
        Err(ReadError::OffsetBeyondEnd(8193, 8192))
    ));
    assert!(matches!(
        r.read_at_offset(u64::MAX, &mut buf),
        Err(ReadError::OffsetBeyondEnd(u64::MAX, 8192))
    ));
}

#[test]
fn read_across_grain_boundary() {
    let mut r = open_single(sparse_child(false));
    let mut buf = vec![0u8; 10];
    assert_eq!(r.read_at_offset(1019, &mut buf).unwrap(), 10);
    assert_eq!(buf, [0xA1, 0xA1, 0xA1, 0xA1, 0xA1, 0, 0, 0, 0, 0]);
}

#[test]
fn delta_link_takes_child_grains_over_parent() {
    let child = MemSource::new(sparse_child(true));
    let child_desc = read_image_descriptor(&child).unwrap();
    let eds = extract_extent_descriptions(&child_desc).unwrap();
    let (b, done) = VmdkBuilder::new().add_image(&eds, vec![Some(child)]).unwrap();
    assert!(!done);
    assert_eq!(
        parent_url("file:///images/child.vmdk", &child_desc).unwrap(),
        Some("file:///images/parent.vmdk".to_string())
    );
    let parent_desc = "# Disk DescriptorFile\nRW 16 FLAT \"parent-flat.vmdk\" 0\n";
    let peds = extract_extent_descriptions(parent_desc).unwrap();
    let (b, done) = b
        .add_image(&peds, vec![Some(MemSource::new(vec![0x50; 8192]))])
        .unwrap();
    assert!(done);
    let mut r = b.finish("child.vmdk".to_string());
    let all = read_all(&mut r, 4096);
    assert_eq!(
        all,
        expected(&[(1024, 0xA1), (1024, 0x50), (1024, 0xA2), (2048, 0x50), (1024, 0xA5), (2048, 0x50)])
    );
}

#[test]
fn zeroed_grain_hides_parent() {
    let desc = "# Disk DescriptorFile\nparentFileNameHint=\"p.vmdk\"\nRW 16 SPARSE \"c.vmdk\"\n";
    let mut file = vmdk4_file(0x1 | 0x4, [1, 5, 0, 0, 0, 0, 0, 0], desc, 7);
    fill(&mut file, 5, 2, 0x33);
    let child = MemSource::new(file);
    let eds = extract_extent_descriptions(&read_image_descriptor(&child).unwrap()).unwrap();
    let (b, _) = VmdkBuilder::new().add_image(&eds, vec![Some(child)]).unwrap();
    let peds = extract_extent_descriptions("RW 16 FLAT \"p-flat.vmdk\" 0\n").unwrap();
    let (b, _) = b.add_image(&peds, vec![Some(MemSource::new(vec![0x50; 8192]))]).unwrap();
    let mut r = b.finish("c.vmdk".to_string());
    let all = read_all(&mut r, 8192);
    assert_eq!(all, expected(&[(1024, 0), (1024, 0x33), (6144, 0x50)]));
}

#[test]
fn parent_of_another_size_is_refused() {
    let child = MemSource::new(sparse_child(true));
    let eds = extract_extent_descriptions(&read_image_descriptor(&child).unwrap()).unwrap();
    let (b, _) = VmdkBuilder::new().add_image(&eds, vec![Some(child)]).unwrap();
    let peds = extract_extent_descriptions("RW 8 FLAT \"p-flat.vmdk\" 0\n").unwrap();
    let e = b
        .add_image(&peds, vec![Some(MemSource::new(vec![0x50; 4096]))])
        .err()
        .unwrap();
    assert!(matches!(e.kind, OpenErrorKind::BadParentExtentDescriptorSize(8192, 4096)));
}

#[test]
fn flat_extents_follow_one_another() {
    let desc = "# Disk DescriptorFile\nRW 4 FLAT \"a-flat.vmdk\" 0\nRW 4 FLAT \"b-flat.vmdk\" 0\n";
    let eds = extract_extent_descriptions(desc).unwrap();
    let a = vec![0x11u8; 4 * SECTOR];
    let bfile = vec![0x22u8; 4 * SECTOR];
    let (b, done) = VmdkBuilder::new()
        .add_image(&eds, vec![Some(MemSource::new(a)), Some(MemSource::new(bfile))])
        .unwrap();
    assert!(done);
    let mut r = b.finish("f.vmdk".to_string());
    assert_eq!(r.image_size(), 4096);
    let all = read_all(&mut r, 1000);
    assert_eq!(all, expected(&[(2048, 0x11), (2048, 0x22)]));
}

#[test]
fn zero_extent_reads_zeros() {
    let mut eds = extract_extent_descriptions("RW 4 FLAT \"b-flat.vmdk\" 0\n").unwrap();
    eds.insert(
        0,
        ExtentDescription { access_mode: AccessMode::Rw, sectors: 4, kind: ExtentDescriptionInner::Zero },
    );
    let (b, _) = VmdkBuilder::new()
        .add_image(&eds, vec![None, Some(MemSource::new(vec![0x44; 4 * SECTOR]))])
        .unwrap();
    let mut r = b.finish("z.vmdk".to_string());
    let all = read_all(&mut r, 512);
    assert_eq!(all, expected(&[(2048, 0), (2048, 0x44)]));
}

#[test]
fn flat_file_too_short_is_an_io_error() {
    let eds = extract_extent_descriptions("RW 4 FLAT \"a-flat.vmdk\" 0\n").unwrap();
    let (b, _) = VmdkBuilder::new()
        .add_image(&eds, vec![Some(MemSource::new(vec![1u8; 1000]))])
        .unwrap();
    let mut r = b.finish("short.vmdk".to_string());
    let mut buf = vec![0u8; 2048];
    assert!(matches!(r.read_at_offset(0, &mut buf), Err(ReadError::IoError(_))));
}

#[test]
fn missing_file_is_a_bad_path() {
    let eds = extract_extent_descriptions("RW 4 FLAT \"a-flat.vmdk\" 0\n").unwrap();
    let e = VmdkBuilder::<MemSource>::new().add_image(&eds, vec![None]).err().unwrap();
    assert_eq!(e.path, "a-flat.vmdk");
    assert!(matches!(e.kind, OpenErrorKind::BadPath(ref p) if p == "a-flat.vmdk"));
}

#[test]
fn stream_optimized_grains_are_inflated() {
    let desc = "# Disk DescriptorFile\nRW 16 SPARSE \"s.vmdk\"\n";
    let mut file = vmdk4_file(0x1 | 0x10000, [5, 0, 0, 0, 0, 0, 0, 7], desc, 9);
    for (sector, byte) in [(5usize, 0x61u8), (7, 0x62)] {
        let mut enc = ZlibEncoder::new(Vec::new(), Compression::default());
        enc.write_all(&vec![byte; 1024]).unwrap();
        let z = enc.finish().unwrap();
        let at = sector * SECTOR;
        put_u64(&mut file, at, 0);
        put_u32(&mut file, at + 8, z.len() as u32);
        file[at + 12..at + 12 + z.len()].copy_from_slice(&z);
    }
    let mut r = open_single(file);
    let all = read_all(&mut r, 300);
    assert_eq!(all, expected(&[(1024, 0x61), (6144, 0), (1024, 0x62)]));
}

#[test]
fn cowd_sparse_reads_grains() {
    let mut file = vec![0u8; 6 * SECTOR];
    file[0..4].copy_from_slice(b"COWD");
    put_u32(&mut file, 4, 1);
    put_u32(&mut file, 12, 16); // disk sectors
    put_u32(&mut file, 16, 2); // granularity
    put_u32(&mut file, 20, 1); // grain directory sector
    put_u32(&mut file, 24, 1); // grain directory entries
    put_u32(&mut file, SECTOR, 2);
    put_u32(&mut file, 2 * SECTOR + 4, 4);
    fill(&mut file, 4, 2, 0xC3);
    let eds = extract_extent_descriptions("RW 16 SPARSE \"c.vmdk\"\n").unwrap();
    let (b, _) = VmdkBuilder::new().add_image(&eds, vec![Some(MemSource::new(file))]).unwrap();
    let mut r = b.finish("cowd.vmdk".to_string());
    let all = read_all(&mut r, 8192);
    assert_eq!(all, expected(&[(1024, 0), (1024, 0xC3), (6144, 0)]));
}

#[test]
fn sesparse_reads_grains() {
    let mut file = vec![0u8; 8 * SECTOR];
    file[0..8].copy_from_slice(&[0xBE, 0xBA, 0xFE, 0xCA, 0, 0, 0, 0]);
    put_u64(&mut file, 8, 2); // version
    put_u64(&mut file, 16, 16); // capacity
    put_u64(&mut file, 24, 2); // grain size
    put_u64(&mut file, 32, 1); // grain table size
    put_u64(&mut file, 128, 1); // grain directory offset
    put_u64(&mut file, 136, 1); // grain directory size
    put_u64(&mut file, 144, 2); // grain tables offset
    put_u64(&mut file, 192, 4); // grains offset
    put_u64(&mut file, SECTOR, 0x1000_0000_0000_0000);
    put_u64(&mut file, 2 * SECTOR, 0x3000_0000_0000_0000);
    put_u64(&mut file, 2 * SECTOR + 8, 0x1000_0000_0000_0000);
    put_u64(&mut file, 2 * SECTOR + 24, 0x3001_0000_0000_0000);
    fill(&mut file, 4, 2, 0xB0);
    fill(&mut file, 6, 2, 0xB1);
    let eds = extract_extent_descriptions("RW 16 SESPARSE \"se.vmdk\"\n").unwrap();
    let (b, _) = VmdkBuilder::new().add_image(&eds, vec![Some(MemSource::new(file))]).unwrap();
    let mut r = b.finish("se.vmdk".to_string());
    let all = read_all(&mut r, 8192);
    assert_eq!(all, expected(&[(1024, 0xB0), (2048, 0), (1024, 0xB1), (4096, 0)]));
}

#[test]
fn sesparse_bad_directory_entry_is_refused() {
    let mut file = vec![0u8; 8 * SECTOR];
    file[0..8].copy_from_slice(&[0xBE, 0xBA, 0xFE, 0xCA, 0, 0, 0, 0]);
    put_u64(&mut file, 16, 16);
    put_u64(&mut file, 24, 2);
    put_u64(&mut file, 32, 1);
    put_u64(&mut file, 128, 1);
    put_u64(&mut file, 136, 1);
    put_u64(&mut file, 144, 2);
    put_u64(&mut file, SECTOR, 0x5000_0000_0000_0000);
    let eds = extract_extent_descriptions("RW 16 SESPARSE \"se.vmdk\"\n").unwrap();
    let e = VmdkBuilder::new()
        .add_image(&eds, vec![Some(MemSource::new(file))])
        .err()
        .unwrap();
    assert!(matches!(e.kind, OpenErrorKind::IoError(_)));
}

#[test]
fn sparse_file_with_bad_signature_is_invalid() {
    let eds = extract_extent_descriptions("RW 16 SPARSE \"x.vmdk\"\n").unwrap();
    let e = VmdkBuilder::new()
        .add_image(&eds, vec![Some(MemSource::new(vec![0u8; 1024]))])
        .err()
        .unwrap();
    assert!(matches!(e.kind, OpenErrorKind::InvalidFileHeader));
}

#[test]
fn extent_urls_resolve_against_the_image() {
    let mut eds = extract_extent_descriptions("RW 4 FLAT \"a-flat.vmdk\" 0\n").unwrap();
    eds.insert(
        0,
        ExtentDescription { access_mode: AccessMode::Rw, sectors: 4, kind: ExtentDescriptionInner::Zero },
    );
    let urls = extent_urls("file:///images/disk.vmdk", &eds).unwrap();
    assert_eq!(urls, vec![None, Some("file:///images/a-flat.vmdk".to_string())]);
    let e = extent_urls("not a url", &eds).err().unwrap();
    assert!(matches!(e, OpenErrorKind::BadPath(ref p) if p == "a-flat.vmdk"));
}

#[test]
fn parent_url_without_hint() {
    assert_eq!(parent_url("s3://bucket/disk.vmdk", "# Disk DescriptorFile\n").unwrap(), None);
    assert_eq!(
        parent_url("s3://bucket/dir/disk.vmdk", "parentFileNameHint=\"base.vmdk\"\n").unwrap(),
        Some("s3://bucket/dir/base.vmdk".to_string())
    );
    assert!(matches!(
        parent_url("relative/disk.vmdk", "parentFileNameHint=\"base.vmdk\"\n"),
        Err(OpenErrorKind::BadPath(ref p)) if p == "base.vmdk"
    ));
}

#[test]
fn stream_optimized_with_directory_at_end_uses_the_footer() {
    let desc = "# Disk DescriptorFile\nRW 16 SPARSE \"s.vmdk\"\n";
    let mut file = vmdk4_file(0x1 | 0x10000, [5, 0, 0, 0, 0, 0, 0, 0], desc, 12);
    file[77..79].copy_from_slice(&1u16.to_le_bytes()); // deflate
    // the header's fields, read 1024 bytes before the end, hold the real header
    let header: Vec<u8> = file[4..79].to_vec();
    file[10 * SECTOR..10 * SECTOR + 75].copy_from_slice(&header);
    // the primary header puts the grain directory at the end
    put_u64(&mut file, 56, u64::MAX);
    let mut enc = ZlibEncoder::new(Vec::new(), Compression::default());
    enc.write_all(&vec![0x71u8; 1024]).unwrap();
    let z = enc.finish().unwrap();
    put_u32(&mut file, 5 * SECTOR + 8, z.len() as u32);
    file[5 * SECTOR + 12..5 * SECTOR + 12 + z.len()].copy_from_slice(&z);
    let mut r = open_single(file);
    let all = read_all(&mut r, 8192);
    assert_eq!(all, expected(&[(1024, 0x71), (7168, 0)]));
}

#[test]
fn lone_sparse_file_is_its_own_extent() {
    let one = extract_extent_descriptions("RW 16 SPARSE \"s.vmdk\"\n").unwrap();
    let two = extract_extent_descriptions("RW 16 SPARSE \"s.vmdk\"\nRW 16 SPARSE \"t.vmdk\"\n")
        .unwrap();
    assert!(is_lone_sparse_file(Some(FileType::Vmdk4), &one));
    assert!(!is_lone_sparse_file(None, &one));
    assert!(!is_lone_sparse_file(Some(FileType::Vmdk4), &two));
}

#[test]
fn read_extent_keeps_the_file_name() {
    let eds = extract_extent_descriptions("RW 2048 FLAT \"f.vmdk\" 7\n").unwrap();
    match read_extent(&eds[0], Some(MemSource::new(vec![]))) {
        Ok(ExtentStorage::Flat(f)) => {
            assert_eq!(f.filename, "f.vmdk");
            assert_eq!(f.offset, 7);
        },
        _ => panic!("expected flat storage"),
    }
}

#[test]
fn read_extent_of_a_file_without_sparse_signature_is_invalid() {
    let eds = extract_extent_descriptions("RW 2048 SPARSE \"s.vmdk\"\n").unwrap();
    assert!(matches!(
        read_extent(&eds[0], Some(MemSource::new(vec![0u8; 512]))),
        Err(OpenErrorKind::InvalidFileHeader)
    ));
}

#[test]
fn read_at_the_image_end_reads_nothing() {
    let mut r = open_single(sparse_child(false));
    let size = r.image_size();
    let mut buf = vec![7u8; 16];
    assert_eq!(r.read_at_offset(size, &mut buf).unwrap(), 0);
    assert!(r.read_at_offset(size + 1, &mut buf).is_err());
    assert_eq!(buf, vec![7u8; 16]);
}
