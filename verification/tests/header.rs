use vmdkrs::bytessource::{read_range, BytesSource, MemSource, PlaceholderSource};
use vmdkrs::header::{
    read_sparse_extent_header,
    check_signature, read_header_sesparse, read_header_sparse, signature_to_file_type, FileType,
    Vmdk3Header, Vmdk4Header, VmdkSparseMeta,
};
use vmdkrs::errors::OpenErrorKind;

#[test]
fn signatures() {
    assert_eq!(signature_to_file_type(b"COWD\0\0\0\0"), Some(FileType::Vmdk3));
    assert_eq!(signature_to_file_type(b"KDMVxxxx"), Some(FileType::Vmdk4));
    assert_eq!(
        signature_to_file_type(&[0xBE, 0xBA, 0xFE, 0xCA, 0, 0, 0, 0]),
        Some(FileType::VmdkSeSparse)
    );
    assert_eq!(signature_to_file_type(&[0xBE, 0xBA, 0xFE, 0xCA, 1, 0, 0, 0]), None);
    assert_eq!(signature_to_file_type(b"# Disk D"), None);
}

#[test]
fn signature_lengths() {
    assert_eq!(FileType::Vmdk3.sig_len(), 4);
    assert_eq!(FileType::Vmdk4.sig_len(), 4);
    assert_eq!(FileType::VmdkSeSparse.sig_len(), 8);
}

#[test]
fn check_signature_of_short_source_fails() {
    assert!(check_signature(&MemSource::new(b"KDMV".to_vec())).is_err());
    assert_eq!(
        check_signature(&MemSource::new(b"KDMV0000".to_vec())).unwrap(),
        Some(FileType::Vmdk4)
    );
}

#[test]
fn vmdk3_header_fields() {
    let mut b = vec![0u8; 40];
    for i in 0..10 {
        b[4 * i..4 * i + 4].copy_from_slice(&(i as u32 + 1).to_le_bytes());
    }
    let h = Vmdk3Header::from_bytes(&b);
    assert_eq!(h.version, 1);
    assert_eq!(h.disk_sectors, 3);
    assert_eq!(h.l1dir_size, 6);
    assert_eq!(h.sectors_per_track, 10);
    let m = VmdkSparseMeta::from_vmdk3(h);
    assert_eq!(m.l1_offset, 5 * 512);
    assert_eq!(m.l2_len, 4096);
    assert_eq!(m.cluster_sectors, 4);
    assert!(!m.compressed);
}

#[test]
fn vmdk4_geometry() {
    let mut b = vec![0u8; 75];
    b[4..8].copy_from_slice(&0x10006u32.to_le_bytes()); // compressed, secondary directory, zero grains
    b[8..16].copy_from_slice(&1000u64.to_le_bytes()); // capacity
    b[16..24].copy_from_slice(&8u64.to_le_bytes()); // granularity
    b[40..44].copy_from_slice(&16u32.to_le_bytes()); // entries per grain table
    b[44..52].copy_from_slice(&7u64.to_le_bytes()); // secondary directory
    b[52..60].copy_from_slice(&9u64.to_le_bytes()); // directory
    let h = Vmdk4Header::from_bytes(&b);
    assert_eq!(h.capacity, 1000);
    let m = VmdkSparseMeta::from_vmdk4(h);
    assert_eq!(m.l1_offset, 7 * 512);
    assert_eq!(m.l1_len, 8); // 1000 / 128 rounded up
    assert_eq!(m.l2_len, 16);
    assert!(m.compressed);
    assert!(m.has_zero_grain);
}

#[test]
fn sparse_header_of_other_file_is_invalid() {
    let src = MemSource::new(vec![0xBE, 0xBA, 0xFE, 0xCA, 0, 0, 0, 0, 0, 0]);
    assert!(matches!(read_header_sparse(&src), Err(OpenErrorKind::InvalidFileHeader)));
    let src = MemSource::new(b"KDMV0000".to_vec());
    assert!(matches!(read_header_sesparse(&src), Err(OpenErrorKind::InvalidFileHeader)));
}

#[test]
fn sparse_header_too_large_is_invalid() {
    let mut b = vec![0u8; 512];
    b[0..4].copy_from_slice(b"KDMV");
    b[12..20].copy_from_slice(&(1u64 << 40).to_le_bytes()); // capacity: far over 2 TiB
    b[20..28].copy_from_slice(&128u64.to_le_bytes());
    b[44..48].copy_from_slice(&512u32.to_le_bytes());
    b[56..64].copy_from_slice(&1u64.to_le_bytes());
    b[73..77].copy_from_slice(b"\n \r\n");
    assert!(matches!(
        read_header_sparse(&MemSource::new(b)),
        Err(OpenErrorKind::InvalidFileHeader)
    ));
}

#[test]
fn sparse_extent_header_needs_its_line_check_bytes() {
    let mut b = vec![0u8; 512];
    b[0..4].copy_from_slice(b"KDMV");
    b[8..12].copy_from_slice(&3u32.to_le_bytes()); // flags
    assert!(read_sparse_extent_header(&b).is_none());
    // the read path takes the header as it is
    assert_eq!(Vmdk4Header::from_reader(&MemSource::new(b.clone())).unwrap().flags, 3);
    b[73..77].copy_from_slice(b"\n \r\n");
    assert_eq!(read_sparse_extent_header(&b).unwrap().flags, 3);
    // a short sector, or another signature, is no header
    assert!(read_sparse_extent_header(&b[..511]).is_none());
    b[0] = b'X';
    assert!(read_sparse_extent_header(&b).is_none());
}

#[test]
fn truncated_vmdk4_header_cannot_be_read() {
    let b = b"KDMV\x01\0\0\0".to_vec();
    assert!(matches!(
        read_header_sparse(&MemSource::new(b)),
        Err(OpenErrorKind::DeserializationFailed(_))
    ));
}

#[test]
fn read_range_past_end_fails() {
    let s = MemSource::new(vec![1, 2, 3, 4]);
    assert_eq!(read_range(&s, 1, 3).unwrap(), vec![2, 3]);
    assert!(read_range(&s, 2, 5).is_err());
    assert_eq!(s.end(), 4);
    assert_eq!(PlaceholderSource.end(), 0);
}
