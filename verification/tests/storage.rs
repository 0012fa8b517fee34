use std::collections::HashMap;
use vmdkrs::bytessource::MemSource;
use vmdkrs::storage::{read_zero, ExtentStorage, FlatStorage, SparseStorage};
use vmdkrs::vmdk_reader::ReadError;

fn sparse(table: &[(u64, u64)], file: Vec<u8>) -> ExtentStorage<MemSource> {
    ExtentStorage::Sparse(SparseStorage {
        file: MemSource::new(file),
        filename: "s.vmdk".to_string(),
        grain_table: table.iter().copied().collect::<HashMap<u64, u64>>(),
        grain_size: 1,
        has_compressed_grain: false,
        zeroed_grain_table_entry: true,
    })
}

#[test]
fn sparse_read_stops_at_grain_end() {
    let mut file = vec![0u8; 3 * 512];
    for (i, b) in file.iter_mut().enumerate() {
        *b = (i / 512) as u8 + 1;
    }
    let st = sparse(&[(0, 2), (1, 1)], file);
    let mut buf = vec![9u8; 600];
    // grain 0 is sector 2: only the 12 bytes left in the grain are read
    assert_eq!(st.read(500, &mut buf).unwrap(), 12);
    assert!(buf[..12].iter().all(|&x| x == 3));
    assert!(buf[12..].iter().all(|&x| x == 9));
}

#[test]
fn sparse_read_of_zeroed_grain() {
    // with zeroed entries in use, sector 1 stands for a grain of zeros
    let st = sparse(&[(1, 1)], vec![7u8; 1024]);
    let mut buf = vec![9u8; 100];
    assert_eq!(st.read(512, &mut buf).unwrap(), 100);
    assert!(buf.iter().all(|&x| x == 0));
}

#[test]
fn sparse_read_of_missing_grain_is_not_found() {
    let st = sparse(&[(0, 2)], vec![0u8; 1536]);
    let mut buf = vec![0u8; 10];
    assert!(matches!(st.read(700, &mut buf), Err(ReadError::OffsetNotFound(700))));
}

#[test]
fn flat_read_takes_off_the_offset() {
    let mut file = vec![0u8; 4 * 512];
    file[5] = 0x5A;
    let st = ExtentStorage::Flat(FlatStorage {
        file: MemSource::new(file),
        filename: "f.vmdk".to_string(),
        offset: 2,
    });
    // extent position 1024 is file position 0
    let mut buf = vec![0u8; 8];
    assert_eq!(st.read(1024, &mut buf).unwrap(), 8);
    assert_eq!(buf, [0, 0, 0, 0, 0, 0x5A, 0, 0]);
    // a position below the offset has no place in the file
    assert!(matches!(st.read(0, &mut buf), Err(ReadError::IoError(_))));
    let mut big = vec![0u8; 3000];
    assert!(matches!(st.read(1024, &mut big), Err(ReadError::IoError(_))));
}

#[test]
fn zero_storage_reads_zeros() {
    let st: ExtentStorage<MemSource> = ExtentStorage::Zero;
    let mut buf = vec![1u8; 33];
    assert_eq!(st.read(12345, &mut buf).unwrap(), 33);
    assert!(buf.iter().all(|&x| x == 0));
    let mut buf2 = vec![5u8; 4];
    assert_eq!(read_zero(&mut buf2), 4);
    assert_eq!(buf2, [0, 0, 0, 0]);
}

#[test]
fn flat_read_within_the_file_succeeds() {
    let st = ExtentStorage::Flat(FlatStorage {
        file: MemSource::new((0..=255u8).cycle().take(2048).collect()),
        filename: "f.vmdk".to_string(),
        offset: 1,
    });
    let mut buf = vec![0u8; 4];
    assert_eq!(st.read(512, &mut buf).unwrap(), 4);
    assert_eq!(buf, vec![0, 1, 2, 3]);
    // past the end of the file the read fails
    let mut buf = vec![0u8; 4];
    assert!(st.read(2600, &mut buf).is_err());
}
