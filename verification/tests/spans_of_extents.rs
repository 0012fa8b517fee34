use std::collections::HashMap;
use vmdkrs::bytessource::MemSource;
use vmdkrs::extents::Extent;
use vmdkrs::storage::{ExtentStorage, SparseStorage};

#[test]
fn zero_extent_has_one_span() {
    let e: Extent<MemSource> = Extent { start_sector: 8, sectors: 16, storage: ExtentStorage::Zero };
    assert_eq!(e.spans(), vec![(8, 24)]);
}

#[test]
fn sparse_extent_has_one_span_per_grain() {
    let table: HashMap<u64, u64> = [(0, 5), (2, 9)].into_iter().collect();
    let e = Extent {
        start_sector: 0,
        sectors: 16,
        storage: ExtentStorage::Sparse(SparseStorage {
            file: MemSource::new(vec![]),
            filename: "s.vmdk".to_string(),
            grain_table: table,
            grain_size: 8,
            has_compressed_grain: false,
            zeroed_grain_table_entry: false,
        }),
    };
    let mut sp = e.spans();
    sp.sort();
    // grain 2 lies past the extent's end, and still has its span
    assert_eq!(sp, vec![(0, 8), (16, 24)]);
}
