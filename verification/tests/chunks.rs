use vmdkrs::chunks::{chunk_offsets, fill_from_chunks};

fn cut(content: &[u8], first: u64, chlen: u64, count: usize) -> Vec<Vec<u8>> {
    (0..count as u64)
        .map(|i| {
            let beg = (first + i * chlen) as usize;
            let end = ((first + (i + 1) * chlen) as usize).min(content.len());
            content[beg..end].to_vec()
        })
        .collect()
}

#[test]
fn chunk_offsets_cover_the_range() {
    assert_eq!(chunk_offsets(5, 10, 4), vec![4, 8, 12]);
    assert_eq!(chunk_offsets(4, 4, 4), vec![4]);
    assert_eq!(chunk_offsets(4, 5, 4), vec![4, 8]);
    assert_eq!(chunk_offsets(0, 1, 512), vec![0]);
}

#[test]
fn chunk_offsets_of_an_empty_range() {
    assert_eq!(chunk_offsets(8, 0, 4), Vec::<u64>::new());
    // an empty range inside a chunk still starts at that chunk
    assert_eq!(chunk_offsets(9, 0, 4), vec![8]);
}

#[test]
fn chunk_offsets_near_the_largest_offset() {
    assert_eq!(chunk_offsets(u64::MAX - 3, 3, 8), vec![u64::MAX - 7]);
}

#[test]
fn fill_from_full_chunks() {
    let content: Vec<u8> = (0..20).collect();
    let chunks = cut(&content, 4, 4, 2);
    let mut buf = [0xffu8; 6];
    let n = fill_from_chunks(5, &mut buf, 4, 4, &chunks);
    assert_eq!(n, 6);
    assert_eq!(buf, [5, 6, 7, 8, 9, 10]);
}

#[test]
fn fill_from_a_short_last_chunk() {
    let content: Vec<u8> = (0..10).collect();
    let chunks = cut(&content, 4, 4, 2);
    assert_eq!(chunks[1], vec![8, 9]);
    let mut buf = [0xffu8; 8];
    let n = fill_from_chunks(6, &mut buf, 4, 4, &chunks);
    assert_eq!(n, 4);
    assert_eq!(buf, [6, 7, 8, 9, 0xff, 0xff, 0xff, 0xff]);
}

#[test]
fn fill_from_no_chunks() {
    let mut buf = [1u8, 2, 3];
    let n = fill_from_chunks(0, &mut buf, 0, 4, &Vec::new());
    assert_eq!(n, 0);
    assert_eq!(buf, [1, 2, 3]);
}
