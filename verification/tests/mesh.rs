use gta_core::grid::GridCells;
use gta_core::tri::{append_offset, index_bytes, push_quad, push_tri, Finish, VERT_STRIDE};

#[test]
fn quad_indices_share_the_diagonal() {
    let mut idx = Vec::new();
    push_quad(&mut idx, 0);
    assert_eq!(idx, vec![0, 1, 2, 0, 2, 3]);
    push_tri(&mut idx, 4);
    assert_eq!(idx[6..], [4, 5, 6]);
}

#[test]
fn merge_shifts_indices() {
    let mut a = Vec::new();
    push_tri(&mut a, 0);
    let mut b = Vec::new();
    push_tri(&mut b, 0);
    append_offset(&mut a, &b, 3);
    assert_eq!(a.len(), 6);
    assert_eq!(a[3], 3);
    assert_eq!(a, vec![0, 1, 2, 3, 4, 5]);
}

#[test]
fn index_bytes_are_little_endian() {
    let bytes = index_bytes(&[0, 1, 2, 0, 2, 3]);
    assert_eq!(bytes.len(), 6 * 4);
    assert_eq!(&bytes[4..8], &[1, 0, 0, 0]);
    assert_eq!(index_bytes(&[0x0403_0201]), vec![1, 2, 3, 4]);
}

#[test]
fn finish_bytes_and_stride() {
    assert_eq!(Finish::Chrome.spec_byte(), 235);
    assert_eq!(Finish::Matte.spec_byte(), 12);
    assert_eq!(Finish::Glass.spec_byte(), 224);
    assert_eq!(VERT_STRIDE, 64);
}

#[test]
fn item_spanning_cells_is_found_from_each() {
    let mut g = GridCells::new(4);
    g.insert(7, 1, 1, 2, 2);
    g.insert(8, 0, 0, 0, 0);
    for cz in 1..=2 {
        for cx in 1..=2 {
            let mut out = Vec::new();
            g.query(cx, cz, cx, cz, &mut out);
            assert_eq!(out, vec![7]);
        }
    }
    let mut out = Vec::new();
    g.query(0, 0, 3, 3, &mut out);
    assert_eq!(out, vec![8, 7, 7, 7, 7]);
    let mut none = Vec::new();
    g.query(3, 3, 3, 3, &mut none);
    assert!(none.is_empty());
    // Five filings over sixteen cells.
    assert_eq!(g.max_bucket(), 0);
    assert_eq!(g.bucket_index(2, 1), 6);
    assert_eq!(g.clamp_i(-3), 0);
    assert_eq!(g.clamp_i(9), 3);
    assert_eq!(g.clamp_i(2), 2);
}

#[test]
fn max_bucket_is_the_mean_occupancy() {
    let mut g = GridCells::new(2);
    for k in 0..4 {
        g.insert(k, 0, 0, 0, 0);
    }
    assert_eq!(g.max_bucket(), 1);
    g.insert(9, 0, 0, 1, 1);
    g.insert(10, 0, 0, 1, 1);
    assert_eq!(g.max_bucket(), 3);
    assert_eq!(GridCells::new(3).max_bucket(), 0);
}
