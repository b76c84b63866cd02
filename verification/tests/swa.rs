use rsllm::kvcache::dsv4::shape::{DSV4_HEAD_DIM, DSV4_N_SWA};
use rsllm::kvcache::dsv4::swa::RawSwaRing;
use rsllm::kvcache::Error;

fn mk_row(seed: f32, dim: usize) -> Vec<u32> {
    (0..dim).map(|i| (seed + (i as f32) * 0.01).to_bits()).collect()
}

#[test]
fn new_ring_is_empty() {
    let r = RawSwaRing::new(4, 8);
    assert!(r.is_empty());
    assert_eq!(r.len(), 0);
    assert_eq!(r.capacity(), 4);
    assert!(r.rows().is_empty());
}

#[test]
fn appends_grow_until_capacity() {
    let mut r = RawSwaRing::new(3, 4);
    for s in 0..3 {
        r.append(&mk_row(s as f32, 4)).unwrap();
    }
    assert_eq!(r.len(), 3);
    assert!(r.is_full());
    // Rows preserved in chronological order.
    for s in 0..3 {
        assert_eq!(f32::from_bits(r.row(s).unwrap()[0]), s as f32);
    }
}

#[test]
fn full_ring_shifts_on_append() {
    let mut r = RawSwaRing::new(3, 2);
    for s in 0..5 {
        r.append(&mk_row(s as f32, 2)).unwrap();
    }
    // After 5 appends in a cap=3 ring, rows are seeds 2, 3, 4.
    assert_eq!(f32::from_bits(r.row(0).unwrap()[0]), 2.0);
    assert_eq!(f32::from_bits(r.row(1).unwrap()[0]), 3.0);
    assert_eq!(f32::from_bits(r.row(2).unwrap()[0]), 4.0);
}

#[test]
fn rejects_wrong_row_length() {
    let mut r = RawSwaRing::new(2, 4);
    let err = r.append(&[1, 2]).unwrap_err();
    assert!(matches!(err, Error::ShapeMismatch { .. }));
}

#[test]
fn row_out_of_range_errors() {
    let mut r = RawSwaRing::new(2, 4);
    r.append(&mk_row(0.0, 4)).unwrap();
    let err = r.row(5).unwrap_err();
    assert!(matches!(err, Error::IndexOutOfRange { .. }));
}

#[test]
fn clear_resets_length() {
    let mut r = RawSwaRing::new(2, 4);
    r.append(&mk_row(0.0, 4)).unwrap();
    r.append(&mk_row(1.0, 4)).unwrap();
    assert_eq!(r.len(), 2);
    r.clear();
    assert_eq!(r.len(), 0);
    assert!(r.is_empty());
}

#[test]
fn truncate_to_recent_keeps_tail() {
    let mut r = RawSwaRing::new(5, 2);
    for s in 0..5 {
        r.append(&mk_row(s as f32, 2)).unwrap();
    }
    r.truncate_to_recent(2);
    assert_eq!(r.len(), 2);
    // Should keep rows 3 and 4.
    assert_eq!(f32::from_bits(r.row(0).unwrap()[0]), 3.0);
    assert_eq!(f32::from_bits(r.row(1).unwrap()[0]), 4.0);
}

#[test]
fn truncate_to_recent_noop_when_keep_geq_len() {
    let mut r = RawSwaRing::new(5, 2);
    for s in 0..3 {
        r.append(&mk_row(s as f32, 2)).unwrap();
    }
    r.truncate_to_recent(5);
    assert_eq!(r.len(), 3);
}

#[test]
fn rows_slice_matches_individual_row_borrows() {
    let mut r = RawSwaRing::new(3, 4);
    for s in 0..3 {
        r.append(&mk_row(s as f32, 4)).unwrap();
    }
    let rows = r.rows();
    for s in 0..3 {
        let row = r.row(s).unwrap();
        assert_eq!(&rows[s * 4..(s + 1) * 4], row);
    }
}

#[test]
fn dsv4_default_ring_has_correct_dimensions() {
    let r = RawSwaRing::with_dsv4_defaults();
    assert_eq!(r.capacity(), DSV4_N_SWA);
    assert_eq!(r.head_dim(), DSV4_HEAD_DIM);
}

#[test]
fn the_latest_rows_stay() {
    let mut r = RawSwaRing::new(4, 1);
    for n in 0..50u32 {
        r.append(&[n]).unwrap();
        let first = (n + 1).saturating_sub(4);
        assert_eq!(r.rows().to_vec(), (first..=n).collect::<Vec<u32>>());
    }
}

#[test]
fn refusals_say_what_is_wrong() {
    let mut r = RawSwaRing::new(2, 3);
    assert_eq!(
        r.append(&[0; 2]).unwrap_err(),
        Error::ShapeMismatch { what: "RawSwaRing::append: row length", expected: 3, actual: 2 }
    );
    r.append(&[0; 3]).unwrap();
    assert_eq!(
        r.row(1).unwrap_err(),
        Error::IndexOutOfRange { what: "RawSwaRing::row", idx: 1, len: 1 }
    );
}
