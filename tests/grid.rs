use buddhabrot::grid::{Bin, CountGrid, Placed};
use buddhabrot::rank::field_ranks;

fn placed(i: i32, x: i64, y: i64, y_mirror: i64) -> Placed {
    Placed { i, x, y, y_mirror }
}

#[test]
fn new_grid_is_zero() {
    let g = CountGrid::new(3, 2);
    assert_eq!(g.width(), 3);
    assert_eq!(g.height(), 2);
    assert_eq!(g.counts(), &vec![0u64; 6]);
    assert_eq!(g.total(), 0);
}

#[test]
fn mirror_symmetry_hits_two_pixels() {
    let mut g = CountGrid::new(4, 4);
    let bins = g.accumulate(&[placed(5, 1, 0, 3)]);
    assert_eq!(
        bins,
        vec![
            Bin { record: 0, pixel: 13, mirrored: true },
            Bin { record: 0, pixel: 1, mirrored: false },
        ]
    );
    assert_eq!(g.count_at(1, 0), 1);
    assert_eq!(g.count_at(1, 3), 1);
    assert_eq!(g.total(), 2);
}

#[test]
fn real_axis_record_hits_one_pixel_twice() {
    let mut g = CountGrid::new(4, 4);
    let bins = g.accumulate(&[placed(3, 2, 2, 2)]);
    assert_eq!(bins.len(), 2);
    assert_eq!(bins[0].pixel, bins[1].pixel);
    assert_eq!(g.count_at(2, 2), 2);
    assert_eq!(g.total(), 2);
}

#[test]
fn early_records_are_ignored() {
    let mut g = CountGrid::new(2, 2);
    let bins = g.accumulate(&[placed(0, 0, 0, 1), placed(1, 1, 1, 0)]);
    assert!(bins.is_empty());
    assert_eq!(g.total(), 0);
}

#[test]
fn out_of_frame_bins_are_dropped() {
    let mut g = CountGrid::new(2, 2);
    let bins = g.accumulate(&[placed(2, -1, 0, 1), placed(2, 2, 0, 1), placed(2, 0, 2, 1), placed(2, 1, -1, 0)]);
    assert_eq!(
        bins,
        vec![
            Bin { record: 2, pixel: 2, mirrored: true },
            Bin { record: 3, pixel: 1, mirrored: true },
        ]
    );
    assert_eq!(g.counts(), &vec![0, 1, 1, 0]);
    assert_eq!(g.counts().len(), 4);
    assert_eq!(g.total(), bins.len() as u64);
}

#[test]
fn order_of_records_does_not_matter() {
    let log = vec![placed(2, 0, 0, 1), placed(4, 1, 1, 0), placed(3, 1, 0, 1), placed(7, 0, 1, 1)];
    let mut reversed = log.clone();
    reversed.reverse();
    let mut a = CountGrid::new(2, 2);
    let mut b = CountGrid::new(2, 2);
    a.accumulate(&log);
    b.accumulate(&reversed);
    assert_eq!(a.counts(), b.counts());
    assert_eq!(a.counts(), &vec![1, 2, 3, 2]);
}

#[test]
fn two_by_two_image() {
    // one record at each pixel, mirrored into the other row
    let log = vec![placed(2, 0, 0, 1), placed(2, 1, 0, 1), placed(2, 0, 1, 0), placed(3, 1, 1, 0)];
    let mut g = CountGrid::new(2, 2);
    let bins = g.accumulate(&log);
    assert_eq!(bins.len(), 8);
    assert_eq!(g.counts(), &vec![2, 2, 2, 2]);
    let log2 = vec![placed(2, 0, 0, 0), placed(2, 1, 0, 1), placed(2, 1, 1, 1), placed(2, 1, 1, 1)];
    let mut h = CountGrid::new(2, 2);
    h.accumulate(&log2);
    assert_eq!(h.counts(), &vec![2, 1, 0, 5]);
    let field: Vec<u64> = h.counts().iter().map(|&c| (c as f64).to_bits()).collect();
    let ranks = field_ranks(&field);
    assert_eq!(ranks, vec![2, 1, 0, 3]);
    let bytes: Vec<u8> = ranks.iter().map(|&r| ((r as f64 / 4.0).powi(10) * 255.0) as u8).collect();
    assert_eq!(bytes, vec![0, 0, 0, 14]);
}
