use buddhabrot::rank::{field_ranks, lower_bound, ranks, total_order_key};

#[test]
fn total_order_of_doubles() {
    let values = [f64::NEG_INFINITY, -2.5, -1.0, -f64::MIN_POSITIVE, -0.0, 0.0, 1e-310, 1.0, 3.5, f64::INFINITY];
    for w in values.windows(2) {
        assert!(total_order_key(w[0].to_bits()) < total_order_key(w[1].to_bits()));
    }
    assert_eq!(total_order_key(0.0f64.to_bits()), 0x8000_0000_0000_0000);
    assert_eq!(total_order_key((-0.0f64).to_bits()), 0x7fff_ffff_ffff_ffff);
}

#[test]
fn lower_bound_is_left_most() {
    let v = vec![1u64, 3, 3, 3, 7];
    assert_eq!(lower_bound(&v, 0), 0);
    assert_eq!(lower_bound(&v, 3), 1);
    assert_eq!(lower_bound(&v, 4), 4);
    assert_eq!(lower_bound(&v, 7), 4);
    assert_eq!(lower_bound(&v, 8), 5);
    assert_eq!(lower_bound(&[], 8), 0);
}

#[test]
fn ties_take_left_most_rank() {
    let r = ranks(&vec![5, 1, 5, 0, 9, 1]);
    assert_eq!(r, vec![3, 1, 3, 0, 5, 1]);
    // two tied pairs: the sum falls short of 6 * 5 / 2 by two
    assert_eq!(r.iter().sum::<usize>(), 15 - 2);
    assert_eq!(ranks(&vec![]), Vec::<usize>::new());
}

#[test]
fn distinct_values_rank_as_permutation() {
    let keys: Vec<u64> = vec![40, 10, 30, 20, 0];
    let r = ranks(&keys);
    assert_eq!(r, vec![4, 1, 3, 2, 0]);
    let mut sorted = r.clone();
    sorted.sort();
    assert_eq!(sorted, vec![0, 1, 2, 3, 4]);
    assert_eq!(r.iter().sum::<usize>(), 5 * 4 / 2);
}

#[test]
fn negative_values_rank_below_positive() {
    let field: Vec<u64> = [0.5f64, -3.0, 0.0, -0.5, 2.0].iter().map(|v| v.to_bits()).collect();
    assert_eq!(field_ranks(&field), vec![3, 0, 2, 1, 4]);
}

#[test]
fn histogram_equalization_of_distinct_counts() {
    let (w, h) = (8usize, 6usize);
    let n = w * h;
    // counts 1 ..= n, shuffled by a fixed stride coprime to n
    let counts: Vec<u64> = (0..n).map(|p| ((p * 7) % n) as u64 + 1).collect();
    let field: Vec<u64> = counts.iter().map(|&c| (c as f64).to_bits()).collect();
    let r = field_ranks(&field);
    for p in 0..n {
        assert_eq!(r[p] as u64, counts[p] - 1);
        let blue = ((r[p] as f64 / n as f64).powi(10) * 255.0) as u8;
        let expected = ((counts[p] - 1) as f64 / n as f64).powi(10) * 255.0;
        assert_eq!(blue, expected.floor() as u8);
    }
    let top = (0..n).find(|&p| counts[p] == n as u64).unwrap();
    assert_eq!(((r[top] as f64 / n as f64).powi(10) * 255.0) as u8, 206);
}
