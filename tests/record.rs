use buddhabrot::record::{decode_log, encode_hits, Hit, RECORD_SIZE};

fn hit(z: (f64, f64), c: (f64, f64), i: i32) -> Hit {
    Hit::new(z.0.to_bits(), z.1.to_bits(), c.0.to_bits(), c.1.to_bits(), i)
}

#[test]
fn record_size_is_36() {
    let h = hit((1.5, -2.25), (0.25, 0.5), 7);
    assert_eq!(RECORD_SIZE, 36);
    assert_eq!(h.to_bytes().len(), 36);
}

#[test]
fn record_layout_is_little_endian() {
    let h = Hit::new(0x0102030405060708, 0, 0, 0xff, -2);
    let b = h.to_bytes();
    assert_eq!(&b[0..8], &[8, 7, 6, 5, 4, 3, 2, 1]);
    assert_eq!(&b[8..16], &[0; 8]);
    assert_eq!(&b[24..32], &[0xff, 0, 0, 0, 0, 0, 0, 0]);
    assert_eq!(&b[32..36], &[0xfe, 0xff, 0xff, 0xff]);
}

#[test]
fn record_round_trip_is_bit_identical() {
    let cases = vec![
        hit((0.0, -0.0), (-2.0, 1.125), 0),
        hit((f64::INFINITY, f64::NEG_INFINITY), (f64::MIN_POSITIVE, f64::MAX), i32::MAX),
        hit((f64::NAN, 3.0), (1e-300, -1e300), i32::MIN),
        hit((6.0, 0.0), (2.0, 0.0), 2),
    ];
    for h in cases {
        let b = h.to_bytes();
        let mut a = [0u8; 36];
        a.copy_from_slice(&b);
        assert_eq!(Hit::from_bytes(&a), h);
    }
}

#[test]
fn log_length_is_multiple_of_record_size() {
    let hits = vec![hit((0.0, 0.0), (2.0, 0.0), 0), hit((2.0, 0.0), (2.0, 0.0), 1), hit((6.0, 0.0), (2.0, 0.0), 2)];
    for end in 0..=3 {
        let log = encode_hits(&hits, end);
        assert_eq!(log.len(), 36 * end);
        assert_eq!(log.len() % 36, 0);
    }
}

#[test]
fn log_round_trip() {
    let hits = vec![hit((0.0, 0.0), (-0.5, 0.75), 0), hit((-0.5, 0.75), (-0.5, 0.75), 1), hit((-0.8125, 0.0), (-0.5, 0.75), 2)];
    let log = encode_hits(&hits, 3);
    assert_eq!(decode_log(&log), hits);
    let first_two = encode_hits(&hits, 2);
    assert_eq!(decode_log(&first_two), hits[0..2].to_vec());
}

#[test]
fn log_trailing_fragment_is_dropped() {
    let hits = vec![hit((1.0, 2.0), (3.0, 4.0), 5), hit((6.0, 7.0), (8.0, 9.0), 10)];
    let mut log = encode_hits(&hits, 2);
    log.extend_from_slice(&[1, 2, 3, 4, 5]);
    let back = decode_log(&log);
    assert_eq!(back.len(), 2);
    assert_eq!(back, hits);
    assert_eq!(decode_log(&log[0..35]).len(), 0);
}
