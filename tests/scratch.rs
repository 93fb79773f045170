use buddhabrot::record::{decode_log, encode_hits, Hit};
use buddhabrot::scratch::{Scratch, Step};

/// Iterates the orbit of `c` into the buffer; returns the last step and the
/// buffer handed out, if any.
fn run_orbit(s: &mut Scratch, c: (f64, f64), divergcomp: f64) -> (Option<Step>, Option<Vec<Hit>>) {
    s.begin_orbit(c.0.to_bits(), c.1.to_bits());
    let (mut zr, mut zi) = (0.0f64, 0.0f64);
    let mut last = None;
    while s.in_orbit() {
        let nr = zr * zr - zi * zi + c.0;
        let ni = 2.0 * zr * zi + c.1;
        zr = nr;
        zi = ni;
        let escaped = zr * zr + zi * zi > divergcomp;
        match s.step(zr.to_bits(), zi.to_bits(), escaped) {
            Step::Deliver(v) => return (None, Some(v)),
            Step::Continue => {}
            other => last = Some(other),
        }
    }
    (last, None)
}

fn z_of(h: &Hit) -> (f64, f64) {
    (f64::from_bits(h.z_re), f64::from_bits(h.z_im))
}

#[test]
fn singleton_escape() {
    let mut s = Scratch::new(100, 10);
    let (last, delivered) = run_orbit(&mut s, (2.0, 0.0), 4.0);
    assert!(matches!(last, Some(Step::Escaped)));
    assert!(delivered.is_none());
    let out = s.finish();
    assert_eq!(out.len(), 3);
    let zs: Vec<(f64, f64)> = out.iter().map(z_of).collect();
    assert_eq!(zs, vec![(0.0, 0.0), (2.0, 0.0), (6.0, 0.0)]);
    let is: Vec<i32> = out.iter().map(|h| h.i).collect();
    assert_eq!(is, vec![0, 1, 2]);
    assert!(out.iter().all(|h| h.c_re == 2.0f64.to_bits() && h.c_im == 0.0f64.to_bits()));
}

#[test]
fn non_escape_keeps_nothing() {
    let mut s = Scratch::new(2000, 1000);
    let (last, delivered) = run_orbit(&mut s, (0.0, 0.0), 2500.0);
    assert!(matches!(last, Some(Step::Abandoned)));
    assert!(delivered.is_none());
    assert_eq!(s.committed_len(), 0);
    assert_eq!(s.finish().len(), 0);
}

#[test]
fn escape_at_last_iteration_fills_whole_budget() {
    // c = 2 escapes at i = 2 against radius 2, so a budget of 3 records
    // escapes at exactly its last iteration.
    let mut s = Scratch::new(10, 3);
    let (last, _) = run_orbit(&mut s, (2.0, 0.0), 4.0);
    assert!(matches!(last, Some(Step::Escaped)));
    assert_eq!(s.committed_len(), 3);
    // one iteration fewer and the orbit does not escape
    let mut t = Scratch::new(10, 2);
    let (last, _) = run_orbit(&mut t, (2.0, 0.0), 4.0);
    assert!(matches!(last, Some(Step::Abandoned)));
    assert_eq!(t.committed_len(), 0);
}

#[test]
fn abandoned_orbit_is_overwritten() {
    let mut s = Scratch::new(100, 5);
    let (last, _) = run_orbit(&mut s, (0.0, 0.0), 4.0);
    assert!(matches!(last, Some(Step::Abandoned)));
    let (last, _) = run_orbit(&mut s, (2.0, 0.0), 4.0);
    assert!(matches!(last, Some(Step::Escaped)));
    let out = s.finish();
    assert_eq!(out.len(), 3);
    assert!(out.iter().all(|h| h.c_re == 2.0f64.to_bits()));
}

#[test]
fn buffer_is_delivered_when_room_runs_out() {
    let mut s = Scratch::new(5, 3);
    let (_, delivered) = run_orbit(&mut s, (2.0, 0.0), 4.0);
    let v = delivered.expect("the buffer is handed out");
    assert_eq!(v.len(), 3);
    assert_eq!(s.committed_len(), 0);
    let mut t = Scratch::new(6, 3);
    let (last, delivered) = run_orbit(&mut t, (2.0, 0.0), 4.0);
    assert!(delivered.is_none());
    assert!(matches!(last, Some(Step::Escaped)));
    assert_eq!(t.committed_len(), 3);
}

#[test]
fn single_iteration_budget_has_no_steps() {
    let mut s = Scratch::new(4, 1);
    s.begin_orbit(1.0f64.to_bits(), 0);
    assert!(!s.in_orbit());
    assert_eq!(s.finish().len(), 0);
}

struct Lcg(u64);

impl Lcg {
    fn next_unit(&mut self) -> f64 {
        self.0 = self.0.wrapping_mul(6364136223846793005).wrapping_add(1442695040888963407);
        (self.0 >> 11) as f64 / (1u64 << 53) as f64
    }
}

#[test]
fn log_of_several_workers_holds_whole_trajectories() {
    let iterations = 50;
    let mut log: Vec<u8> = Vec::new();
    for worker in 0..4u64 {
        let mut rng = Lcg(worker + 1);
        let mut s = Scratch::new(120, iterations);
        for _ in 0..100 {
            let c = (-2.0 + 4.0 * rng.next_unit(), -1.125 + 2.25 * rng.next_unit());
            if let (_, Some(v)) = run_orbit(&mut s, c, 2500.0) {
                log.extend_from_slice(&encode_hits(&v, v.len()));
            }
        }
        let rest = s.finish();
        log.extend_from_slice(&encode_hits(&rest, rest.len()));
    }
    assert_eq!(log.len() % 36, 0);
    let hits = decode_log(&log);
    assert!(!hits.is_empty());
    for (k, h) in hits.iter().enumerate() {
        assert!(h.i >= 0 && h.i < iterations);
        if h.i == 0 {
            assert_eq!(z_of(h), (0.0, 0.0));
        } else {
            let p = &hits[k - 1];
            assert_eq!(p.i + 1, h.i);
            assert_eq!((p.c_re, p.c_im), (h.c_re, h.c_im));
            let (zr, zi) = z_of(p);
            let c = (f64::from_bits(h.c_re), f64::from_bits(h.c_im));
            assert_eq!(z_of(h), (zr * zr - zi * zi + c.0, 2.0 * zr * zi + c.1));
        }
    }
}
