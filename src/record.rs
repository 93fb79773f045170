//! Fixed-layout trajectory records and the binary log they are stored in.
//!
//! A record holds the orbit point `z`, the parameter `c` (each component as
//! the bit pattern of an IEEE-754 double) and the iteration index `i`. On
//! disk a record takes exactly `RECORD_SIZE` bytes, every field little-endian,
//! and a log is a plain concatenation of records.
use vstd::arithmetic::div_mod::{lemma_mod_breakdown, lemma_small_mod};
use vstd::prelude::*;

verus! {

/// Number of bytes of one encoded record.
pub const RECORD_SIZE: usize = 36;

/// One sample of a trajectory: `z_i` of the orbit of `c`, at iteration `i`.
#[derive(Clone, Copy, Debug, PartialEq, Eq, Structural)]
pub struct Hit {
    pub z_re: u64,
    pub z_im: u64,
    pub c_re: u64,
    pub c_im: u64,
    pub i: i32,
}

pub open spec fn pow256(n: nat) -> nat
    decreases n,
{
    if n == 0 {
        1
    } else {
        256 * pow256((n - 1) as nat)
    }
}

/// The `n` low bytes of `v`, least significant first.
pub open spec fn le_bytes(v: nat, n: nat) -> Seq<u8>
    decreases n,
{
    if n == 0 {
        Seq::empty()
    } else {
        seq![(v % 256) as u8] + le_bytes(v / 256, (n - 1) as nat)
    }
}

/// The number whose little-endian bytes are `b`.
pub open spec fn le_value(b: Seq<u8>) -> nat
    decreases b.len(),
{
    if b.len() == 0 {
        0
    } else {
        b[0] as nat + 256 * le_value(b.drop_first())
    }
}

/// The two's complement bit pattern of `i`, as a number below `2^32`.
pub open spec fn i32_bits(i: i32) -> nat {
    if i >= 0 {
        i as nat
    } else {
        (i + 0x1_0000_0000) as nat
    }
}

/// The `i32` whose two's complement bit pattern is `v`.
pub open spec fn i32_of_bits(v: nat) -> i32 {
    if v < 0x8000_0000 {
        v as i32
    } else {
        (v - 0x1_0000_0000) as i32
    }
}

/// The bytes of a record: the four components of `z` and `c`, then `i` in
/// two's complement.
pub open spec fn hit_bytes(h: Hit) -> Seq<u8> {
    le_bytes(h.z_re as nat, 8) + le_bytes(h.z_im as nat, 8) + le_bytes(h.c_re as nat, 8)
        + le_bytes(h.c_im as nat, 8) + le_bytes(i32_bits(h.i), 4)
}

/// The record that 36 bytes hold.
pub open spec fn hit_of_bytes(b: Seq<u8>) -> Hit {
    Hit {
        z_re: le_value(b.subrange(0, 8)) as u64,
        z_im: le_value(b.subrange(8, 16)) as u64,
        c_re: le_value(b.subrange(16, 24)) as u64,
        c_im: le_value(b.subrange(24, 32)) as u64,
        i: i32_of_bits(le_value(b.subrange(32, 36))),
    }
}

/// A log holding the records of `hits`, in order.
pub open spec fn log_bytes(hits: Seq<Hit>) -> Seq<u8>
    decreases hits.len(),
{
    if hits.len() == 0 {
        Seq::empty()
    } else {
        log_bytes(hits.drop_last()) + hit_bytes(hits.last())
    }
}

/// The records of a log; a trailing fragment shorter than a record is not
/// one.
pub open spec fn log_records(b: Seq<u8>) -> Seq<Hit> {
    Seq::new(
        b.len() / 36,
        |k: int| hit_of_bytes(b.subrange(36 * k, 36 * k + 36)),
    )
}

pub proof fn lemma_le_bytes_len(v: nat, n: nat)
    ensures
        le_bytes(v, n).len() == n,
    decreases n,
{
    if n > 0 {
        lemma_le_bytes_len(v / 256, (n - 1) as nat);
    }
}

pub proof fn lemma_le_round_trip(v: nat, n: nat)
    ensures
        le_value(le_bytes(v, n)) == v % pow256(n),
    decreases n,
{
    if n == 0 {
    } else {
        let m = (n - 1) as nat;
        lemma_le_round_trip(v / 256, m);
        let b = le_bytes(v, n);
        assert(b.drop_first() =~= le_bytes(v / 256, m));
        assert(pow256(m) > 0) by {
            lemma_pow256_positive(m);
        }
        lemma_mod_breakdown(v as int, 256, pow256(m) as int);
    }
}

pub proof fn lemma_pow256_positive(n: nat)
    ensures
        pow256(n) > 0,
    decreases n,
{
    if n > 0 {
        lemma_pow256_positive((n - 1) as nat);
    }
}

pub proof fn lemma_le_value_bound(b: Seq<u8>)
    ensures
        le_value(b) < pow256(b.len()),
    decreases b.len(),
{
    if b.len() > 0 {
        lemma_le_value_bound(b.drop_first());
    }
}


/// Appends the `n` low bytes of `v`, least significant first.
fn put_le(out: &mut Vec<u8>, v: u64, n: usize)
    requires
        n <= 8,
    ensures
        final(out)@ == old(out)@ + le_bytes(v as nat, n as nat),
{
    let mut cur: u64 = v;
    let mut k: usize = 0;
    while k < n
        invariant
            k <= n,
            out@ + le_bytes(cur as nat, (n - k) as nat) == old(out)@ + le_bytes(v as nat, n as nat),
        decreases n - k,
    {
        let ghost before = out@;
        let ghost rest = le_bytes(cur as nat / 256, (n - k - 1) as nat);
        assert(le_bytes(cur as nat, (n - k) as nat) == seq![(cur % 256) as u8] + rest);
        out.push((cur % 256) as u8);
        assert(out@ + rest =~= before + (seq![(cur % 256) as u8] + rest));
        cur = cur / 256;
        k = k + 1;
    }
    assert(out@ + le_bytes(cur as nat, 0) =~= out@);
}

/// The number whose little-endian bytes are `b[off..off + n]`.
fn get_le(b: &[u8], off: usize, n: usize) -> (r: u64)
    requires
        n <= 8,
        off + n <= b@.len(),
    ensures
        r as nat == le_value(b@.subrange(off as int, off + n)),
{
    let blen: usize = b.len();
    let mut acc: u64 = 0;
    let mut k: usize = n;
    while k > 0
        invariant
            k <= n,
            n <= 8,
            off + n <= b@.len(),
            acc as nat == le_value(b@.subrange(off + k, off + n)),
            blen == b@.len(),
        decreases k,
    {
        let ghost tail = b@.subrange(off + k, off + n);
        let ghost s = b@.subrange(off + k - 1, off + n);
        assert(s.drop_first() =~= tail);
        proof {
            lemma_le_value_bound(tail);
            lemma_pow256_le(tail.len(), 7);
            reveal_with_fuel(pow256, 8);
            assert(pow256(7) == 0x100000000000000nat);
        }
        let idx: usize = off + (k - 1);
        acc = b[idx] as u64 + 256 * acc;
        k = k - 1;
    }
    assert(b@.subrange(off as int, off + n) =~= b@.subrange(off + k, off + n));
    acc
}

pub proof fn lemma_pow256_le(a: nat, b: nat)
    requires
        a <= b,
    ensures
        pow256(a) <= pow256(b),
    decreases b,
{
    if a < b {
        lemma_pow256_le(a, (b - 1) as nat);
    }
}


pub proof fn lemma_hit_bytes_len(h: Hit)
    ensures
        hit_bytes(h).len() == 36,
{
    lemma_le_bytes_len(h.z_re as nat, 8);
    lemma_le_bytes_len(h.z_im as nat, 8);
    lemma_le_bytes_len(h.c_re as nat, 8);
    lemma_le_bytes_len(h.c_im as nat, 8);
    lemma_le_bytes_len(i32_bits(h.i), 4);
}

/// Encoding a record and decoding the bytes gives the record back, bit for
/// bit.
pub proof fn lemma_hit_round_trip(h: Hit)
    ensures
        hit_of_bytes(hit_bytes(h)) == h,
{
    let b = hit_bytes(h);
    lemma_hit_bytes_len(h);
    let p0 = le_bytes(h.z_re as nat, 8);
    let p1 = le_bytes(h.z_im as nat, 8);
    let p2 = le_bytes(h.c_re as nat, 8);
    let p3 = le_bytes(h.c_im as nat, 8);
    let p4 = le_bytes(i32_bits(h.i), 4);
    lemma_le_bytes_len(h.z_re as nat, 8);
    lemma_le_bytes_len(h.z_im as nat, 8);
    lemma_le_bytes_len(h.c_re as nat, 8);
    lemma_le_bytes_len(h.c_im as nat, 8);
    lemma_le_bytes_len(i32_bits(h.i), 4);
    assert(b.subrange(0, 8) =~= p0);
    assert(b.subrange(8, 16) =~= p1);
    assert(b.subrange(16, 24) =~= p2);
    assert(b.subrange(24, 32) =~= p3);
    assert(b.subrange(32, 36) =~= p4);
    lemma_le_round_trip(h.z_re as nat, 8);
    lemma_le_round_trip(h.z_im as nat, 8);
    lemma_le_round_trip(h.c_re as nat, 8);
    lemma_le_round_trip(h.c_im as nat, 8);
    lemma_le_round_trip(i32_bits(h.i), 4);
    reveal_with_fuel(pow256, 9);
    assert(pow256(8) == 0x10000000000000000nat);
    assert(pow256(4) == 0x100000000nat);
    lemma_small_mod(h.z_re as nat, pow256(8));
    lemma_small_mod(h.z_im as nat, pow256(8));
    lemma_small_mod(h.c_re as nat, pow256(8));
    lemma_small_mod(h.c_im as nat, pow256(8));
    lemma_small_mod(i32_bits(h.i), pow256(4));
    assert(le_value(b.subrange(32, 36)) == i32_bits(h.i));
}

pub proof fn lemma_log_bytes_len(hits: Seq<Hit>)
    ensures
        log_bytes(hits).len() == 36 * hits.len(),
    decreases hits.len(),
{
    if hits.len() > 0 {
        lemma_log_bytes_len(hits.drop_last());
        lemma_hit_bytes_len(hits.last());
    }
}

/// The `k`-th record of a log occupies bytes `36 k .. 36 k + 36`.
pub proof fn lemma_log_bytes_slot(hits: Seq<Hit>, k: int)
    requires
        0 <= k < hits.len(),
    ensures
        log_bytes(hits).subrange(36 * k, 36 * k + 36) == hit_bytes(hits[k]),
    decreases hits.len(),
{
    let front = hits.drop_last();
    lemma_log_bytes_len(front);
    lemma_hit_bytes_len(hits.last());
    if k < hits.len() - 1 {
        lemma_log_bytes_slot(front, k);
        assert(log_bytes(hits).subrange(36 * k, 36 * k + 36) =~= log_bytes(front).subrange(
            36 * k,
            36 * k + 36,
        ));
    } else {
        assert(log_bytes(hits).subrange(36 * k, 36 * k + 36) =~= hit_bytes(hits.last()));
    }
}

/// Writing records to a log and reading the log back gives the same records.
pub proof fn lemma_log_round_trip(hits: Seq<Hit>)
    ensures
        log_records(log_bytes(hits)) == hits,
        log_bytes(hits).len() % 36 == 0,
{
    lemma_log_bytes_len(hits);
    let b = log_bytes(hits);
    assert forall|k: int| 0 <= k < hits.len() implies #[trigger] log_records(b)[k] == hits[k] by {
        lemma_log_bytes_slot(hits, k);
        lemma_hit_round_trip(hits[k]);
    }
    assert(log_records(b) =~= hits);
}

impl Hit {
    pub fn new(z_re: u64, z_im: u64, c_re: u64, c_im: u64, i: i32) -> (r: Hit)
        ensures
            r == (Hit { z_re, z_im, c_re, c_im, i }),
    {
        Hit { z_re, z_im, c_re, c_im, i }
    }

    /// Appends the record's 36 bytes to `out`.
    pub fn write_to(&self, out: &mut Vec<u8>)
        ensures
            final(out)@ == old(out)@ + hit_bytes(*self),
    {
        let ghost o = out@;
        put_le(out, self.z_re, 8);
        put_le(out, self.z_im, 8);
        put_le(out, self.c_re, 8);
        put_le(out, self.c_im, 8);
        let iu: u64 = if self.i >= 0 {
            self.i as u64
        } else {
            (self.i as i64 + 0x1_0000_0000) as u64
        };
        put_le(out, iu, 4);
        assert(out@ =~= o + hit_bytes(*self));
    }

    pub fn to_bytes(&self) -> (r: Vec<u8>)
        ensures
            r@ == hit_bytes(*self),
            r@.len() == RECORD_SIZE,
    {
        let mut out: Vec<u8> = Vec::new();
        self.write_to(&mut out);
        assert(out@ =~= hit_bytes(*self));
        proof {
            lemma_hit_bytes_len(*self);
        }
        out
    }

    /// The record held by `b[off..off + 36]`.
    pub fn from_slice(b: &[u8], off: usize) -> (r: Hit)
        requires
            off + 36 <= b@.len(),
        ensures
            r == hit_of_bytes(b@.subrange(off as int, off + 36)),
    {
        let len: usize = b.len();
        assert(off + 36 <= len);
        let ghost s = b@.subrange(off as int, off + 36);
        let z_re = get_le(b, off, 8);
        let z_im = get_le(b, off + 8, 8);
        let c_re = get_le(b, off + 16, 8);
        let c_im = get_le(b, off + 24, 8);
        let iu = get_le(b, off + 32, 4);
        assert(s.subrange(0, 8) =~= b@.subrange(off as int, off + 8));
        assert(s.subrange(8, 16) =~= b@.subrange(off + 8, off + 16));
        assert(s.subrange(16, 24) =~= b@.subrange(off + 16, off + 24));
        assert(s.subrange(24, 32) =~= b@.subrange(off + 24, off + 32));
        assert(s.subrange(32, 36) =~= b@.subrange(off + 32, off + 36));
        proof {
            lemma_le_value_bound(b@.subrange(off + 32, off + 36));
            reveal_with_fuel(pow256, 5);
        }
        let i: i32 = if iu < 0x8000_0000 {
            iu as i32
        } else {
            (iu as i64 - 0x1_0000_0000) as i32
        };
        Hit { z_re, z_im, c_re, c_im, i }
    }

    pub fn from_bytes(u: &[u8; 36]) -> (r: Hit)
        ensures
            r == hit_of_bytes(u@),
    {
        let b = u.as_slice();
        assert(b@.subrange(0, 36) =~= u@);
        Hit::from_slice(b, 0)
    }
}

/// The log that holds the first `end` records of `hits`.
pub fn encode_hits(hits: &[Hit], end: usize) -> (r: Vec<u8>)
    requires
        end <= hits@.len(),
    ensures
        r@ == log_bytes(hits@.take(end as int)),
        r@.len() == RECORD_SIZE * end,
{
    let mut out: Vec<u8> = Vec::new();
    let mut k: usize = 0;
    while k < end
        invariant
            k <= end,
            end <= hits@.len(),
            out@ == log_bytes(hits@.take(k as int)),
        decreases end - k,
    {
        hits[k].write_to(&mut out);
        assert(hits@.take(k + 1).drop_last() =~= hits@.take(k as int));
        k = k + 1;
    }
    proof {
        lemma_log_bytes_len(hits@.take(end as int));
    }
    out
}

/// The records of a log, in order. A trailing fragment shorter than a record
/// is not a record and is left out.
pub fn decode_log(bytes: &[u8]) -> (r: Vec<Hit>)
    ensures
        r@ == log_records(bytes@),
        r@.len() == bytes@.len() / 36,
{
    let blen: usize = bytes.len();
    let n: usize = blen / RECORD_SIZE;
    let mut out: Vec<Hit> = Vec::new();
    let mut k: usize = 0;
    while k < n
        invariant
            k <= n,
            n == bytes@.len() / 36,
            blen == bytes@.len(),
            out@.len() == k,
            forall|j: int| 0 <= j < k ==> out@[j] == #[trigger] log_records(bytes@)[j],
        decreases n - k,
    {
        assert(RECORD_SIZE * k + 36 <= bytes@.len()) by (nonlinear_arith)
            requires
                k < n,
                n == bytes@.len() / 36,
        ;
        let h = Hit::from_slice(bytes, RECORD_SIZE * k);
        out.push(h);
        k = k + 1;
    }
    assert(out@ =~= log_records(bytes@));
    out
}

} // verus!
