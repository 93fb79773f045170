//! The accumulator's count grid.
//!
//! Each record of a log is binned twice, once as it is and once mirrored
//! across the real axis; the caller maps the record's `z` to a column and to
//! the rows of the two reflections. Only records past their first iteration
//! are binned, and a bin outside the frame is dropped.
use vstd::prelude::*;

verus! {

/// A record placed on the pixel grid: its iteration index, the column of its
/// `z`, the row of `z` and the row of its mirror image `conj(z)`.
#[derive(Clone, Copy, Debug, PartialEq, Eq, Structural)]
pub struct Placed {
    pub i: i32,
    pub x: i64,
    pub y: i64,
    pub y_mirror: i64,
}

/// One count increment: which record, at which pixel (row-major index), and
/// whether it came from the mirror image.
#[derive(Clone, Copy, Debug, PartialEq, Eq, Structural)]
pub struct Bin {
    pub record: usize,
    pub pixel: usize,
    pub mirrored: bool,
}

/// The row-major index of `(x, y)` on a `width` by `height` grid, if the
/// pixel lies in the frame.
pub open spec fn pixel_of(width: int, height: int, x: int, y: int) -> Option<int> {
    if 0 <= x < width && 0 <= y < height {
        Some(y * width + x)
    } else {
        None
    }
}

/// The increments that record `e`, at position `k` of its log, makes: the
/// mirror image first, then the record itself.
pub open spec fn record_bins(e: Placed, k: int, width: int, height: int) -> Seq<Bin> {
    if e.i > 1 {
        let m = match pixel_of(width, height, e.x as int, e.y_mirror as int) {
            Some(p) => seq![Bin { record: k as usize, pixel: p as usize, mirrored: true }],
            None => Seq::empty(),
        };
        let d = match pixel_of(width, height, e.x as int, e.y as int) {
            Some(p) => seq![Bin { record: k as usize, pixel: p as usize, mirrored: false }],
            None => Seq::empty(),
        };
        m + d
    } else {
        Seq::empty()
    }
}

/// The increments that the log `s` makes, in order.
pub open spec fn log_bins(s: Seq<Placed>, width: int, height: int) -> Seq<Bin>
    decreases s.len(),
{
    if s.len() == 0 {
        Seq::empty()
    } else {
        log_bins(s.drop_last(), width, height) + record_bins(
            s.last(),
            s.len() - 1,
            width,
            height,
        )
    }
}

/// How many increments record `e` makes at pixel `p`.
pub open spec fn record_hits(e: Placed, width: int, height: int, p: int) -> nat {
    if e.i > 1 {
        (if pixel_of(width, height, e.x as int, e.y_mirror as int) == Some(p) {
            1nat
        } else {
            0nat
        }) + (if pixel_of(width, height, e.x as int, e.y as int) == Some(p) {
            1nat
        } else {
            0nat
        })
    } else {
        0
    }
}

/// How many increments the log `s` makes at pixel `p`.
pub open spec fn hits_at(s: Seq<Placed>, width: int, height: int, p: int) -> nat
    decreases s.len(),
{
    if s.len() == 0 {
        0
    } else {
        hits_at(s.drop_last(), width, height, p) + record_hits(s.last(), width, height, p)
    }
}

pub proof fn lemma_pixel_in_range(width: int, height: int, x: int, y: int)
    requires
        0 <= x < width,
        0 <= y < height,
    ensures
        0 <= y * width + x < width * height,
{
    assert(y * width + x < width * height) by (nonlinear_arith)
        requires
            0 <= x < width,
            0 <= y < height,
    ;
    assert(0 <= y * width) by (nonlinear_arith)
        requires
            0 <= y,
            0 <= width,
    ;
}

/// Two different in-frame pixels have different indices.
pub proof fn lemma_pixel_injective(width: int, height: int, x1: int, y1: int, x2: int, y2: int)
    requires
        pixel_of(width, height, x1, y1) is Some,
        pixel_of(width, height, x2, y2) is Some,
        pixel_of(width, height, x1, y1) == pixel_of(width, height, x2, y2),
    ensures
        x1 == x2 && y1 == y2,
{
    assert(x1 == x2 && y1 == y2) by (nonlinear_arith)
        requires
            0 <= x1 < width,
            0 <= x2 < width,
            0 <= y1,
            0 <= y2,
            y1 * width + x1 == y2 * width + x2,
    {
        if y1 < y2 {
            assert(y1 * width + width <= y2 * width);
        } else if y2 < y1 {
            assert(y2 * width + width <= y1 * width);
        }
    }
}


pub proof fn lemma_hits_at_append(a: Seq<Placed>, b: Seq<Placed>, width: int, height: int, p: int)
    ensures
        hits_at(a + b, width, height, p) == hits_at(a, width, height, p) + hits_at(
            b,
            width,
            height,
            p,
        ),
    decreases b.len(),
{
    if b.len() == 0 {
        assert(a + b =~= a);
    } else {
        lemma_hits_at_append(a, b.drop_last(), width, height, p);
        assert((a + b).drop_last() =~= a + b.drop_last());
    }
}

pub proof fn lemma_hits_at_remove(s: Seq<Placed>, j: int, width: int, height: int, p: int)
    requires
        0 <= j < s.len(),
    ensures
        hits_at(s, width, height, p) == hits_at(s.remove(j), width, height, p) + record_hits(
            s[j],
            width,
            height,
            p,
        ),
{
    let a = s.take(j);
    let b = s.skip(j + 1);
    assert(s =~= a + seq![s[j]] + b);
    assert(s.remove(j) =~= a + b);
    lemma_hits_at_append(a + seq![s[j]], b, width, height, p);
    lemma_hits_at_append(a, seq![s[j]], width, height, p);
    lemma_hits_at_append(a, b, width, height, p);
    assert(seq![s[j]].drop_last() =~= Seq::<Placed>::empty());
    assert(hits_at(seq![s[j]], width, height, p) == hits_at(
        Seq::<Placed>::empty(),
        width,
        height,
        p,
    ) + record_hits(s[j], width, height, p));
}

/// The counts do not depend on the order of the log: two logs that hold the
/// same records, each as often, give every pixel the same count.
pub proof fn law_order_independent(s1: Seq<Placed>, s2: Seq<Placed>, width: int, height: int, p: int)
    requires
        s1.to_multiset() == s2.to_multiset(),
    ensures
        hits_at(s1, width, height, p) == hits_at(s2, width, height, p),
    decreases s1.len(),
{
    broadcast use vstd::seq_lib::group_to_multiset_ensures;

    if s1.len() == 0 {
        assert(s1.to_multiset().len() == 0);
        assert(s2.len() == 0);
    } else {
        let x = s1.last();
        let r1 = s1.drop_last();
        assert(s1 =~= r1.push(x));
        assert(s2.to_multiset().count(x) > 0);
        assert(s2.contains(x));
        let j = choose|j: int| 0 <= j < s2.len() && s2[j] == x;
        let r2 = s2.remove(j);
        assert(r2.to_multiset() =~= r1.to_multiset());
        law_order_independent(r1, r2, width, height, p);
        lemma_hits_at_remove(s2, j, width, height, p);
    }
}

/// A record past its first iteration whose two reflections both lie in the
/// frame adds one count at the pixel of `z` and one at the pixel of
/// `conj(z)`, and nothing anywhere else. Where the two pixels are one (`z` on
/// the real axis), that pixel gets both counts.
pub proof fn law_mirrored_pair(e: Placed, width: int, height: int, p: int)
    requires
        e.i > 1,
        0 <= e.x < width,
        0 <= e.y < height,
        0 <= e.y_mirror < height,
    ensures
        ({
            let d = e.y * width + e.x;
            let m = e.y_mirror * width + e.x;
            &&& hits_at(seq![e], width, height, p) == (if p == d {
                1int
            } else {
                0int
            }) + (if p == m {
                1int
            } else {
                0int
            })
            &&& e.y == e.y_mirror ==> hits_at(seq![e], width, height, d) == 2
            &&& e.y != e.y_mirror ==> hits_at(seq![e], width, height, d) == 1 && hits_at(
                seq![e],
                width,
                height,
                m,
            ) == 1
        }),
{
    assert(seq![e].drop_last() =~= Seq::<Placed>::empty());
    let d = e.y * width + e.x;
    let m = e.y_mirror * width + e.x;
    assert forall|q: int| #[trigger] hits_at(seq![e], width, height, q) == record_hits(e, width, height, q) by {
        assert(hits_at(seq![e], width, height, q) == hits_at(
            Seq::<Placed>::empty(),
            width,
            height,
            q,
        ) + record_hits(e, width, height, q));
    }
    assert(pixel_of(width, height, e.x as int, e.y as int) == Some(d));
    assert(pixel_of(width, height, e.x as int, e.y_mirror as int) == Some(m));
    if e.y != e.y_mirror && d == m {
        lemma_pixel_injective(width, height, e.x as int, e.y as int, e.x as int, e.y_mirror as int);
    }
}

/// The count grid: `width * height` counters, row-major, and their total.
pub struct CountGrid {
    width: usize,
    height: usize,
    counts: Vec<u64>,
    total: u64,
}

impl CountGrid {
    pub closed spec fn width_spec(&self) -> int {
        self.width as int
    }

    pub closed spec fn height_spec(&self) -> int {
        self.height as int
    }

    /// The counters, row-major.
    pub closed spec fn counts_spec(&self) -> Seq<u64> {
        self.counts@
    }

    /// The sum of all counters.
    pub closed spec fn total_spec(&self) -> int {
        self.total as int
    }

    pub closed spec fn wf(&self) -> bool {
        &&& self.counts@.len() == self.width * self.height
        &&& self.width * self.height <= usize::MAX
        &&& forall|p: int| 0 <= p < self.counts@.len() ==> #[trigger] self.counts@[p] <= self.total
    }

    /// A well-formed grid holds one counter per pixel.
    pub proof fn lemma_wf_len(&self)
        requires
            self.wf(),
        ensures
            self.counts_spec().len() == self.width_spec() * self.height_spec(),
    {
    }

    /// A grid of `width` by `height` zero counters.
    pub fn new(width: usize, height: usize) -> (r: CountGrid)
        requires
            width * height <= usize::MAX,
        ensures
            r.wf(),
            r.width_spec() == width,
            r.height_spec() == height,
            r.counts_spec() == Seq::new((width * height) as nat, |p: int| 0u64),
            r.total_spec() == 0,
    {
        let n: usize = width * height;
        let mut counts: Vec<u64> = Vec::with_capacity(n);
        let mut k: usize = 0;
        while k < n
            invariant
                k <= n,
                counts@ == Seq::new(k as nat, |p: int| 0u64),
            decreases n - k,
        {
            counts.push(0);
            k = k + 1;
            assert(counts@ =~= Seq::new(k as nat, |p: int| 0u64));
        }
        CountGrid { width, height, counts, total: 0 }
    }

    pub fn width(&self) -> (r: usize)
        ensures
            r == self.width_spec(),
    {
        self.width
    }

    pub fn height(&self) -> (r: usize)
        ensures
            r == self.height_spec(),
    {
        self.height
    }

    /// The sum of all counters.
    pub fn total(&self) -> (r: u64)
        ensures
            r == self.total_spec(),
    {
        self.total
    }

    /// The counters, row-major.
    pub fn counts(&self) -> (r: &Vec<u64>)
        ensures
            r@ == self.counts_spec(),
    {
        &self.counts
    }

    /// The counter of pixel `(x, y)`.
    pub fn count_at(&self, x: usize, y: usize) -> (r: u64)
        requires
            self.wf(),
            x < self.width_spec(),
            y < self.height_spec(),
        ensures
            r == self.counts_spec()[y * self.width_spec() + x],
    {
        proof {
            lemma_pixel_in_range(self.width as int, self.height as int, x as int, y as int);
            assert(y * self.width <= y * self.width + x);
        }
        self.counts[y * self.width + x]
    }

    /// Adds one to the counter of `(x, y)` if the pixel lies in the frame.
    fn bump(&mut self, x: i64, y: i64) -> (r: Option<usize>)
        requires
            old(self).wf(),
            old(self).total < u64::MAX,
        ensures
            final(self).wf(),
            final(self).width == old(self).width,
            final(self).height == old(self).height,
            pixel_of(old(self).width as int, old(self).height as int, x as int, y as int) == match r {
                Some(q) => Some(q as int),
                None => None::<int>,
            },
            r matches Some(q) ==> q < old(self).counts@.len(),
            match r {
                Some(p) => final(self).counts@ == old(self).counts@.update(
                    p as int,
                    (old(self).counts@[p as int] + 1) as u64,
                ) && final(self).total == old(self).total + 1,
                None => final(self).counts@ == old(self).counts@ && final(self).total
                    == old(self).total,
            },
    {
        if 0 <= x && (x as u128) < (self.width as u128) && 0 <= y && (y as u128) < (
        self.height as u128) {
            proof {
                lemma_pixel_in_range(self.width as int, self.height as int, x as int, y as int);
            }
            assert(y * self.width <= y * self.width + x);
            let p: usize = y as usize * self.width + x as usize;
            let v = self.counts[p] + 1;
            self.counts.set(p, v);
            self.total = self.total + 1;
            Some(p)
        } else {
            None
        }
    }

    /// Bins every record of `placed`, in order, and returns the increments
    /// made, in order: for each record past its first iteration, its mirror
    /// image and then the record itself, each where it lies in the frame.
    pub fn accumulate(&mut self, placed: &[Placed]) -> (r: Vec<Bin>)
        requires
            old(self).wf(),
            old(self).total_spec() + 2 * placed@.len() <= u64::MAX,
        ensures
            final(self).wf(),
            final(self).width_spec() == old(self).width_spec(),
            final(self).height_spec() == old(self).height_spec(),
            r@ == log_bins(placed@, old(self).width_spec(), old(self).height_spec()),
            forall|p: int|
                0 <= p < final(self).counts_spec().len() ==> #[trigger] final(self).counts_spec()[p]
                    == old(self).counts_spec()[p] + hits_at(
                    placed@,
                    old(self).width_spec(),
                    old(self).height_spec(),
                    p,
                ),
            final(self).counts_spec().len() == old(self).counts_spec().len(),
            final(self).total_spec() == old(self).total_spec() + log_bins(
                placed@,
                old(self).width_spec(),
                old(self).height_spec(),
            ).len(),
            final(self).total_spec() <= old(self).total_spec() + 2 * placed@.len(),
    {
        let ghost w = self.width as int;
        let ghost h = self.height as int;
        let ghost start = self.counts@;
        let ghost total0 = self.total as int;
        let mut out: Vec<Bin> = Vec::new();
        let mut k: usize = 0;
        while k < placed.len()
            invariant
                k <= placed@.len(),
                self.wf(),
                self.width == w,
                self.height == h,
                self.counts@.len() == start.len(),
                self.total <= total0 + 2 * k,
                self.total == total0 + out@.len(),
                total0 + 2 * placed@.len() <= u64::MAX,
                out@ == log_bins(placed@.take(k as int), w, h),
                forall|p: int|
                    0 <= p < start.len() ==> #[trigger] self.counts@[p] == start[p] + hits_at(
                        placed@.take(k as int),
                        w,
                        h,
                        p,
                    ),
            decreases placed@.len() - k,
        {
            let e = placed[k];
            let ghost before = self.counts@;
            let ghost out0 = out@;
            assert(placed@.take(k + 1).drop_last() =~= placed@.take(k as int));
            assert(placed@.take(k + 1).last() == e);
            if e.i > 1 {
                let m = self.bump(e.x, e.y_mirror);
                let ghost mid = self.counts@;
                let d = self.bump(e.x, e.y);
                match m {
                    Some(p) => {
                        out.push(Bin { record: k, pixel: p, mirrored: true });
                    },
                    None => {},
                }
                match d {
                    Some(p) => {
                        out.push(Bin { record: k, pixel: p, mirrored: false });
                    },
                    None => {},
                }
                assert(out@ =~= out0 + record_bins(e, k as int, w, h));
                assert forall|p: int| 0 <= p < start.len() implies #[trigger] self.counts@[p]
                    == before[p] + record_hits(e, w, h, p) by {}
            } else {
                assert(out@ =~= out0 + record_bins(e, k as int, w, h));
            }
            k = k + 1;
        }
        assert(placed@.take(placed@.len() as int) =~= placed@);
        out
    }
}

} // verus!
