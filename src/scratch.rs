//! The worker's scratch buffer.
//!
//! A worker iterates one orbit at a time and writes each iterate into its
//! scratch buffer. An orbit that escapes stays in the buffer (it is
//! *committed*); one that does not escape within the iteration budget is left
//! behind the committed part and overwritten by the next orbit. When the room
//! left after a commit could not hold a whole orbit, the buffer is handed out
//! for writing and the worker starts on an empty one.
//!
//! The arithmetic of the orbit is done by the caller: the buffer decides what
//! is kept, what is handed out, and when an orbit ends.
use crate::record::Hit;
use vstd::prelude::*;

verus! {

/// Record `k` of an orbit of `(c_re, c_im)`, as far as the buffer fixes it:
/// its index is `k`, its parameter is `c`, and the orbit starts at `z = 0`.
pub open spec fn orbit_record(h: Hit, k: int, c_re: u64, c_im: u64) -> bool {
    &&& h.i == k
    &&& h.c_re == c_re
    &&& h.c_im == c_im
    &&& k == 0 ==> h.z_re == 0 && h.z_im == 0
}

/// `t` is a whole trajectory: records `0 ..= k` of one orbit, with `k >= 1`.
pub open spec fn is_trajectory(t: Seq<Hit>) -> bool {
    &&& t.len() >= 2
    &&& forall|k: int| 0 <= k < t.len() ==> orbit_record(#[trigger] t[k], k, t[0].c_re, t[0].c_im)
}

/// `s` is a concatenation of whole trajectories of at most `iterations`
/// records each: every record of index `i >= 1` directly follows record
/// `i - 1` of the same orbit, every orbit starts at `z = 0` with index 0, and
/// none ends at index 0.
pub open spec fn is_trajectory_log(s: Seq<Hit>, iterations: int) -> bool {
    &&& s.len() > 0 ==> s[0].i == 0 && s.last().i >= 1
    &&& forall|j: int| 0 <= j < s.len() ==> 0 <= #[trigger] s[j].i < iterations
    &&& forall|j: int|
        0 <= j < s.len() && #[trigger] s[j].i == 0 ==> s[j].z_re == 0 && s[j].z_im == 0
    &&& forall|j: int|
        0 < j < s.len() ==> (#[trigger] s[j].i == 0 && s[j - 1].i >= 1) || (s[j].i == s[j - 1].i + 1
            && s[j].c_re == s[j - 1].c_re && s[j].c_im == s[j - 1].c_im)
}

/// Appending a whole trajectory to a log of trajectories keeps it one.
pub proof fn lemma_log_extend(s: Seq<Hit>, t: Seq<Hit>, iterations: int)
    requires
        is_trajectory_log(s, iterations),
        is_trajectory(t),
        t.len() <= iterations,
    ensures
        is_trajectory_log(s + t, iterations),
{
    let u = s + t;
    assert forall|j: int| 0 <= j < u.len() implies 0 <= #[trigger] u[j].i < iterations by {
        if j >= s.len() {
            assert(orbit_record(t[j - s.len()], j - s.len(), t[0].c_re, t[0].c_im));
        }
    }
    assert forall|j: int|
        0 <= j < u.len() && #[trigger] u[j].i == 0 implies u[j].z_re == 0 && u[j].z_im == 0 by {
        if j >= s.len() {
            assert(orbit_record(t[j - s.len()], j - s.len(), t[0].c_re, t[0].c_im));
        }
    }
    assert forall|j: int| 0 < j < u.len() implies (#[trigger] u[j].i == 0 && u[j - 1].i >= 1) || (
    u[j].i == u[j - 1].i + 1 && u[j].c_re == u[j - 1].c_re && u[j].c_im == u[j - 1].c_im) by {
        if j > s.len() {
            assert(orbit_record(t[j - s.len()], j - s.len(), t[0].c_re, t[0].c_im));
            assert(orbit_record(t[j - 1 - s.len()], j - 1 - s.len(), t[0].c_re, t[0].c_im));
        } else if j == s.len() {
            assert(orbit_record(t[0], 0, t[0].c_re, t[0].c_im));
        }
    }
    assert(orbit_record(t[0], 0, t[0].c_re, t[0].c_im));
    assert(orbit_record(t[t.len() - 1], t.len() - 1, t[0].c_re, t[0].c_im));
}

/// What a step of an orbit led to.
pub enum Step {
    /// The orbit goes on.
    Continue,
    /// The orbit escaped and its trajectory was committed.
    Escaped,
    /// The orbit escaped, and the buffer, this trajectory included, is handed
    /// out; the worker goes on with an empty buffer.
    Deliver(Vec<Hit>),
    /// The orbit used up its iterations without escaping; nothing was
    /// committed.
    Abandoned,
}

/// A worker's scratch buffer: committed trajectories, then the records of
/// the orbit being iterated.
pub struct Scratch {
    buf: Vec<Hit>,
    start: usize,
    capacity: usize,
    iterations: i32,
    c_re: u64,
    c_im: u64,
    in_orbit: bool,
}

impl Scratch {
    /// The committed trajectories.
    pub closed spec fn committed(&self) -> Seq<Hit> {
        self.buf@.take(self.start as int)
    }

    /// The records of the current (or last) orbit, behind the committed part.
    pub closed spec fn pending(&self) -> Seq<Hit> {
        self.buf@.skip(self.start as int)
    }

    pub closed spec fn capacity_spec(&self) -> nat {
        self.capacity as nat
    }

    pub closed spec fn iterations_spec(&self) -> int {
        self.iterations as int
    }

    /// The parameter `c` of the current orbit.
    pub closed spec fn c_spec(&self) -> (u64, u64) {
        (self.c_re, self.c_im)
    }

    pub closed spec fn in_orbit_spec(&self) -> bool {
        self.in_orbit
    }

    /// What every well-formed buffer shows its users: the committed part is
    /// a log of whole trajectories, committed and pending records together
    /// fit in the capacity, and after the committed part there is room for
    /// one whole orbit.
    pub open spec fn shape(&self) -> bool {
        &&& is_trajectory_log(self.committed(), self.iterations_spec())
        &&& self.committed().len() + self.pending().len() <= self.capacity_spec()
        &&& self.committed().len() + self.iterations_spec() <= self.capacity_spec()
        &&& self.pending().len() <= self.iterations_spec()
        &&& 1 <= self.iterations_spec()
    }

    /// A well-formed buffer has its shape.
    pub proof fn lemma_wf_shape(&self)
        requires
            self.wf(),
        ensures
            self.shape(),
    {
    }

    pub closed spec fn wf(&self) -> bool {
        &&& self.iterations >= 1
        &&& self.start <= self.buf@.len()
        &&& self.start + self.iterations <= self.capacity
        &&& self.pending().len() <= self.iterations
        &&& is_trajectory_log(self.committed(), self.iterations as int)
        &&& forall|k: int|
            0 <= k < self.pending().len() ==> orbit_record(
                #[trigger] self.pending()[k],
                k,
                self.c_re,
                self.c_im,
            )
        &&& self.in_orbit ==> 1 <= self.pending().len() < self.iterations
    }

    /// An empty buffer with room for `capacity` records, for orbits of at
    /// most `iterations` records.
    pub fn new(capacity: usize, iterations: i32) -> (r: Scratch)
        requires
            1 <= iterations,
            iterations <= capacity,
        ensures
            r.wf(),
            r.shape(),
            r.committed() == Seq::<Hit>::empty(),
            r.pending() == Seq::<Hit>::empty(),
            !r.in_orbit_spec(),
            r.capacity_spec() == capacity,
            r.iterations_spec() == iterations,
    {
        let r = Scratch {
            buf: Vec::new(),
            start: 0,
            capacity,
            iterations,
            c_re: 0,
            c_im: 0,
            in_orbit: false,
        };
        assert(r.committed() =~= Seq::<Hit>::empty());
        assert(r.pending() =~= Seq::<Hit>::empty());
        r
    }

    /// Whether the current orbit has iterations left.
    pub fn in_orbit(&self) -> (r: bool)
        ensures
            r == self.in_orbit_spec(),
    {
        self.in_orbit
    }

    /// The number of committed records.
    pub fn committed_len(&self) -> (r: usize)
        requires
            self.wf(),
        ensures
            r == self.committed().len(),
    {
        self.start
    }

    /// Starts the orbit of `c`: writes its record 0 (`z = 0`) over whatever
    /// followed the committed part.
    pub fn begin_orbit(&mut self, c_re: u64, c_im: u64)
        requires
            old(self).wf(),
        ensures
            final(self).wf(),
            final(self).shape(),
            final(self).committed() == old(self).committed(),
            final(self).pending() == seq![Hit { z_re: 0, z_im: 0, c_re, c_im, i: 0 }],
            final(self).c_spec() == (c_re, c_im),
            final(self).in_orbit_spec() == (old(self).iterations_spec() > 1),
            final(self).capacity_spec() == old(self).capacity_spec(),
            final(self).iterations_spec() == old(self).iterations_spec(),
    {
        let ghost before = self.committed();
        self.buf.truncate(self.start);
        self.buf.push(Hit { z_re: 0, z_im: 0, c_re, c_im, i: 0 });
        self.c_re = c_re;
        self.c_im = c_im;
        self.in_orbit = self.iterations > 1;
        assert(self.committed() =~= before);
        assert(self.pending() =~= seq![Hit { z_re: 0, z_im: 0, c_re, c_im, i: 0 }]);
    }

    /// Writes the next iterate `z` of the current orbit and decides, from
    /// whether it escaped, what becomes of the orbit.
    ///
    /// An escaping orbit is committed whole, however late it escapes; the
    /// buffer is handed out when what is left of its room could not hold
    /// another whole orbit. An orbit that reaches its last iteration without
    /// escaping commits nothing: its records stay behind the committed part,
    /// to be overwritten.
    #[verifier::rlimit(40)]
    pub fn step(&mut self, z_re: u64, z_im: u64, escaped: bool) -> (r: Step)
        requires
            old(self).wf(),
            old(self).in_orbit_spec(),
        ensures
            final(self).wf(),
            final(self).shape(),
            r matches Step::Deliver(v) ==> is_trajectory_log(v@, old(self).iterations_spec())
                && v@.len() <= old(self).capacity_spec(),
            final(self).capacity_spec() == old(self).capacity_spec(),
            final(self).iterations_spec() == old(self).iterations_spec(),
            final(self).c_spec() == old(self).c_spec(),
            ({
                let (c_re, c_im) = old(self).c_spec();
                let h = Hit { z_re, z_im, c_re, c_im, i: old(self).pending().len() as i32 };
                let t = old(self).pending().push(h);
                let room = old(self).capacity_spec() - old(self).committed().len() - t.len();
                &&& is_trajectory(t)
                &&& escaped && room >= old(self).iterations_spec() ==> {
                    &&& r is Escaped
                    &&& final(self).committed() == old(self).committed() + t
                    &&& final(self).pending() == Seq::<Hit>::empty()
                    &&& !final(self).in_orbit_spec()
                }
                &&& escaped && room < old(self).iterations_spec() ==> {
                    &&& r matches Step::Deliver(v) && v@ == old(self).committed() + t
                    &&& final(self).committed() == Seq::<Hit>::empty()
                    &&& final(self).pending() == Seq::<Hit>::empty()
                    &&& !final(self).in_orbit_spec()
                }
                &&& !escaped && t.len() == old(self).iterations_spec() ==> {
                    &&& r is Abandoned
                    &&& final(self).committed() == old(self).committed()
                    &&& final(self).pending() == t
                    &&& !final(self).in_orbit_spec()
                }
                &&& !escaped && t.len() < old(self).iterations_spec() ==> {
                    &&& r is Continue
                    &&& final(self).committed() == old(self).committed()
                    &&& final(self).pending() == t
                    &&& final(self).in_orbit_spec()
                }
            }),
    {
        let ghost old_committed = self.committed();
        let ghost old_pending = self.pending();
        let k: usize = self.buf.len() - self.start;
        let h = Hit { z_re, z_im, c_re: self.c_re, c_im: self.c_im, i: k as i32 };
        self.buf.push(h);
        let ghost t = old_pending.push(h);
        assert(self.buf@ =~= old_committed + t);
        assert(self.buf@.take(self.start as int) =~= old_committed);
        assert(self.buf@.skip(self.start as int) =~= t);
        assert(is_trajectory(t)) by {
            assert forall|j: int| 0 <= j < t.len() implies orbit_record(
                #[trigger] t[j],
                j,
                t[0].c_re,
                t[0].c_im,
            ) by {
                assert(orbit_record(t[0], 0, self.c_re, self.c_im));
            }
        }
        let next: usize = self.buf.len();
        if escaped {
            self.in_orbit = false;
            proof {
                lemma_log_extend(old_committed, t, self.iterations as int);
            }
            if self.capacity - next >= self.iterations as usize {
                self.start = next;
                assert(self.committed() =~= old_committed + t);
                assert(self.pending() =~= Seq::<Hit>::empty());
                Step::Escaped
            } else {
                let mut full: Vec<Hit> = Vec::new();
                std::mem::swap(&mut full, &mut self.buf);
                self.start = 0;
                assert(full@ == old_committed + t);
                assert(full@.len() <= self.capacity);
                assert(self.committed() =~= Seq::<Hit>::empty());
                assert(self.pending() =~= Seq::<Hit>::empty());
                Step::Deliver(full)
            }
        } else if next - self.start == self.iterations as usize {
            self.in_orbit = false;
            Step::Abandoned
        } else {
            Step::Continue
        }
    }

    /// Hands out the committed trajectories; the records of an orbit that was
    /// not committed are left out.
    pub fn finish(self) -> (r: Vec<Hit>)
        requires
            self.wf(),
        ensures
            r@ == self.committed(),
            is_trajectory_log(r@, self.iterations_spec()),
            r@.len() <= self.capacity_spec(),
    {
        let mut buf = self.buf;
        buf.truncate(self.start);
        buf
    }
}

} // verus!
