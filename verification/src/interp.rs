//! Interpolation of a component rendered in the past: a small ring of
//! `(tick, value)` keyframes from the confirmed timeline, sampled at a
//! render time between two of them. Values are signed 32-bit
//! fixed-point numbers. Keyframe ticks ascend with at most 256 ticks
//! between neighbours, so the ring spans well under half the tick
//! space and wrapping comparisons stay unambiguous. When the
//! bracketing pair is missing, the engine holds the nearest known
//! value and counts a stall.
use vstd::prelude::*;
use crate::tick::lemma_tick_delta_additive;
use crate::tick::lemma_tick_delta_antisym;
use crate::tick::lemma_tick_delta_range;
use crate::tick::lemma_tick_delta_zero;
use crate::tick::tick_delta;
use crate::tick::tick_diff;

verus! {

/// Most keyframes an interpolator may hold.
pub const INTERP_CAP: usize = 64;

/// The linear blend between `v0` and `v1` at position `p` out of `t`
/// (both in 1/256-tick units), with the division rounding toward zero.
pub open spec fn lerp(v0: int, v1: int, p: int, t: int) -> int {
    if v1 >= v0 {
        v0 + (v1 - v0) * p / t
    } else {
        v0 - (v0 - v1) * p / t
    }
}

/// Keyframe ticks strictly ascend, by at most 256 per step.
pub open spec fn frames_ordered(s: Seq<(u16, i32)>) -> bool {
    forall|i: int|
        0 <= i < s.len() - 1 ==> 0 < tick_delta(#[trigger] s[i + 1].0, s[i].0) <= 256
}

/// In an ordered keyframe run, any later tick is ahead of any earlier
/// one by at most 256 ticks per step between them.
proof fn lemma_frames_span(s: Seq<(u16, i32)>, i: int, j: int)
    requires
        frames_ordered(s),
        s.len() <= 64,
        0 <= i <= j < s.len(),
    ensures
        0 <= tick_delta(s[j].0, s[i].0) <= (j - i) * 256,
    decreases j - i,
{
    if i == j {
        lemma_tick_delta_zero(s[i].0, s[i].0);
    } else {
        lemma_frames_span(s, i, j - 1);
        assert(0 < tick_delta(s[j].0, s[j - 1].0) <= 256) by {
            assert(s[(j - 1) + 1] == s[j]);
        }
        lemma_tick_delta_additive(s[j].0, s[j - 1].0, s[i].0);
    }
}

/// Keyframe ring of one interpolated component.
pub struct Interpolator {
    /// `(tick, value)` keyframes.
    pub samples: Vec<(u16, i32)>,
    /// How many samples found no bracketing pair.
    pub stall_count: u32,
}

impl Interpolator {
    pub open spec fn wf(self) -> bool {
        &&& self.samples@.len() <= INTERP_CAP
        &&& frames_ordered(self.samples@)
    }

    pub fn new() -> (r: Interpolator)
        ensures
            r.wf(),
            r.samples@.len() == 0,
            r.stall_count == 0,
    {
        Interpolator { samples: Vec::new(), stall_count: 0 }
    }

    /// Record a confirmed keyframe. Keyframes arrive in tick order,
    /// each at most 256 ticks after the one before; the oldest falls
    /// out when the ring is full.
    pub fn add_sample(&mut self, t: u16, v: i32)
        requires
            old(self).wf(),
            old(self).samples@.len() > 0 ==> 0 < tick_delta(t, old(self).samples@.last().0) <= 256,
        ensures
            final(self).wf(),
            final(self).stall_count == old(self).stall_count,
            final(self).samples@.len() > 0,
            final(self).samples@.last() == (t, v),
            old(self).samples@.len() < INTERP_CAP ==> final(self).samples@ == old(
                self,
            ).samples@.push((t, v)),
            old(self).samples@.len() == INTERP_CAP ==> final(self).samples@ == old(
                self,
            ).samples@.subrange(1, INTERP_CAP as int).push((t, v)),
    {
        if self.samples.len() == INTERP_CAP {
            self.samples.remove(0);
            proof {
                assert(self.samples@ =~= old(self).samples@.subrange(1, INTERP_CAP as int));
            }
            proof {
                assert forall|i: int| 0 <= i < self.samples@.len() - 1 implies 0 < tick_delta(
                    #[trigger] self.samples@[i + 1].0,
                    self.samples@[i].0,
                ) <= 256 by {
                    assert(self.samples@[i + 1] == old(self).samples@[i + 2]);
                    assert(self.samples@[i] == old(self).samples@[i + 1]);
                    assert(old(self).samples@[(i + 1) + 1] == old(self).samples@[i + 2]);
                }
            }
        }
        let ghost before = self.samples@;
        self.samples.push((t, v));
        proof {
            assert forall|i: int| 0 <= i < self.samples@.len() - 1 implies 0 < tick_delta(
                #[trigger] self.samples@[i + 1].0,
                self.samples@[i].0,
            ) <= 256 by {
                if i + 1 < before.len() {
                    assert(before[i + 1] == self.samples@[i + 1]);
                } else {
                    assert(self.samples@[i] == before.last());
                    assert(self.samples@[i + 1] == (t, v));
                }
            }
        }
    }

    /// Whether the render time `tick` lies inside the recorded
    /// keyframe range, so that a bracketing pair exists.
    pub open spec fn covers(self, tick: u16) -> bool {
        &&& self.samples@.len() > 0
        &&& tick_delta(tick, self.samples@[0].0) >= 0
        &&& tick_delta(self.samples@.last().0, tick) > 0
    }

    /// Sample the component at render time `tick + frac/256` ticks.
    /// Inside the keyframe range the value is the linear blend of the
    /// bracketing pair, and the returned index names that pair. Outside
    /// it the nearest keyframe value (or zero, with no keyframes at
    /// all) is held and the stall counter increments.
    pub fn sample_at(&mut self, tick: u16, frac: u8) -> (r: (i32, Option<usize>))
        requires
            old(self).wf(),
        ensures
            final(self).wf(),
            final(self).samples@ == old(self).samples@,
            r.1 is Some <==> old(self).covers(tick),
            r.1 matches Some(i) ==> {
                &&& 0 <= i && i + 1 < old(self).samples@.len()
                &&& tick_delta(tick, old(self).samples@[i as int].0) >= 0
                &&& tick_delta(tick, old(self).samples@[i + 1].0) < 0
                &&& r.0 as int == lerp(
                    old(self).samples@[i as int].1 as int,
                    old(self).samples@[i + 1].1 as int,
                    tick_delta(tick, old(self).samples@[i as int].0) * 256 + frac,
                    tick_delta(old(self).samples@[i + 1].0, old(self).samples@[i as int].0) * 256,
                )
                &&& final(self).stall_count == old(self).stall_count
            },
            r.1 is None ==> final(self).stall_count as int == old(self).stall_count as int + if old(
                self,
            ).stall_count < 0xffff_ffff {
                1int
            } else {
                0int
            },
            r.1 is None && old(self).samples@.len() == 0 ==> r.0 == 0,
            r.1 is None && old(self).samples@.len() > 0 && tick_delta(
                tick,
                old(self).samples@.last().0,
            ) < 0 ==> r.0 == old(self).samples@[0].1,
            r.1 is None && old(self).samples@.len() > 0 && tick_delta(
                tick,
                old(self).samples@.last().0,
            ) >= 0 ==> r.0 == old(self).samples@.last().1,
    {
        let n: usize = self.samples.len();
        if n == 0 {
            if self.stall_count < 0xffff_ffff {
                self.stall_count = self.stall_count + 1;
            }
            return (0, None);
        }
        let mut i: usize = n;
        while i > 0 && tick_diff(tick, self.samples[i - 1].0) < 0
            invariant
                i <= n,
                n == self.samples@.len(),
                self.wf(),
                forall|j: int| i <= j < n ==> tick_delta(tick, (#[trigger] self.samples@[j]).0) < 0,
            decreases i,
        {
            i = i - 1;
        }
        if i == 0 {
            if self.stall_count < 0xffff_ffff {
                self.stall_count = self.stall_count + 1;
            }
            let (_t0, v0) = self.samples[0];
            proof {
                assert(tick_delta(tick, self.samples@[0].0) < 0);
            }
            return (v0, None);
        }
        let idx: usize = i - 1;
        proof {
            assert(tick_delta(tick, self.samples@[idx as int].0) >= 0);
        }
        if idx == n - 1 {
            if self.stall_count < 0xffff_ffff {
                self.stall_count = self.stall_count + 1;
            }
            let (_tl, vl) = self.samples[n - 1];
            proof {
                if self.covers(tick) {
                    lemma_tick_delta_antisym(self.samples@.last().0, tick);
                }
            }
            return (vl, None);
        }
        let (t0, v0) = self.samples[idx];
        let (t1, v1) = self.samples[idx + 1];
        let d0: i64 = tick_diff(tick, t0) as i64;
        let dd: i64 = tick_diff(t1, t0) as i64;
        proof {
            assert(self.samples@[idx as int + 1] == self.samples@[idx + 1]);
            assert(0 < tick_delta(t1, t0) <= 256) by {
                assert(self.samples@[(idx as int) + 1] == (t1, v1));
            }
            assert(tick_delta(tick, self.samples@[idx + 1].0) < 0);
            lemma_tick_delta_range(tick, t1);
            lemma_tick_delta_additive(tick, t1, t0);
            assert(0 <= d0 < dd);
            assert(1 <= dd <= 256);
            lemma_frames_span(self.samples@, 0, idx as int);
            lemma_tick_delta_additive(tick, t0, self.samples@[0].0);
            assert(tick_delta(tick, self.samples@[0].0) >= 0);
            lemma_frames_span(self.samples@, idx as int + 1, n - 1);
            lemma_tick_delta_antisym(tick, t1);
            lemma_tick_delta_additive(self.samples@.last().0, t1, tick);
            assert(tick_delta(self.samples@.last().0, tick) > 0);
        }
        let p: i64 = d0 * 256 + frac as i64;
        let t: i64 = dd * 256;
        proof {
            assert(0 <= p && p < t && t <= 65536);
        }
        let blended: i64 = if v1 >= v0 {
            let x: u64 = ((v1 as i64) - (v0 as i64)) as u64;
            proof {
                assert((x as int) * (p as int) <= 0xffff_ffff * 65536) by (nonlinear_arith)
                    requires
                        0 <= x < 0x1_0000_0000,
                        0 <= p <= 65536,
                ;
                assert(0 <= (x as int) * (p as int) / (t as int) <= x) by (nonlinear_arith)
                    requires
                        0 <= (x as int),
                        0 <= (p as int) < (t as int),
                        0 < (t as int),
                ;
            }
            let q: u64 = x * (p as u64) / (t as u64);
            (v0 as i64) + (q as i64)
        } else {
            let x: u64 = ((v0 as i64) - (v1 as i64)) as u64;
            proof {
                assert((x as int) * (p as int) <= 0xffff_ffff * 65536) by (nonlinear_arith)
                    requires
                        0 <= x < 0x1_0000_0000,
                        0 <= p <= 65536,
                ;
                assert(0 <= (x as int) * (p as int) / (t as int) <= x) by (nonlinear_arith)
                    requires
                        0 <= (x as int),
                        0 <= (p as int) < (t as int),
                        0 < (t as int),
                ;
            }
            let q: u64 = x * (p as u64) / (t as u64);
            (v0 as i64) - (q as i64)
        };
        (blended as i32, Some(idx))
    }
}


impl Interpolator {
    /// Sample with nearest-keyframe semantics: inside the range the
    /// value is the bracketing endpoint closer to the render time;
    /// outside it, the same hold and stall behaviour as the linear
    /// sampler.
    pub fn sample_nearest(&mut self, tick: u16, frac: u8) -> (r: (i32, Option<usize>))
        requires
            old(self).wf(),
        ensures
            final(self).wf(),
            final(self).samples@ == old(self).samples@,
            r.1 is Some <==> old(self).covers(tick),
            r.1 matches Some(i) ==> {
                &&& 0 <= i && i + 1 < old(self).samples@.len()
                &&& tick_delta(tick, old(self).samples@[i as int].0) >= 0
                &&& tick_delta(tick, old(self).samples@[i + 1].0) < 0
                &&& r.0 == if 2 * (tick_delta(tick, old(self).samples@[i as int].0) * 256
                    + frac) < tick_delta(
                    old(self).samples@[i + 1].0,
                    old(self).samples@[i as int].0,
                ) * 256 {
                    old(self).samples@[i as int].1
                } else {
                    old(self).samples@[i + 1].1
                }
                &&& final(self).stall_count == old(self).stall_count
            },
            r.1 is None ==> final(self).stall_count as int == old(self).stall_count as int + if old(
                self,
            ).stall_count < 0xffff_ffff {
                1int
            } else {
                0int
            },
            r.1 is None && old(self).samples@.len() == 0 ==> r.0 == 0,
            r.1 is None && old(self).samples@.len() > 0 && tick_delta(
                tick,
                old(self).samples@.last().0,
            ) < 0 ==> r.0 == old(self).samples@[0].1,
            r.1 is None && old(self).samples@.len() > 0 && tick_delta(
                tick,
                old(self).samples@.last().0,
            ) >= 0 ==> r.0 == old(self).samples@.last().1,
    {
        let (held, idx) = self.sample_at(tick, frac);
        match idx {
            Some(i) => {
                let (t0, v0) = self.samples[i];
                let (t1, v1) = self.samples[i + 1];
                proof {
                    assert(self.samples@[(i as int) + 1] == (t1, v1));
                    lemma_tick_delta_range(tick, t0);
                    lemma_tick_delta_range(t1, t0);
                }
                let d0: i64 = tick_diff(tick, t0) as i64;
                let dd: i64 = tick_diff(t1, t0) as i64;
                let p: i64 = d0 * 256 + frac as i64;
                let t: i64 = dd * 256;
                if 2 * p < t {
                    (v0, Some(i))
                } else {
                    (v1, Some(i))
                }
            },
            None => (held, None),
        }
    }
}

} // verus!
