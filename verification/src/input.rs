//! Per-client input handling: per-tick input snapshots, diff encoding
//! against the prior tick, and the ring buffer the server replays
//! inputs from. Axis values ride as signed 16-bit fixed-point numbers;
//! buttons as 0 or 1.
use vstd::prelude::*;
use crate::tick::tick_delta;
use crate::tick::tick_add;
use crate::tick::tick_diff;
use crate::tick::tick_plus;
use crate::tick::tick_sub;

verus! {

/// One client's inputs at one tick: a value for every declared action
/// id, in action-id order.
pub struct InputSnapshot {
    pub values: Vec<i16>,
}

/// The result of applying a diff (a list of `(action id, new value)`
/// pairs) to a base snapshot, first entry first.
pub open spec fn apply_diff_spec(base: Seq<i16>, diff: Seq<(u8, i16)>) -> Seq<i16>
    decreases diff.len(),
{
    if diff.len() == 0 {
        base
    } else {
        apply_diff_spec(base.update(diff[0].0 as int, diff[0].1), diff.drop_first())
    }
}

pub proof fn lemma_apply_diff_push(base: Seq<i16>, diff: Seq<(u8, i16)>, p: (u8, i16))
    ensures
        apply_diff_spec(base, diff.push(p)) == apply_diff_spec(base, diff).update(
            p.0 as int,
            p.1,
        ),
    decreases diff.len(),
{
    if diff.len() == 0 {
        assert(diff.push(p).drop_first() =~= Seq::<(u8, i16)>::empty());
        assert(apply_diff_spec(base.update(p.0 as int, p.1), Seq::<(u8, i16)>::empty())
            == base.update(p.0 as int, p.1));
    } else {
        assert(diff.push(p).drop_first() =~= diff.drop_first().push(p));
        lemma_apply_diff_push(base.update(diff[0].0 as int, diff[0].1), diff.drop_first(), p);
    }
}

/// The snapshot whose first `i` values come from `next` and the rest
/// from `prev`.
spec fn merged(prev: Seq<i16>, next: Seq<i16>, i: int) -> Seq<i16> {
    Seq::new(prev.len(), |j: int| if j < i { next[j] } else { prev[j] })
}

/// Diff-encode `next` against `prev`: the pairs `(action id, value)`
/// for exactly the actions whose value changed, in ascending action-id
/// order. Applying the diff to `prev` reconstructs `next` bit-exactly.
pub fn diff_snapshots(prev: &Vec<i16>, next: &Vec<i16>) -> (diff: Vec<(u8, i16)>)
    requires
        prev@.len() == next@.len(),
        prev@.len() <= 256,
    ensures
        apply_diff_spec(prev@, diff@) == next@,
        diff@.len() <= prev@.len(),
        forall|k: int| 0 <= k < diff@.len() ==> #[trigger] diff@[k].0 < prev@.len(),
        diff@.len() == 0 <==> prev@ == next@,
{
    let mut diff: Vec<(u8, i16)> = Vec::new();
    let mut i: usize = 0;
    proof {
        assert(merged(prev@, next@, 0) =~= prev@);
        assert(prev@.take(0) =~= next@.take(0));
    }
    while i < prev.len()
        invariant
            i <= prev@.len(),
            prev@.len() == next@.len(),
            prev@.len() <= 256,
            apply_diff_spec(prev@, diff@) == merged(prev@, next@, i as int),
            diff@.len() <= i,
            forall|k: int| 0 <= k < diff@.len() ==> #[trigger] diff@[k].0 < prev@.len(),
            diff@.len() == 0 <==> prev@.take(i as int) == next@.take(i as int),
        decreases prev@.len() - i,
    {
        let pv = prev[i];
        let nv = next[i];
        if pv != nv {
            let p: (u8, i16) = (i as u8, nv);
            proof {
                lemma_apply_diff_push(prev@, diff@, p);
                assert(merged(prev@, next@, i as int).update(i as int, nv) =~= merged(
                    prev@,
                    next@,
                    i + 1,
                ));
                assert(prev@.take(i + 1)[i as int] != next@.take(i + 1)[i as int]);
            }
            diff.push(p);
        } else {
            proof {
                assert(merged(prev@, next@, i as int) =~= merged(prev@, next@, i + 1));
                if prev@.take(i as int) == next@.take(i as int) {
                    assert(prev@.take(i + 1) =~= prev@.take(i as int).push(pv));
                    assert(next@.take(i + 1) =~= next@.take(i as int).push(nv));
                } else {
                    assert(exists|w: int|
                        0 <= w < i && prev@.take(i as int)[w] != next@.take(i as int)[w]) by {
                        assert(prev@.take(i as int).len() == next@.take(i as int).len());
                        if forall|w: int|
                            0 <= w < i ==> prev@.take(i as int)[w] == next@.take(i as int)[w] {
                            assert(prev@.take(i as int) =~= next@.take(i as int));
                        }
                    }
                    let ghost w = choose|w: int|
                        0 <= w < i && prev@.take(i as int)[w] != next@.take(i as int)[w];
                    assert(prev@.take(i + 1)[w] != next@.take(i + 1)[w]);
                }
            }
        }
        i = i + 1;
    }
    proof {
        assert(merged(prev@, next@, prev@.len() as int) =~= next@);
        assert(prev@.take(prev@.len() as int) =~= prev@);
        assert(next@.take(next@.len() as int) =~= next@);
    }
    diff
}

/// Apply a diff to a base snapshot, first entry first.
pub fn apply_diff(base: &Vec<i16>, diff: &Vec<(u8, i16)>) -> (r: Vec<i16>)
    requires
        forall|k: int| 0 <= k < diff@.len() ==> #[trigger] diff@[k].0 < base@.len(),
    ensures
        r@ == apply_diff_spec(base@, diff@),
{
    let mut r: Vec<i16> = Vec::new();
    let mut i: usize = 0;
    while i < base.len()
        invariant
            i <= base@.len(),
            r@ == base@.take(i as int),
        decreases base@.len() - i,
    {
        let v = base[i];
        r.push(v);
        proof {
            assert(base@.take(i + 1) =~= base@.take(i as int).push(v));
        }
        i = i + 1;
    }
    proof {
        assert(base@.take(base@.len() as int) =~= base@);
    }
    let mut k: usize = 0;
    while k < diff.len()
        invariant
            k <= diff@.len(),
            forall|j: int| 0 <= j < diff@.len() ==> #[trigger] diff@[j].0 < base@.len(),
            r@.len() == base@.len(),
            r@ == apply_diff_spec(base@, diff@.take(k as int)),
        decreases diff@.len() - k,
    {
        let (a, v) = diff[k];
        r.set(a as usize, v);
        proof {
            assert(diff@.take(k + 1) =~= diff@.take(k as int).push(diff@[k as int]));
            lemma_apply_diff_push(base@, diff@.take(k as int), diff@[k as int]);
        }
        k = k + 1;
    }
    proof {
        assert(diff@.take(diff@.len() as int) =~= diff@);
    }
    r
}

/// The snapshot reached by applying a chain of diffs in order.
pub open spec fn apply_chain_spec(base: Seq<i16>, diffs: Seq<Seq<(u8, i16)>>) -> Seq<i16>
    decreases diffs.len(),
{
    if diffs.len() == 0 {
        base
    } else {
        apply_chain_spec(apply_diff_spec(base, diffs[0]), diffs.drop_first())
    }
}

/// A diff chain built from consecutive snapshots, applied in order
/// starting from the first snapshot, reconstructs the last snapshot
/// bit-exactly.
pub proof fn lemma_diff_chain(snaps: Seq<Seq<i16>>, diffs: Seq<Seq<(u8, i16)>>)
    requires
        snaps.len() == diffs.len() + 1,
        forall|k: int|
            0 <= k < diffs.len() ==> apply_diff_spec(snaps[k], #[trigger] diffs[k]) == snaps[k
                + 1],
    ensures
        apply_chain_spec(snaps[0], diffs) == snaps.last(),
    decreases diffs.len(),
{
    if diffs.len() > 0 {
        lemma_diff_chain(snaps.drop_first(), diffs.drop_first());
        assert(snaps.drop_first()[0] == snaps[1]);
        assert(apply_diff_spec(snaps[0], diffs[0]) == snaps[1]);
        assert(snaps.drop_first().last() == snaps.last());
    }
}

/// Ring of the last `window` input snapshots for one client, indexed by
/// tick. The server replays inputs from here; on a missing tick it
/// falls back to the most recent earlier snapshot and counts the miss.
pub struct InputBuffer {
    /// Capacity of the ring, in ticks.
    pub window: usize,
    /// Slot `t % window` holds the snapshot recorded at tick `t`.
    pub slots: Vec<Option<(u16, InputSnapshot)>>,
    /// Newest recorded tick.
    pub newest: u16,
    /// Whether anything was recorded yet.
    pub started: bool,
    /// How many reads had to fall back to an earlier snapshot.
    pub missed: u32,
}

impl InputBuffer {
    pub open spec fn wf(self) -> bool {
        &&& self.slots@.len() == self.window
        &&& 1 <= self.window <= 0x8000
        &&& forall|i: int|
            0 <= i < self.window ==> ((#[trigger] self.slots@[i]) matches Some(e) ==> e.0 as int
                % self.window as int == i)
    }

    /// The read at tick `t` lands on the snapshot recorded at `ht`:
    /// that tick is at most a window behind `t`, its slot is filled,
    /// and every tick strictly between `ht` and `t` has no snapshot.
    pub open spec fn read_hit(self, t: u16, ht: u16, vals: Seq<i16>) -> bool {
        &&& 0 <= tick_delta(t, ht) < self.window
        &&& self.stored_at(ht) == Some(vals)
        &&& forall|d2: int|
            0 <= d2 < tick_delta(t, ht) ==> self.stored_at(#[trigger] tick_plus(t, -d2)) is None
    }

    /// The snapshot recorded at exactly tick `t`, if any.
    pub open spec fn stored_at(self, t: u16) -> Option<Seq<i16>> {
        let e = self.slots@[t as int % self.window as int];
        if e matches Some(p) && p.0 == t {
            Some(e.unwrap().1.values@)
        } else {
            None
        }
    }

    /// An empty ring of capacity `window` ticks.
    pub fn new(window: usize) -> (r: InputBuffer)
        requires
            1 <= window <= 0x8000,
        ensures
            r.wf(),
            !r.started,
            r.window == window,
            r.missed == 0,
            forall|t: u16| r.stored_at(t) is None,
    {
        let mut slots: Vec<Option<(u16, InputSnapshot)>> = Vec::new();
        let mut i: usize = 0;
        while i < window
            invariant
                i <= window,
                slots@.len() == i,
                forall|j: int| 0 <= j < i ==> slots@[j] is None,
            decreases window - i,
        {
            slots.push(None);
            i = i + 1;
        }
        InputBuffer { window, slots, newest: 0, started: false, missed: 0 }
    }

    /// Record the snapshot for tick `t`. Recording is monotone: `t`
    /// must be newer than everything recorded before.
    pub fn record(&mut self, t: u16, snap: InputSnapshot)
        requires
            old(self).wf(),
            old(self).started ==> tick_delta(t, old(self).newest) > 0,
        ensures
            final(self).wf(),
            final(self).started,
            final(self).newest == t,
            final(self).window == old(self).window,
            final(self).missed == old(self).missed,
            final(self).stored_at(t) == Some(snap.values@),
            forall|t2: u16|
                t2 != t && t2 as int % old(self).window as int != t as int % old(
                    self,
                ).window as int ==> final(self).stored_at(t2) == old(self).stored_at(t2),
    {
        let idx: usize = (t as usize) % self.window;
        self.slots.set(idx, Some((t, snap)));
        self.newest = t;
        self.started = true;
    }

    /// Apply a snapshot received for tick `t`, as the server does when
    /// an input message arrives: a tick already holding a snapshot is
    /// left alone (duplicates are idempotent), any other is recorded,
    /// and the newest-tick marker only moves forward.
    pub fn apply(&mut self, t: u16, snap: InputSnapshot) -> (fresh: bool)
        requires
            old(self).wf(),
        ensures
            final(self).wf(),
            final(self).window == old(self).window,
            final(self).missed == old(self).missed,
            fresh <==> old(self).stored_at(t) is None,
            !fresh ==> *final(self) == *old(self),
            final(self).stored_at(t) is Some,
            fresh ==> final(self).stored_at(t) == Some(snap.values@),
            fresh ==> final(self).started,
            old(self).started ==> tick_delta(final(self).newest, old(self).newest) >= 0,
            forall|t2: u16|
                t2 != t && t2 as int % old(self).window as int != t as int % old(
                    self,
                ).window as int ==> final(self).stored_at(t2) == old(self).stored_at(t2),
            forall|t2: u16|
                t2 != t && final(self).stored_at(t2) is Some ==> final(self).stored_at(t2) == old(
                    self,
                ).stored_at(t2),
    {
        let idx: usize = (t as usize) % self.window;
        let already = match &self.slots[idx] {
            Some(p) => p.0 == t,
            None => false,
        };
        if already {
            proof {
                crate::tick::lemma_tick_delta_zero(self.newest, self.newest);
            }
            return false;
        }
        self.slots.set(idx, Some((t, snap)));
        if !self.started || tick_diff(t, self.newest) > 0 {
            self.newest = t;
        }
        self.started = true;
        proof {
            crate::tick::lemma_tick_delta_zero(self.newest, self.newest);
        }
        true
    }

    /// The snapshot the server should replay at tick `t`, with the
    /// tick it was recorded at: the snapshot of the latest tick at or
    /// before `t` within the window. A hit on an earlier tick counts as
    /// a missed input.
    pub fn read(&mut self, t: u16) -> (r: Option<(u16, InputSnapshot)>)
        requires
            old(self).wf(),
        ensures
            final(self).wf(),
            final(self).window == old(self).window,
            final(self).slots@ == old(self).slots@,
            final(self).newest == old(self).newest,
            final(self).started == old(self).started,
            r matches Some(p) ==> old(self).read_hit(t, p.0, p.1.values@),
            r matches Some(p) ==> (p.0 == t ==> final(self).missed == old(self).missed),
            r matches Some(p) ==> (p.0 != t ==> final(self).missed as int == old(
                self,
            ).missed as int + if old(self).missed < 0xffff_ffff {
                1int
            } else {
                0int
            }),
            r is None ==> forall|d: int|
                0 <= d < old(self).window ==> old(self).stored_at(
                    #[trigger] tick_plus(t, -d),
                ) is None,
            r is None ==> final(self).missed == old(self).missed,
    {
        let mut d: usize = 0;
        while d < self.window
            invariant
                self.wf(),
                d <= self.window,
                self.window == old(self).window,
                self.slots@ == old(self).slots@,
                self.newest == old(self).newest,
                self.started == old(self).started,
                self.missed == old(self).missed,
                forall|d2: int|
                    0 <= d2 < d ==> old(self).stored_at(#[trigger] tick_plus(t, -d2)) is None,
            decreases self.window - d,
        {
            let look: u16 = tick_sub(t, d as u16);
            proof {
                assert(look == tick_plus(t, -(d as int)));
            }
            let idx: usize = (look as usize) % self.window;
            match &self.slots[idx] {
                Some(p) => {
                    if p.0 == look {
                        let snap = InputSnapshot { values: clone_values(&p.1.values) };
                        proof {
                            crate::tick::lemma_tick_delta_of_add(t, -(d as int));
                            crate::tick::lemma_tick_delta_zero(look, t);
                        }
                        if d > 0 {
                            if self.missed < 0xffff_ffff {
                                self.missed = self.missed + 1;
                            }
                        }
                        proof {
                            assert(old(self).stored_at(look) == Some(snap.values@));
                            assert(old(self).read_hit(t, look, snap.values@));
                        }
                        return Some((look, snap));
                    }
                },
                None => {},
            }
            proof {
                assert(old(self).stored_at(tick_plus(t, -(d as int))) is None);
            }
            d = d + 1;
        }
        None
    }
}

fn clone_values(v: &Vec<i16>) -> (r: Vec<i16>)
    ensures
        r@ == v@,
{
    let mut r: Vec<i16> = Vec::new();
    let mut i: usize = 0;
    while i < v.len()
        invariant
            i <= v@.len(),
            r@ == v@.take(i as int),
        decreases v@.len() - i,
    {
        let x = v[i];
        r.push(x);
        proof {
            assert(v@.take(i + 1) =~= v@.take(i as int).push(x));
        }
        i = i + 1;
    }
    proof {
        assert(v@.take(v@.len() as int) =~= v@);
    }
    r
}

/// Build the diff chain of a run of consecutive snapshots: entry `k`
/// is the diff from snapshot `k` to snapshot `k + 1`. Applied in
/// order from the first snapshot, the chain reconstructs the last.
pub fn diff_chain(snaps: &Vec<Vec<i16>>) -> (diffs: Vec<Vec<(u8, i16)>>)
    requires
        snaps@.len() >= 1,
        forall|k: int| 0 <= k < snaps@.len() ==> (#[trigger] snaps@[k])@.len() == snaps@[0]@.len(),
        snaps@[0]@.len() <= 256,
    ensures
        diffs@.len() == snaps@.len() - 1,
        forall|k: int|
            0 <= k < diffs@.len() ==> apply_diff_spec(snaps@[k]@, (#[trigger] diffs@[k])@)
                == snaps@[k + 1]@,
        forall|k: int, j: int|
            0 <= k < diffs@.len() && 0 <= j < (#[trigger] diffs@[k])@.len() ==> (
            #[trigger] diffs@[k]@[j]).0 < snaps@[0]@.len(),
{
    let mut diffs: Vec<Vec<(u8, i16)>> = Vec::new();
    let count: usize = snaps.len() - 1;
    let mut k: usize = 0;
    while k < count
        invariant
            k <= count,
            count + 1 == snaps@.len(),
            diffs@.len() == k,
            forall|j: int| 0 <= j < snaps@.len() ==> (#[trigger] snaps@[j])@.len() == snaps@[0]@.len(),
            snaps@[0]@.len() <= 256,
            forall|j: int|
                0 <= j < k ==> apply_diff_spec(snaps@[j]@, (#[trigger] diffs@[j])@) == snaps@[j
                    + 1]@,
            forall|j: int, i: int|
                0 <= j < k && 0 <= i < (#[trigger] diffs@[j])@.len() ==> (
                #[trigger] diffs@[j]@[i]).0 < snaps@[0]@.len(),
        decreases count - k,
    {
        let d = diff_snapshots(&snaps[k], &snaps[k + 1]);
        diffs.push(d);
        k = k + 1;
    }
    diffs
}

/// Apply a chain of diffs in order, starting from `base`.
pub fn apply_chain(base: &Vec<i16>, diffs: &Vec<Vec<(u8, i16)>>) -> (r: Vec<i16>)
    requires
        forall|k: int, j: int|
            0 <= k < diffs@.len() && 0 <= j < (#[trigger] diffs@[k])@.len() ==> (
            #[trigger] diffs@[k]@[j]).0 < base@.len(),
    ensures
        r@ == apply_chain_spec(base@, diffs@.map_values(|d: Vec<(u8, i16)>| d@)),
{
    let ghost dv = diffs@.map_values(|d: Vec<(u8, i16)>| d@);
    let mut cur: Vec<i16> = crate::input::clone_snapshot(base);
    let mut k: usize = 0;
    proof {
        lemma_apply_chain_take(base@, dv, 0);
    }
    while k < diffs.len()
        invariant
            k <= diffs@.len(),
            dv == diffs@.map_values(|d: Vec<(u8, i16)>| d@),
            forall|k2: int, j: int|
                0 <= k2 < diffs@.len() && 0 <= j < (#[trigger] diffs@[k2])@.len() ==> (
                #[trigger] diffs@[k2]@[j]).0 < base@.len(),
            cur@.len() == base@.len(),
            cur@ == apply_chain_spec(base@, dv.take(k as int)),
        decreases diffs@.len() - k,
    {
        proof {
            assert(dv[k as int] == diffs@[k as int]@);
            assert forall|j: int| 0 <= j < diffs@[k as int]@.len() implies (
            #[trigger] diffs@[k as int]@[j]).0 < cur@.len() by {
                assert(diffs@[k as int]@[j] == diffs@[k as int]@[j]);
            }
        }
        let next = apply_diff(&cur, &diffs[k]);
        proof {
            lemma_apply_diff_len(cur@, diffs@[k as int]@);
            lemma_apply_chain_push(base@, dv, k as int);
        }
        cur = next;
        k = k + 1;
    }
    proof {
        assert(dv.take(dv.len() as int) =~= dv);
    }
    cur
}

/// Applying a diff keeps the snapshot length.
pub proof fn lemma_apply_diff_len(base: Seq<i16>, diff: Seq<(u8, i16)>)
    requires
        forall|j: int| 0 <= j < diff.len() ==> (#[trigger] diff[j]).0 < base.len(),
    ensures
        apply_diff_spec(base, diff).len() == base.len(),
    decreases diff.len(),
{
    if diff.len() > 0 {
        let base2 = base.update(diff[0].0 as int, diff[0].1);
        assert forall|j: int| 0 <= j < diff.drop_first().len() implies (
        #[trigger] diff.drop_first()[j]).0 < base2.len() by {
            assert(diff.drop_first()[j] == diff[j + 1]);
        }
        lemma_apply_diff_len(base2, diff.drop_first());
    }
}

proof fn lemma_apply_chain_take(base: Seq<i16>, diffs: Seq<Seq<(u8, i16)>>, k: int)
    requires
        k == 0,
    ensures
        apply_chain_spec(base, diffs.take(k)) == base,
{
    assert(diffs.take(0) =~= Seq::<Seq<(u8, i16)>>::empty());
}

proof fn lemma_apply_chain_push(base: Seq<i16>, diffs: Seq<Seq<(u8, i16)>>, k: int)
    requires
        0 <= k < diffs.len(),
    ensures
        apply_chain_spec(base, diffs.take(k + 1)) == apply_diff_spec(
            apply_chain_spec(base, diffs.take(k)),
            diffs[k],
        ),
    decreases k,
{
    if k == 0 {
        assert(diffs.take(0) =~= Seq::<Seq<(u8, i16)>>::empty());
        assert(diffs.take(1).drop_first() =~= Seq::<Seq<(u8, i16)>>::empty());
        assert(apply_chain_spec(base, diffs.take(1)) == apply_chain_spec(
            apply_diff_spec(base, diffs[0]),
            Seq::<Seq<(u8, i16)>>::empty(),
        ));
    } else {
        lemma_apply_chain_push(apply_diff_spec(base, diffs[0]), diffs.drop_first(), k - 1);
        assert(diffs.take(k + 1).drop_first() =~= diffs.drop_first().take(k));
        assert(diffs.take(k).drop_first() =~= diffs.drop_first().take(k - 1));
        assert(diffs.drop_first()[k - 1] == diffs[k]);
        assert(apply_chain_spec(base, diffs.take(k + 1)) == apply_chain_spec(
            apply_diff_spec(base, diffs.take(k + 1)[0]),
            diffs.take(k + 1).drop_first(),
        ));
        assert(diffs.take(k + 1)[0] == diffs[0]);
        assert(apply_chain_spec(base, diffs.take(k)) == apply_chain_spec(
            apply_diff_spec(base, diffs.take(k)[0]),
            diffs.take(k).drop_first(),
        ));
        assert(diffs.take(k)[0] == diffs[0]);
    }
}

/// Copy a snapshot's values.
pub fn clone_snapshot(v: &Vec<i16>) -> (r: Vec<i16>)
    ensures
        r@ == v@,
{
    let mut r: Vec<i16> = Vec::new();
    let mut i: usize = 0;
    while i < v.len()
        invariant
            i <= v@.len(),
            r@ == v@.take(i as int),
        decreases v@.len() - i,
    {
        let x = v[i];
        r.push(x);
        proof {
            assert(v@.take(i + 1) =~= v@.take(i as int).push(x));
        }
        i = i + 1;
    }
    proof {
        assert(v@.take(v@.len() as int) =~= v@);
    }
    r
}


/// Two forward offsets inside the half-window land on distinct ticks.
proof fn lemma_tick_plus_distinct(from: u16, a: int, b: int)
    requires
        0 <= a < 0x8000,
        0 <= b < 0x8000,
        a != b,
    ensures
        tick_plus(from, a) != tick_plus(from, b),
{
    crate::tick::lemma_tick_delta_of_add(from, a);
    crate::tick::lemma_tick_delta_of_add(from, b);
}

impl InputBuffer {
    /// Reconstruct and record a run of snapshots from a redundant
    /// payload: the base snapshot at `from`, then the diff chain, one
    /// tick per diff. Recording is idempotent, so replaying the same
    /// payload changes nothing; whatever else the ring holds, the
    /// final tick of the run ends up recorded, and with the
    /// reconstructed snapshot wherever it was not recorded before.
    pub fn apply_chain_range(&mut self, from: u16, base: &Vec<i16>, chain: &Vec<Vec<(u8, i16)>>)
        requires
            old(self).wf(),
            chain@.len() < 0x8000,
            forall|k: int, j: int|
                0 <= k < chain@.len() && 0 <= j < (#[trigger] chain@[k])@.len() ==> (
                #[trigger] chain@[k]@[j]).0 < base@.len(),
        ensures
            final(self).wf(),
            final(self).window == old(self).window,
            final(self).missed == old(self).missed,
            final(self).stored_at(tick_plus(from, chain@.len() as int)) is Some,
            old(self).stored_at(tick_plus(from, chain@.len() as int)) is None
                ==> final(self).stored_at(tick_plus(from, chain@.len() as int)) == Some(
                apply_chain_spec(base@, chain@.map_values(|d: Vec<(u8, i16)>| d@)),
            ),
    {
        let ghost chainviews = chain@.map_values(|d: Vec<(u8, i16)>| d@);
        let ghost last = tick_plus(from, chain@.len() as int);
        let mut cur: Vec<i16> = clone_snapshot(base);
        proof {
            assert(chainviews.take(0) =~= Seq::<Seq<(u8, i16)>>::empty());
        }
        if chain.len() == 0 {
            proof {
                vstd::arithmetic::div_mod::lemma_small_mod(from as nat, 0x10000);
                vstd::arithmetic::div_mod::lemma_mod_add_multiples_vanish(from as int, 0x10000);
                assert(last == from);
            }
            self.apply(from, InputSnapshot { values: cur });
            return ;
        }
        proof {
            lemma_tick_plus_distinct(from, 0, chain@.len() as int);
            vstd::arithmetic::div_mod::lemma_small_mod(from as nat, 0x10000);
            vstd::arithmetic::div_mod::lemma_mod_add_multiples_vanish(from as int, 0x10000);
            assert(tick_plus(from, 0) == from);
        }
        self.apply(from, InputSnapshot { values: clone_snapshot(&cur) });
        let mut k: usize = 0;
        while k < chain.len()
            invariant
                self.wf(),
                self.window == old(self).window,
                self.missed == old(self).missed,
                k <= chain@.len(),
                chain@.len() < 0x8000,
                chainviews == chain@.map_values(|d: Vec<(u8, i16)>| d@),
                last == tick_plus(from, chain@.len() as int),
                forall|k2: int, j: int|
                    0 <= k2 < chain@.len() && 0 <= j < (#[trigger] chain@[k2])@.len() ==> (
                    #[trigger] chain@[k2]@[j]).0 < base@.len(),
                cur@.len() == base@.len(),
                cur@ == apply_chain_spec(base@, chainviews.take(k as int)),
                old(self).stored_at(last) is None && k < chain@.len() ==> self.stored_at(
                    last,
                ) is None,
                k == chain@.len() ==> self.stored_at(last) is Some,
                k == chain@.len() && old(self).stored_at(last) is None ==> self.stored_at(last)
                    == Some(apply_chain_spec(base@, chainviews)),
            decreases chain@.len() - k,
        {
            proof {
                assert(chainviews[k as int] == chain@[k as int]@);
                lemma_apply_chain_push(base@, chainviews, k as int);
                lemma_apply_diff_len(cur@, chain@[k as int]@);
            }
            let next = apply_diff(&cur, &chain[k]);
            let t = tick_add(from, (k + 1) as u16);
            proof {
                assert(t == tick_plus(from, k + 1));
                if k + 1 < chain@.len() {
                    lemma_tick_plus_distinct(from, k + 1, chain@.len() as int);
                }
            }
            cur = next;
            proof {
                if k + 1 == chain@.len() {
                    assert(chainviews.take(k + 1) =~= chainviews);
                }
            }
            self.apply(t, InputSnapshot { values: clone_snapshot(&cur) });
            k = k + 1;
        }
        proof {
            assert(chainviews.take(chainviews.len() as int) =~= chainviews);
        }
    }
}


impl InputBuffer {
    /// The snapshot recorded at exactly tick `t`, if any.
    pub fn stored(&self, t: u16) -> (r: Option<InputSnapshot>)
        requires
            self.wf(),
        ensures
            r matches Some(s) ==> self.stored_at(t) == Some(s.values@),
            r is None ==> self.stored_at(t) is None,
    {
        let idx: usize = (t as usize) % self.window;
        match &self.slots[idx] {
            Some(p) => {
                if p.0 == t {
                    Some(InputSnapshot { values: clone_values(&p.1.values) })
                } else {
                    None
                }
            },
            None => None,
        }
    }

    /// Build the redundant payload of a tick range: the snapshot at
    /// `from` plus the diff chain up to `from + len`. Succeeds exactly
    /// when every tick of the range is recorded with one snapshot
    /// width of at most 256 actions; the chain then steps each
    /// recorded snapshot to the next, so `apply_chain_range` on the
    /// other side reconstructs the run bit-exactly.
    pub fn serialize_range(&self, from: u16, len: u16) -> (r: Option<
        (Vec<i16>, Vec<Vec<(u8, i16)>>),
    >)
        requires
            self.wf(),
            len < 0x8000,
        ensures
            r matches Some(p) ==> {
                &&& self.stored_at(from) == Some(p.0@)
                &&& p.1@.len() == len
                &&& forall|k: int|
                    0 <= k < len ==> {
                        &&& self.stored_at(#[trigger] tick_plus(from, k)) is Some
                        &&& self.stored_at(tick_plus(from, k + 1)) is Some
                        &&& apply_diff_spec(
                            self.stored_at(tick_plus(from, k)).unwrap(),
                            p.1@[k]@,
                        ) == self.stored_at(tick_plus(from, k + 1)).unwrap()
                    }
            },
            r is None ==> exists|k: int|
                0 <= k <= len && (self.stored_at(#[trigger] tick_plus(from, k)) is None
                    || self.stored_at(tick_plus(from, k)).unwrap().len() != self.stored_at(
                    tick_plus(from, 0),
                ).unwrap().len() || self.stored_at(tick_plus(from, k)).unwrap().len() > 256),
    {
        proof {
            assert(tick_plus(from, 0) == from) by {
                vstd::arithmetic::div_mod::lemma_small_mod(from as nat, 0x10000);
                vstd::arithmetic::div_mod::lemma_mod_add_multiples_vanish(from as int, 0x10000);
            }
        }
        let base = match self.stored(from) {
            Some(s) => s,
            None => {
                proof {
                    assert(self.stored_at(tick_plus(from, 0)) is None);
                    assert(exists|kk: int|
                        0 <= kk <= len && (self.stored_at(#[trigger] tick_plus(from, kk)) is None
                            || self.stored_at(tick_plus(from, kk)).unwrap().len()
                            != self.stored_at(tick_plus(from, 0)).unwrap().len()
                            || self.stored_at(tick_plus(from, kk)).unwrap().len() > 256));
                }
                return None;
            },
        };
        if base.values.len() > 256 {
            proof {
                assert(self.stored_at(tick_plus(from, 0)).unwrap().len() > 256);
                assert(exists|kk: int|
                        0 <= kk <= len && (self.stored_at(#[trigger] tick_plus(from, kk)) is None
                            || self.stored_at(tick_plus(from, kk)).unwrap().len()
                            != self.stored_at(tick_plus(from, 0)).unwrap().len()
                            || self.stored_at(tick_plus(from, kk)).unwrap().len() > 256));
            }
            return None;
        }
        let width = base.values.len();
        let base_vals = clone_snapshot(&base.values);
        let ghost base0 = base.values@;
        let mut chain: Vec<Vec<(u8, i16)>> = Vec::new();
        let mut prev: Vec<i16> = base.values;
        let mut k: u16 = 0;
        while k < len
            invariant
                self.wf(),
                k <= len,
                len < 0x8000,
                width <= 256,
                prev@.len() == width,
                base0.len() == width,
                base_vals@ == base0,
                chain@.len() == k,
                self.stored_at(from) == Some(base0),
                from == tick_plus(from, 0),
                self.stored_at(tick_plus(from, k as int)) == Some(prev@),
                forall|k2: int|
                    0 <= k2 < k ==> {
                        &&& self.stored_at(#[trigger] tick_plus(from, k2)) is Some
                        &&& self.stored_at(tick_plus(from, k2 + 1)) is Some
                        &&& apply_diff_spec(
                            self.stored_at(tick_plus(from, k2)).unwrap(),
                            chain@[k2]@,
                        ) == self.stored_at(tick_plus(from, k2 + 1)).unwrap()
                    },
            decreases len - k,
        {
            let t = tick_add(from, k + 1);
            proof {
                assert(t == tick_plus(from, k + 1));
            }
            let next = match self.stored(t) {
                Some(s) => s,
                None => {
                    proof {
                        assert(self.stored_at(tick_plus(from, k + 1)) is None);
                        assert(exists|kk: int|
                        0 <= kk <= len && (self.stored_at(#[trigger] tick_plus(from, kk)) is None
                            || self.stored_at(tick_plus(from, kk)).unwrap().len()
                            != self.stored_at(tick_plus(from, 0)).unwrap().len()
                            || self.stored_at(tick_plus(from, kk)).unwrap().len() > 256));
                    }
                    return None;
                },
            };
            if next.values.len() != width {
                proof {
                    assert(self.stored_at(tick_plus(from, k + 1)).unwrap().len() != width);
                    assert(self.stored_at(tick_plus(from, 0)).unwrap().len() == width);
                    assert(exists|kk: int|
                        0 <= kk <= len && (self.stored_at(#[trigger] tick_plus(from, kk)) is None
                            || self.stored_at(tick_plus(from, kk)).unwrap().len()
                            != self.stored_at(tick_plus(from, 0)).unwrap().len()
                            || self.stored_at(tick_plus(from, kk)).unwrap().len() > 256));
                }
                return None;
            }
            let d = diff_snapshots(&prev, &next.values);
            chain.push(d);
            proof {
                assert forall|k2: int|
                    0 <= k2 < k + 1 implies {
                    &&& self.stored_at(#[trigger] tick_plus(from, k2)) is Some
                    &&& self.stored_at(tick_plus(from, k2 + 1)) is Some
                    &&& apply_diff_spec(
                        self.stored_at(tick_plus(from, k2)).unwrap(),
                        chain@[k2]@,
                    ) == self.stored_at(tick_plus(from, k2 + 1)).unwrap()
                } by {
                    if k2 == k {
                        assert(chain@[k2] == chain@[chain@.len() - 1]);
                        assert(self.stored_at(tick_plus(from, k2)) == Some(prev@));
                        assert(self.stored_at(tick_plus(from, k2 + 1)) == Some(next.values@));
                    }
                }
            }
            prev = next.values;
            k = k + 1;
        }
        Some((base_vals, chain))
    }
}


} // verus!
