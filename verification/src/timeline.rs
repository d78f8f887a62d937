//! Per-tick state history: a ring of the last `window` ticks, holding
//! for each tick the component bytes of every replicated entity. The
//! confirmed timeline records server truth; the predicted timeline
//! records what the client simulated, and reconciliation overwrites it
//! with the confirmed state where they diverge.
use vstd::prelude::*;
use crate::tick::lemma_tick_delta_zero;
use crate::tick::tick_delta;
use crate::tick::tick_diff;

verus! {

/// The state of every replicated entity at one tick: entity handle to
/// component bytes, in the order the server emitted them.
pub type EntityEntries = Vec<(u32, Vec<u8>)>;

/// Mathematical image of `EntityEntries`.
pub open spec fn entries_view(v: EntityEntries) -> Seq<(u32, Seq<u8>)> {
    v@.map_values(|e: (u32, Vec<u8>)| (e.0, e.1@))
}

/// Byte-exact comparison of two entry lists.
pub fn entries_equal(a: &EntityEntries, b: &EntityEntries) -> (r: bool)
    ensures
        r == (entries_view(*a) == entries_view(*b)),
{
    if a.len() != b.len() {
        proof {
            assert(entries_view(*a).len() != entries_view(*b).len());
        }
        return false;
    }
    let mut i: usize = 0;
    while i < a.len()
        invariant
            i <= a@.len(),
            a@.len() == b@.len(),
            forall|j: int| 0 <= j < i ==> entries_view(*a)[j] == entries_view(*b)[j],
        decreases a@.len() - i,
    {
        let (ea, ref va) = a[i];
        let (eb, ref vb) = b[i];
        if ea != eb {
            proof {
                assert(entries_view(*a)[i as int].0 != entries_view(*b)[i as int].0);
            }
            return false;
        }
        if !bytes_equal(va, vb) {
            proof {
                assert(entries_view(*a)[i as int].1 != entries_view(*b)[i as int].1);
            }
            return false;
        }
        proof {
            assert(entries_view(*a)[i as int] == entries_view(*b)[i as int]);
        }
        i = i + 1;
    }
    proof {
        assert(entries_view(*a) =~= entries_view(*b));
    }
    true
}

pub fn bytes_equal(a: &Vec<u8>, b: &Vec<u8>) -> (r: bool)
    ensures
        r == (a@ == b@),
{
    if a.len() != b.len() {
        return false;
    }
    let mut i: usize = 0;
    while i < a.len()
        invariant
            i <= a@.len(),
            a@.len() == b@.len(),
            forall|j: int| 0 <= j < i ==> a@[j] == b@[j],
        decreases a@.len() - i,
    {
        if a[i] != b[i] {
            return false;
        }
        i = i + 1;
    }
    proof {
        assert(a@ =~= b@);
    }
    true
}

/// Ring of per-tick entity state, indexed by tick modulo the window.
pub struct Timeline {
    /// Capacity in ticks.
    pub window: usize,
    /// Slot `t % window` holds the state recorded for tick `t`.
    pub slots: Vec<Option<(u16, EntityEntries)>>,
}

impl Timeline {
    pub open spec fn wf(self) -> bool {
        &&& self.slots@.len() == self.window
        &&& 1 <= self.window <= 0x8000
        &&& forall|i: int|
            0 <= i < self.window ==> ((#[trigger] self.slots@[i]) matches Some(e) ==> e.0 as int
                % self.window as int == i)
    }

    /// The state recorded for exactly tick `t`, if it is still in the
    /// ring.
    pub open spec fn stored_at(self, t: u16) -> Option<Seq<(u32, Seq<u8>)>> {
        let e = self.slots@[t as int % self.window as int];
        if e matches Some(p) && p.0 == t {
            Some(entries_view(e.unwrap().1))
        } else {
            None
        }
    }

    /// An empty ring of capacity `window` ticks.
    pub fn new(window: usize) -> (r: Timeline)
        requires
            1 <= window <= 0x8000,
        ensures
            r.wf(),
            r.window == window,
            forall|t: u16| r.stored_at(t) is None,
    {
        let mut slots: Vec<Option<(u16, EntityEntries)>> = Vec::new();
        let mut i: usize = 0;
        while i < window
            invariant
                i <= window,
                slots@.len() == i,
                forall|j: int| 0 <= j < i ==> slots@[j] is None,
            decreases window - i,
        {
            slots.push(None);
            i = i + 1;
        }
        Timeline { window, slots }
    }

    /// Record `entries` for tick `t`, evicting whatever tick shared its
    /// slot. Every tick still stored afterwards holds the value it held
    /// before; only `t` carries a new value.
    pub fn put(&mut self, t: u16, entries: EntityEntries)
        requires
            old(self).wf(),
        ensures
            final(self).wf(),
            final(self).window == old(self).window,
            final(self).stored_at(t) == Some(entries_view(entries)),
            forall|t2: u16|
                t2 != t && final(self).stored_at(t2) is Some ==> final(self).stored_at(t2) == old(
                    self,
                ).stored_at(t2),
            forall|t2: u16|
                t2 as int % old(self).window as int != t as int % old(self).window as int
                    ==> final(self).stored_at(t2) == old(self).stored_at(t2),
    {
        let idx: usize = (t as usize) % self.window;
        self.slots.set(idx, Some((t, entries)));
    }

    /// The state recorded for tick `t`, if any.
    pub fn get(&self, t: u16) -> (r: Option<&EntityEntries>)
        requires
            self.wf(),
        ensures
            r matches Some(e) ==> self.stored_at(t) == Some(entries_view(*e)),
            r is None ==> self.stored_at(t) is None,
    {
        let idx: usize = (t as usize) % self.window;
        match &self.slots[idx] {
            Some(p) => {
                if p.0 == t {
                    Some(&p.1)
                } else {
                    None
                }
            },
            None => None,
        }
    }
}

/// How the confirmed timeline treated an arriving server update.
#[derive(Clone, Copy, Debug, PartialEq, Eq, Structural)]
pub enum ApplyResult {
    /// Recorded; the confirmed tick may have advanced.
    Applied,
    /// Older than the retained window: dropped and counted.
    Stale,
}

/// Server truth as the client has received it, tick by tick.
pub struct ConfirmedTimeline {
    pub timeline: Timeline,
    /// Newest server tick applied.
    pub confirmed: u16,
    pub started: bool,
    /// Dropped stale updates.
    pub stale_count: u32,
}

impl ConfirmedTimeline {
    pub open spec fn wf(self) -> bool {
        self.timeline.wf()
    }

    pub open spec fn stored_at(self, t: u16) -> Option<Seq<(u32, Seq<u8>)>> {
        self.timeline.stored_at(t)
    }

    pub fn new(window: usize) -> (r: ConfirmedTimeline)
        requires
            1 <= window <= 0x8000,
        ensures
            r.wf(),
            !r.started,
            r.stale_count == 0,
            r.timeline.window == window,
            forall|t: u16| r.stored_at(t) is None,
    {
        ConfirmedTimeline { timeline: Timeline::new(window), confirmed: 0, started: false, stale_count: 0 }
    }

    /// Apply a server update for tick `t`. Once the confirmed tick has
    /// run more than `stability` ticks past `t`, the slot at `t` is
    /// settled: a late or reordered update for it is dropped and
    /// counted, never applied. Any other update is recorded, replacing
    /// only its own tick, and the confirmed tick never moves backwards.
    pub fn apply(&mut self, t: u16, entries: EntityEntries, stability: u16) -> (r: ApplyResult)
        requires
            old(self).wf(),
            stability < 0x8000,
        ensures
            final(self).wf(),
            final(self).timeline.window == old(self).timeline.window,
            (r is Stale) <==> (old(self).started && tick_delta(t, old(self).confirmed)
                <= -(stability as int)),
            r is Stale ==> final(self).timeline == old(self).timeline && final(self).confirmed
                == old(self).confirmed && final(self).stale_count as int == old(
                self,
            ).stale_count as int + if old(self).stale_count < 0xffff_ffff {
                1int
            } else {
                0int
            },
            r is Applied ==> final(self).stored_at(t) == Some(entries_view(entries)),
            r is Applied ==> forall|t2: u16|
                t2 != t && final(self).stored_at(t2) is Some ==> final(self).stored_at(t2) == old(
                    self,
                ).stored_at(t2),
            r is Applied ==> forall|t2: u16|
                t2 as int % old(self).timeline.window as int != t as int % old(
                    self,
                ).timeline.window as int ==> final(self).stored_at(t2) == old(self).stored_at(t2),
            final(self).started,
            old(self).started ==> tick_delta(final(self).confirmed, old(self).confirmed) >= 0,
            !old(self).started ==> final(self).confirmed == t,
    {
        if self.started {
            let d = tick_diff(t, self.confirmed);
            if d <= -(stability as i32) {
                if self.stale_count < 0xffff_ffff {
                    self.stale_count = self.stale_count + 1;
                }
                proof {
                    lemma_tick_delta_zero(self.confirmed, self.confirmed);
                }
                return ApplyResult::Stale;
            }
            self.timeline.put(t, entries);
            if d > 0 {
                self.confirmed = t;
            }
            proof {
                lemma_tick_delta_zero(self.confirmed, self.confirmed);
            }
            return ApplyResult::Applied;
        }
        self.timeline.put(t, entries);
        self.confirmed = t;
        self.started = true;
        ApplyResult::Applied
    }
}

/// Why and how far the prediction engine must roll back.
pub enum RollbackDecision {
    /// Prediction and server truth agree at the checked tick.
    Clean,
    /// Restore tick `restore` and re-simulate through `through`.
    Rollback { restore: u16, through: u16 },
    /// The mismatch lies outside the rollback window: resynchronize.
    Resync,
}

/// Client-simulated state, tick by tick, for the predicted entities.
pub struct PredictedTimeline {
    pub timeline: Timeline,
}

impl PredictedTimeline {
    pub open spec fn wf(self) -> bool {
        self.timeline.wf()
    }

    pub open spec fn stored_at(self, t: u16) -> Option<Seq<(u32, Seq<u8>)>> {
        self.timeline.stored_at(t)
    }

    pub fn new(window: usize) -> (r: PredictedTimeline)
        requires
            1 <= window <= 0x8000,
        ensures
            r.wf(),
            r.timeline.window == window,
            forall|t: u16| r.stored_at(t) is None,
    {
        PredictedTimeline { timeline: Timeline::new(window) }
    }

    /// Record what the client simulated for tick `t`.
    pub fn record(&mut self, t: u16, entries: EntityEntries)
        requires
            old(self).wf(),
        ensures
            final(self).wf(),
            final(self).timeline.window == old(self).timeline.window,
            final(self).stored_at(t) == Some(entries_view(entries)),
            forall|t2: u16|
                t2 != t && final(self).stored_at(t2) is Some ==> final(self).stored_at(t2) == old(
                    self,
                ).stored_at(t2),
    {
        self.timeline.put(t, entries);
    }

    /// Compare the prediction at tick `t` against the confirmed state
    /// and decide. On a mismatch inside the window the prediction at
    /// `t` is overwritten with the confirmed state, so that after
    /// reconciliation the two timelines agree at `t`, and the decision
    /// names the replay range `[t, client_tick]`. A mismatch at a tick
    /// no longer held (older than the window) forces a resync.
    pub fn reconcile(&mut self, t: u16, confirmed: &EntityEntries, client_tick: u16) -> (r:
        RollbackDecision)
        requires
            old(self).wf(),
        ensures
            final(self).wf(),
            final(self).timeline.window == old(self).timeline.window,
            (r is Clean) <==> old(self).stored_at(t) == Some(entries_view(*confirmed)),
            r is Clean ==> *final(self) == *old(self),
            (r is Resync) <==> (old(self).stored_at(t) is None),
            r is Resync ==> *final(self) == *old(self),
            r matches RollbackDecision::Rollback { restore, through } ==> {
                &&& restore == t
                &&& through == client_tick
                &&& final(self).stored_at(t) == Some(entries_view(*confirmed))
                &&& forall|t2: u16|
                    t2 != t && final(self).stored_at(t2) is Some ==> final(self).stored_at(t2)
                        == old(self).stored_at(t2)
            },
    {
        let stored = self.timeline.get(t);
        match stored {
            Some(predicted) => {
                if entries_equal(predicted, confirmed) {
                    return RollbackDecision::Clean;
                }
            },
            None => {
                return RollbackDecision::Resync;
            },
        }
        let copy = clone_entries(confirmed);
        self.timeline.put(t, copy);
        RollbackDecision::Rollback { restore: t, through: client_tick }
    }
}

fn clone_entries(v: &EntityEntries) -> (r: EntityEntries)
    ensures
        entries_view(r) == entries_view(*v),
        r@.len() == v@.len(),
{
    let mut r: EntityEntries = Vec::new();
    let mut i: usize = 0;
    while i < v.len()
        invariant
            i <= v@.len(),
            r@.len() == i,
            forall|j: int| 0 <= j < i ==> entries_view(r)[j] == entries_view(*v)[j],
        decreases v@.len() - i,
    {
        let (e, ref data) = v[i];
        let data2 = crate::bytes::copy_range(data, 0, data.len());
        proof {
            assert(data@.subrange(0, data@.len() as int) =~= data@);
        }
        r.push((e, data2));
        i = i + 1;
    }
    proof {
        assert(entries_view(r) =~= entries_view(*v));
    }
    r
}


/// The component bytes an entry list holds for entity `e`: its first
/// entry with that handle.
pub open spec fn entry_of(s: Seq<(u32, Seq<u8>)>, e: u32) -> Option<Seq<u8>>
    decreases s.len(),
{
    if s.len() == 0 {
        None
    } else if s[0].0 == e {
        Some(s[0].1)
    } else {
        entry_of(s.drop_first(), e)
    }
}

/// An entity that appears in the list has a first entry.
proof fn lemma_entry_of_present(s: Seq<(u32, Seq<u8>)>, j: int)
    requires
        0 <= j < s.len(),
    ensures
        entry_of(s, s[j].0) is Some,
    decreases s.len(),
{
    if s[0].0 != s[j].0 {
        assert(s.drop_first()[j - 1] == s[j]);
        lemma_entry_of_present(s.drop_first(), j - 1);
    }
}

/// The first entry for `e`, if any.
pub fn find_entry<'a>(v: &'a EntityEntries, e: u32) -> (r: Option<&'a Vec<u8>>)
    ensures
        r matches Some(b) ==> entry_of(entries_view(*v), e) == Some(b@),
        r is None ==> entry_of(entries_view(*v), e) is None,
{
    let mut i: usize = 0;
    proof {
        assert(entries_view(*v).skip(0) =~= entries_view(*v));
    }
    while i < v.len()
        invariant
            i <= v@.len(),
            entry_of(entries_view(*v), e) == entry_of(entries_view(*v).skip(i as int), e),
        decreases v@.len() - i,
    {
        if v[i].0 == e {
            proof {
                assert(entries_view(*v).skip(i as int)[0] == entries_view(*v)[i as int]);
            }
            return Some(&v[i].1);
        }
        proof {
            assert(entries_view(*v).skip(i as int)[0] == entries_view(*v)[i as int]);
            assert(entries_view(*v).skip(i as int).drop_first() =~= entries_view(*v).skip(i + 1));
        }
        i = i + 1;
    }
    proof {
        assert(entries_view(*v).skip(v@.len() as int) =~= Seq::<(u32, Seq<u8>)>::empty());
    }
    None
}

/// The entities whose confirmed state disagrees with the prediction:
/// missing from the prediction, or byte-different. A rollback can be
/// scoped to the prediction groups these entities belong to.
pub fn mismatched_entities(predicted: &EntityEntries, confirmed: &EntityEntries) -> (r: Vec<u32>)
    ensures
        forall|x: int|
            0 <= x < r@.len() ==> {
                &&& entry_of(entries_view(*confirmed), #[trigger] r@[x]) is Some
                &&& entry_of(entries_view(*predicted), r@[x]) != entry_of(
                    entries_view(*confirmed),
                    r@[x],
                )
            },
        forall|i: int|
            0 <= i < confirmed@.len() && entry_of(
                entries_view(*predicted),
                (#[trigger] confirmed@[i]).0,
            ) != entry_of(entries_view(*confirmed), confirmed@[i].0) ==> exists|x: int|
                0 <= x < r@.len() && r@[x] == confirmed@[i].0,
{
    let mut r: Vec<u32> = Vec::new();
    let mut i: usize = 0;
    while i < confirmed.len()
        invariant
            i <= confirmed@.len(),
            forall|x: int|
                0 <= x < r@.len() ==> {
                    &&& entry_of(entries_view(*confirmed), #[trigger] r@[x]) is Some
                    &&& entry_of(entries_view(*predicted), r@[x]) != entry_of(
                        entries_view(*confirmed),
                        r@[x],
                    )
                },
            forall|j: int|
                0 <= j < i && entry_of(
                    entries_view(*predicted),
                    (#[trigger] confirmed@[j]).0,
                ) != entry_of(entries_view(*confirmed), confirmed@[j].0) ==> exists|x: int|
                    0 <= x < r@.len() && r@[x] == confirmed@[j].0,
        decreases confirmed@.len() - i,
    {
        let e = confirmed[i].0;
        let cb = find_entry(confirmed, e);
        let pb = find_entry(predicted, e);
        let differs: bool = match (pb, cb) {
            (Some(p), Some(c)) => !bytes_equal(p, c),
            (None, Some(_)) => true,
            (_, None) => false,
        };
        proof {
            assert(entries_view(*confirmed)[i as int].0 == e);
        }
        let ghost r0 = r@;
        if differs {
            r.push(e);
        }
        proof {
            assert forall|j: int|
                0 <= j < i + 1 && entry_of(
                    entries_view(*predicted),
                    (#[trigger] confirmed@[j]).0,
                ) != entry_of(entries_view(*confirmed), confirmed@[j].0) implies exists|x: int|
                0 <= x < r@.len() && r@[x] == confirmed@[j].0 by {
                if j == i {
                    lemma_entry_of_present(entries_view(*confirmed), i as int);
                    assert(differs);
                    assert(r@[r@.len() - 1] == e);
                } else {
                    let x0 = choose|x: int| 0 <= x < r0.len() && r0[x] == confirmed@[j].0;
                    assert(r@[x0] == r0[x0]);
                }
            }
        }
        i = i + 1;
    }
    r
}

} // verus!
