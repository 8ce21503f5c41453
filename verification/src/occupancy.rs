//! The occupancy reconciler: the stateful core that compares each cycle's
//! status snapshot against the chargers currently believed occupied, opens
//! and closes charging sessions on transitions, and emits the cycle's
//! realtime and closed-session batches.
//!
//! The behaviour of a whole cycle is pinned by a functional model:
//! [`step`] describes what one snapshot observation does to the cycle
//! state, [`run`] folds a snapshot over it, and [`OccupancyState::reconcile`]
//! is proved to produce exactly the model's outputs.

use crate::input_models::{EVSEStatus, EVSEStatusRecord};
use crate::lookup::{LookupEntryView, LookupTable};
use crate::output_models::{
    session_energy, Charging, ChargingView, Realtime, RealtimeView,
};
use vstd::prelude::*;

verus! {

/// Abstract state of one reconciliation cycle: the open sessions, and the
/// output batches accumulated so far.
pub struct ReconcileModel {
    pub occupancy: Map<Seq<char>, ChargingView>,
    pub realtime: Seq<(Seq<char>, RealtimeView)>,
    pub closed: Seq<ChargingView>,
    pub misses: Seq<Seq<char>>,
}

/// The model a cycle starts from: the surviving occupancy of the previous
/// cycle and empty output batches.
pub open spec fn init_model(occupancy: Map<Seq<char>, ChargingView>) -> ReconcileModel {
    ReconcileModel {
        occupancy,
        realtime: Seq::empty(),
        closed: Seq::empty(),
        misses: Seq::empty(),
    }
}

/// The session opened for charger `id` at time `t`, its physical
/// attributes frozen from the lookup entry `e`.
pub open spec fn open_session_view(id: Seq<char>, e: LookupEntryView, t: int) -> ChargingView {
    ChargingView {
        start: t,
        end: None,
        nominal_max_power: e.max_nominal_power,
        estimated_power: Some(e.estimated_power),
        charger: id,
        zip: e.zip,
        location: e.location,
        energy: Some(0),
    }
}

/// The realtime record emitted for a charger observed with `status` at
/// time `t`, attributes resolved fresh from the lookup entry `e`.
pub open spec fn realtime_view(e: LookupEntryView, status: EVSEStatus, t: int) -> RealtimeView {
    RealtimeView {
        last_update: t,
        occupied: status is Occupied,
        nominal_max_power: e.max_nominal_power,
        estimated_power: Some(e.estimated_power),
        zip: e.zip,
        location: e.location,
    }
}

/// The session record emitted when the open session `c` closes at `t`:
/// the session itself, completed with its end time and the energy derived
/// from its duration and its own frozen power estimate.
pub open spec fn closed_view(c: ChargingView, t: int) -> ChargingView {
    ChargingView {
        end: Some(t),
        energy: Some(session_energy(c.start, t, c.estimated_power.unwrap())),
        ..c
    }
}

/// One snapshot observation applied to the cycle state: a charger the
/// lookup table does not know is recorded as a miss and skipped; any
/// known charger yields a realtime record; a transition to occupied opens
/// a session, a transition to free closes one, and re-observations change
/// nothing.
pub open spec fn step(
    lookup: Map<Seq<char>, LookupEntryView>,
    m: ReconcileModel,
    id: Seq<char>,
    status: EVSEStatus,
    t: int,
) -> ReconcileModel {
    if !lookup.contains_key(id) {
        ReconcileModel { misses: m.misses.push(id), ..m }
    } else {
        let e = lookup[id];
        let m1 = ReconcileModel {
            realtime: m.realtime.push((id, realtime_view(e, status, t))),
            ..m
        };
        if status is Occupied {
            if m1.occupancy.contains_key(id) {
                m1
            } else {
                ReconcileModel {
                    occupancy: m1.occupancy.insert(id, open_session_view(id, e, t)),
                    ..m1
                }
            }
        } else {
            if m1.occupancy.contains_key(id) {
                ReconcileModel {
                    occupancy: m1.occupancy.remove(id),
                    closed: m1.closed.push(closed_view(m1.occupancy[id], t)),
                    ..m1
                }
            } else {
                m1
            }
        }
    }
}

/// A whole snapshot applied in order.
pub open spec fn run(
    lookup: Map<Seq<char>, LookupEntryView>,
    m: ReconcileModel,
    snap: Seq<EVSEStatusRecord>,
    t: int,
) -> ReconcileModel
    decreases snap.len(),
{
    if snap.len() == 0 {
        m
    } else {
        run(lookup, step(lookup, m, snap[0].evse_id@, snap[0].evse_status, t), snap.drop_first(), t)
    }
}

pub proof fn lemma_run_append(
    lookup: Map<Seq<char>, LookupEntryView>,
    m: ReconcileModel,
    a: Seq<EVSEStatusRecord>,
    b: Seq<EVSEStatusRecord>,
    t: int,
)
    ensures
        run(lookup, m, a + b, t) == run(lookup, run(lookup, m, a, t), b, t),
    decreases a.len(),
{
    if a.len() == 0 {
        assert(a + b =~= b);
    } else {
        assert((a + b).drop_first() =~= a.drop_first() + b);
        assert((a + b)[0] == a[0]);
        lemma_run_append(lookup, step(lookup, m, a[0].evse_id@, a[0].evse_status, t), a.drop_first(), b, t);
    }
}

/// Applying one more snapshot entry extends the run by one step.
pub proof fn lemma_run_snoc(
    lookup: Map<Seq<char>, LookupEntryView>,
    m: ReconcileModel,
    snap: Seq<EVSEStatusRecord>,
    j: int,
    t: int,
)
    requires
        0 <= j < snap.len(),
    ensures
        run(lookup, m, snap.take(j + 1), t) == step(
            lookup,
            run(lookup, m, snap.take(j), t),
            snap[j].evse_id@,
            snap[j].evse_status,
            t,
        ),
{
    assert(snap.take(j + 1) =~= snap.take(j) + seq![snap[j]]);
    lemma_run_append(lookup, m, snap.take(j), seq![snap[j]], t);
    let single = seq![snap[j]];
    assert(single.drop_first() =~= Seq::<EVSEStatusRecord>::empty());
    reveal_with_fuel(run, 3);
}

/// An open session as the occupancy state stores it: not yet ended,
/// carrying a power estimate, started at a representable time.
pub open spec fn session_open(c: Charging) -> bool {
    &&& c.end is None
    &&& c.estimated_power is Some
    &&& c.start <= u64::MAX
}

/// The mapping of a list of open sessions, keyed by their charger IDs.
pub open spec fn occupancy_map_of(s: Seq<Charging>) -> Map<Seq<char>, ChargingView>
    decreases s.len(),
{
    if s.len() == 0 {
        Map::empty()
    } else {
        occupancy_map_of(s.drop_last()).insert(s.last().charger@, s.last()@)
    }
}

/// The chargers currently believed occupied, each with its open session.
/// At most one open session per charger, always.
pub struct OccupancyState {
    open: Vec<Charging>,
}

impl View for OccupancyState {
    type V = Map<Seq<char>, ChargingView>;

    closed spec fn view(&self) -> Map<Seq<char>, ChargingView> {
        occupancy_map_of(self.open@)
    }
}

proof fn lemma_omap_contains(s: Seq<Charging>, k: Seq<char>)
    ensures
        occupancy_map_of(s).contains_key(k) <==> exists|i: int|
            0 <= i < s.len() && (#[trigger] s[i]).charger@ == k,
    decreases s.len(),
{
    if s.len() > 0 {
        lemma_omap_contains(s.drop_last(), k);
        if s.last().charger@ == k {
            assert(s[s.len() - 1].charger@ == k);
        } else if occupancy_map_of(s).contains_key(k) {
            let i = choose|i: int| 0 <= i < s.len() - 1 && (#[trigger] s.drop_last()[i]).charger@ == k;
            assert(s[i].charger@ == k);
        } else {
            assert forall|i: int| 0 <= i < s.len() implies (#[trigger] s[i]).charger@ != k by {
                if i < s.len() - 1 {
                    assert(s.drop_last()[i].charger@ == s[i].charger@);
                }
            }
        }
    }
}

proof fn lemma_omap_get(s: Seq<Charging>, i: int)
    requires
        0 <= i < s.len(),
        forall|a: int, b: int| 0 <= a < b < s.len() ==> s[a].charger@ != s[b].charger@,
    ensures
        occupancy_map_of(s).contains_key(s[i].charger@),
        occupancy_map_of(s)[s[i].charger@] == s[i]@,
    decreases s.len(),
{
    lemma_omap_contains(s, s[i].charger@);
    if i < s.len() - 1 {
        assert(s.drop_last()[i] == s[i]);
        lemma_omap_get(s.drop_last(), i);
        assert(s.last().charger@ != s[i].charger@);
    }
}

proof fn lemma_omap_remove(s: Seq<Charging>, i: int)
    requires
        0 <= i < s.len(),
        forall|a: int, b: int| 0 <= a < b < s.len() ==> s[a].charger@ != s[b].charger@,
    ensures
        occupancy_map_of(s.remove(i)) == occupancy_map_of(s).remove(s[i].charger@),
    decreases s.len(),
{
    let k = s[i].charger@;
    if i == s.len() - 1 {
        assert(s.remove(i) =~= s.drop_last());
        lemma_omap_contains(s.drop_last(), k);
        assert forall|j: int| 0 <= j < s.len() - 1 implies (#[trigger] s.drop_last()[j]).charger@
            != k by {
            assert(s[j].charger@ != s[s.len() - 1].charger@);
        }
        assert(occupancy_map_of(s.drop_last()) =~= occupancy_map_of(s).remove(k));
    } else {
        assert(s.remove(i).drop_last() =~= s.drop_last().remove(i));
        assert forall|a: int, b: int|
            0 <= a < b < s.drop_last().len() implies (#[trigger] s.drop_last()[a]).charger@ != (
        #[trigger] s.drop_last()[b]).charger@ by {
            assert(s[a].charger@ != s[b].charger@);
        }
        lemma_omap_remove(s.drop_last(), i);
        assert(s.drop_last()[i] == s[i]);
        assert(s.remove(i).last() == s.last());
        assert(s[i].charger@ != s.last().charger@);
        assert(occupancy_map_of(s.drop_last()).remove(k).insert(s.last().charger@, s.last()@)
            =~= occupancy_map_of(s.drop_last()).insert(s.last().charger@, s.last()@).remove(k));
    }
}

proof fn lemma_omap_len(s: Seq<Charging>)
    requires
        forall|a: int, b: int| 0 <= a < b < s.len() ==> s[a].charger@ != s[b].charger@,
    ensures
        occupancy_map_of(s).len() == s.len(),
        occupancy_map_of(s).dom().finite(),
    decreases s.len(),
{
    if s.len() > 0 {
        assert forall|a: int, b: int|
            0 <= a < b < s.drop_last().len() implies (#[trigger] s.drop_last()[a]).charger@ != (
        #[trigger] s.drop_last()[b]).charger@ by {
            assert(s[a].charger@ != s[b].charger@);
        }
        lemma_omap_len(s.drop_last());
        lemma_omap_contains(s.drop_last(), s.last().charger@);
        assert forall|j: int|
            0 <= j < s.len() - 1 implies (#[trigger] s.drop_last()[j]).charger@
            != s.last().charger@ by {
            assert(s[j].charger@ != s[s.len() - 1].charger@);
        }
        let m0 = occupancy_map_of(s.drop_last());
        let k = s.last().charger@;
        assert(!m0.dom().contains(k));
        assert(occupancy_map_of(s).dom() =~= m0.dom().insert(k));
        assert(m0.dom().insert(k).len() == m0.dom().len() + 1);
    }
}

/// Every key of an occupancy map names the charger of its session.
pub open spec fn occupancy_keys_ok(occ: Map<Seq<char>, ChargingView>) -> bool {
    forall|k: Seq<char>| occ.contains_key(k) ==> (#[trigger] occ[k]).charger == k
}

/// A stored open session, seen abstractly.
pub open spec fn occupancy_entry_ok(c: ChargingView) -> bool {
    &&& c.end is None
    &&& c.estimated_power is Some
    &&& 0 <= c.start <= u64::MAX
}

impl OccupancyState {
    /// At most one open session per charger, every one of them open.
    pub closed spec fn wf(self) -> bool {
        &&& forall|a: int, b: int|
            0 <= a < b < self.open@.len() ==> self.open@[a].charger@ != self.open@[b].charger@
        &&& forall|i: int| 0 <= i < self.open@.len() ==> session_open(#[trigger] self.open@[i])
    }

    /// What well-formedness means for the abstract occupancy map: keys
    /// name their sessions' chargers, and every session is open.
    pub proof fn lemma_wf_view(self)
        requires
            self.wf(),
        ensures
            occupancy_keys_ok(self@),
            forall|k: Seq<char>|
                self@.contains_key(k) ==> occupancy_entry_ok(#[trigger] self@[k]),
    {
        assert forall|k: Seq<char>| self@.contains_key(k) implies (#[trigger] self@[k]).charger
            == k && occupancy_entry_ok(self@[k]) by {
            lemma_omap_contains(self.open@, k);
            let i = choose|i: int| 0 <= i < self.open@.len() && (#[trigger] self.open@[i]).charger@
                == k;
            lemma_omap_get(self.open@, i);
        }
    }

    /// An empty state: no charger is believed occupied.
    pub fn new() -> (r: OccupancyState)
        ensures
            r.wf(),
            r@ == Map::<Seq<char>, ChargingView>::empty(),
    {
        OccupancyState { open: Vec::new() }
    }

    fn index_of(&self, id: &String) -> (r: Option<usize>)
        ensures
            match r {
                Some(i) => i < self.open@.len() && self.open@[i as int].charger@ == id@,
                None => forall|i: int|
                    0 <= i < self.open@.len() ==> (#[trigger] self.open@[i]).charger@ != id@,
            },
    {
        let n = self.open.len();
        let mut i: usize = 0;
        while i < n
            invariant
                0 <= i <= n == self.open@.len(),
                forall|j: int| 0 <= j < i ==> (#[trigger] self.open@[j]).charger@ != id@,
            decreases n - i,
        {
            if id.eq(&self.open[i].charger) {
                return Some(i);
            }
            i += 1;
        }
        None
    }

    /// Whether a charger currently has an open session.
    pub fn contains_id(&self, id: &String) -> (r: bool)
        requires
            self.wf(),
        ensures
            r == self@.contains_key(id@),
    {
        proof {
            lemma_omap_contains(self.open@, id@);
        }
        match self.index_of(id) {
            Some(i) => true,
            None => false,
        }
    }

    /// The open session of a charger, if any.
    pub fn get(&self, id: &String) -> (r: Option<&Charging>)
        requires
            self.wf(),
        ensures
            match r {
                Some(c) => self@.contains_key(id@) && c@ == self@[id@] && session_open(*c),
                None => !self@.contains_key(id@),
            },
    {
        proof {
            lemma_omap_contains(self.open@, id@);
        }
        match self.index_of(id) {
            Some(i) => {
                proof {
                    lemma_omap_get(self.open@, i as int);
                }
                Some(&self.open[i])
            },
            None => None,
        }
    }

    /// How many chargers currently have an open session.
    pub fn open_count(&self) -> (n: usize)
        requires
            self.wf(),
        ensures
            n == self@.len(),
    {
        proof {
            lemma_omap_len(self.open@);
        }
        self.open.len()
    }

    /// Opens a session for a charger that has none.
    pub fn insert_open(&mut self, c: Charging)
        requires
            old(self).wf(),
            session_open(c),
            !old(self)@.contains_key(c.charger@),
        ensures
            final(self).wf(),
            final(self)@ == old(self)@.insert(c.charger@, c@),
    {
        proof {
            lemma_omap_contains(self.open@, c.charger@);
        }
        let ghost pre = self.open@;
        self.open.push(c);
        proof {
            assert(self.open@.drop_last() =~= pre);
            assert forall|a: int, b: int|
                0 <= a < b < self.open@.len() implies self.open@[a].charger@
                != self.open@[b].charger@ by {
                if b < self.open@.len() - 1 {
                    assert(pre[a].charger@ != pre[b].charger@);
                } else {
                    assert(pre[a].charger@ != c.charger@);
                }
            }
        }
    }

    /// Removes and returns the open session of a charger.
    pub fn remove_session(&mut self, id: &String) -> (c: Charging)
        requires
            old(self).wf(),
            old(self)@.contains_key(id@),
        ensures
            final(self).wf(),
            final(self)@ == old(self)@.remove(id@),
            c@ == old(self)@[id@],
            c.charger@ == id@,
            session_open(c),
    {
        proof {
            lemma_omap_contains(self.open@, id@);
        }
        let i = match self.index_of(id) {
            Some(i) => i,
            None => {
                proof {
                    assert(false);
                }
                0
            },
        };
        proof {
            lemma_omap_get(self.open@, i as int);
            lemma_omap_remove(self.open@, i as int);
        }
        let ghost pre = self.open@;
        let c = self.open.remove(i);
        proof {
            assert forall|a: int, b: int|
                0 <= a < b < self.open@.len() implies self.open@[a].charger@
                != self.open@[b].charger@ by {
                let r = pre.remove(i as int);
                assert(r[a] == if a < i {
                    pre[a]
                } else {
                    pre[a + 1]
                });
                assert(r[b] == if b < i {
                    pre[b]
                } else {
                    pre[b + 1]
                });
            }
            assert forall|j: int| 0 <= j < self.open@.len() implies session_open(
                #[trigger] self.open@[j],
            ) by {
                let r = pre.remove(i as int);
                assert(r[j] == if j < i {
                    pre[j]
                } else {
                    pre[j + 1]
                });
            }
        }
        c
    }
}

/// Views of an emitted realtime batch, keyed by charger ID.
pub open spec fn realtime_views(v: Seq<(String, Realtime)>) -> Seq<(Seq<char>, RealtimeView)> {
    v.map_values(|p: (String, Realtime)| (p.0@, p.1@))
}

/// Views of an emitted session batch.
pub open spec fn charging_views(v: Seq<Charging>) -> Seq<ChargingView> {
    v.map_values(|c: Charging| c@)
}

/// Views of the recorded lookup misses.
pub open spec fn string_views(v: Seq<String>) -> Seq<Seq<char>> {
    v.map_values(|s: String| s@)
}

/// A session record as a cycle at time `t` emits it: ended at `t`, its
/// energy derived exactly from its duration and its own frozen estimate.
pub open spec fn closed_record_ok(c: ChargingView, t: int) -> bool {
    &&& c.end == Some(t)
    &&& c.estimated_power is Some
    &&& c.energy == Some(session_energy(c.start, t, c.estimated_power.unwrap()))
}

/// Whether any observation of the snapshot names charger `id`.
pub open spec fn snapshot_has(snap: Seq<EVSEStatusRecord>, id: Seq<char>) -> bool {
    exists|j: int| 0 <= j < snap.len() && (#[trigger] snap[j]).evse_id@ == id
}

/// One snapshot entry per charger.
pub open spec fn distinct_ids(snap: Seq<EVSEStatusRecord>) -> bool {
    forall|a: int, b: int| 0 <= a < b < snap.len() ==> snap[a].evse_id@ != snap[b].evse_id@
}

/// How many records of a realtime batch are keyed by `id`.
pub open spec fn rt_count(rts: Seq<(Seq<char>, RealtimeView)>, id: Seq<char>) -> int
    decreases rts.len(),
{
    if rts.len() == 0 {
        0
    } else {
        rt_count(rts.drop_last(), id) + if rts.last().0 == id {
            1int
        } else {
            0int
        }
    }
}

/// Repeated `Occupied` observations of a charger with an open session are
/// idempotent: the session is kept exactly as it is, and no session
/// record is emitted for that charger, however many cycles or snapshot
/// entries re-observe it as occupied.
pub proof fn lemma_occupied_reobservation(
    lookup: Map<Seq<char>, LookupEntryView>,
    m: ReconcileModel,
    snap: Seq<EVSEStatusRecord>,
    t: int,
    id: Seq<char>,
)
    requires
        occupancy_keys_ok(m.occupancy),
        m.occupancy.contains_key(id),
        forall|j: int|
            0 <= j < snap.len() && (#[trigger] snap[j]).evse_id@ == id ==> snap[j].evse_status
                is Occupied,
    ensures
        ({
            let r = run(lookup, m, snap, t);
            &&& r.occupancy.contains_key(id)
            &&& r.occupancy[id] == m.occupancy[id]
            &&& r.closed.len() >= m.closed.len()
            &&& r.closed.take(m.closed.len() as int) == m.closed
            &&& forall|k: int|
                m.closed.len() <= k < r.closed.len() ==> (#[trigger] r.closed[k]).charger != id
        }),
    decreases snap.len(),
{
    if snap.len() > 0 {
        let id0 = snap[0].evse_id@;
        let st0 = snap[0].evse_status;
        let m1 = step(lookup, m, id0, st0, t);
        assert(occupancy_keys_ok(m1.occupancy)) by {
            assert forall|k: Seq<char>| m1.occupancy.contains_key(k) implies (
            #[trigger] m1.occupancy[k]).charger == k by {
                if m.occupancy.contains_key(k) && m1.occupancy[k] == m.occupancy[k] {
                } else {
                }
            }
        }
        assert(m1.occupancy.contains_key(id) && m1.occupancy[id] == m.occupancy[id]) by {
            if id0 == id {
                assert(st0 is Occupied);
            }
        }
        assert(m1.closed.len() >= m.closed.len());
        assert(m1.closed.take(m.closed.len() as int) =~= m.closed);
        assert forall|k: int|
            m.closed.len() <= k < m1.closed.len() implies (#[trigger] m1.closed[k]).charger
            != id by {
            // only a close appends, and it appends the session of some
            // charger other than `id`
            if id0 == id {
                assert(st0 is Occupied);
            } else {
                if lookup.contains_key(id0) && !(st0 is Occupied) && m.occupancy.contains_key(
                    id0,
                ) {
                    assert(m1.closed[k] == closed_view(m.occupancy[id0], t));
                    assert(m.occupancy[id0].charger == id0);
                }
            }
        }
        assert forall|j: int|
            0 <= j < snap.drop_first().len() && (#[trigger] snap.drop_first()[j]).evse_id@
                == id implies snap.drop_first()[j].evse_status is Occupied by {
            assert(snap.drop_first()[j] == snap[j + 1]);
        }
        lemma_occupied_reobservation(lookup, m1, snap.drop_first(), t, id);
        let r = run(lookup, m, snap, t);
        assert(r == run(lookup, m1, snap.drop_first(), t));
        assert(r.closed.take(m.closed.len() as int) =~= m.closed) by {
            assert(r.closed.take(m1.closed.len() as int) == m1.closed);
            assert forall|k: int| 0 <= k < m.closed.len() implies r.closed[k] == m.closed[k] by {
                assert(r.closed.take(m1.closed.len() as int)[k] == r.closed[k]);
                assert(m1.closed.take(m.closed.len() as int)[k] == m1.closed[k]);
            }
        }
        assert forall|k: int|
            m.closed.len() <= k < r.closed.len() implies (#[trigger] r.closed[k]).charger != id by {
            if k < m1.closed.len() {
                assert(r.closed.take(m1.closed.len() as int)[k] == r.closed[k]);
                assert(r.closed[k] == m1.closed[k]);
            }
        }
    }
}

/// Every snapshot observation of a charger the lookup table knows yields
/// exactly one realtime record for it in the cycle, and a charger the
/// table does not know yields none, provided the snapshot names each
/// charger once.
pub proof fn lemma_realtime_exactly_once(
    lookup: Map<Seq<char>, LookupEntryView>,
    m: ReconcileModel,
    snap: Seq<EVSEStatusRecord>,
    t: int,
    id: Seq<char>,
)
    requires
        distinct_ids(snap),
    ensures
        rt_count(run(lookup, m, snap, t).realtime, id) == rt_count(m.realtime, id) + if
            snapshot_has(snap, id) && lookup.contains_key(id) {
            1int
        } else {
            0int
        },
    decreases snap.len(),
{
    if snap.len() == 0 {
        assert(!snapshot_has(snap, id));
    } else {
        let id0 = snap[0].evse_id@;
        let st0 = snap[0].evse_status;
        let m1 = step(lookup, m, id0, st0, t);
        assert(distinct_ids(snap.drop_first())) by {
            assert forall|a: int, b: int|
                0 <= a < b < snap.drop_first().len() implies (
            #[trigger] snap.drop_first()[a]).evse_id@ != (
            #[trigger] snap.drop_first()[b]).evse_id@ by {
                assert(snap.drop_first()[a] == snap[a + 1]);
                assert(snap.drop_first()[b] == snap[b + 1]);
            }
        }
        // the step changes the count for `id` by one exactly when the
        // head observation names `id` and the table knows it
        assert(rt_count(m1.realtime, id) == rt_count(m.realtime, id) + if id0 == id
            && lookup.contains_key(id) {
            1int
        } else {
            0int
        }) by {
            if lookup.contains_key(id0) {
                let p = (id0, realtime_view(lookup[id0], st0, t));
                assert(m1.realtime == m.realtime.push(p));
                assert(m.realtime.push(p).drop_last() =~= m.realtime);
            }
        }
        lemma_realtime_exactly_once(lookup, m1, snap.drop_first(), t, id);
        if id0 == id {
            assert(snapshot_has(snap, id));
            assert(!snapshot_has(snap.drop_first(), id)) by {
                if snapshot_has(snap.drop_first(), id) {
                    let j = choose|j: int|
                        0 <= j < snap.drop_first().len() && (
                        #[trigger] snap.drop_first()[j]).evse_id@ == id;
                    assert(snap[j + 1].evse_id@ == id);
                    assert(snap[0].evse_id@ != snap[j + 1].evse_id@);
                }
            }
        } else {
            assert(snapshot_has(snap, id) <==> snapshot_has(snap.drop_first(), id)) by {
                if snapshot_has(snap, id) {
                    let j = choose|j: int|
                        0 <= j < snap.len() && (#[trigger] snap[j]).evse_id@ == id;
                    assert(snap.drop_first()[j - 1] == snap[j]);
                }
                if snapshot_has(snap.drop_first(), id) {
                    let j = choose|j: int|
                        0 <= j < snap.drop_first().len() && (
                        #[trigger] snap.drop_first()[j]).evse_id@ == id;
                    assert(snap[j + 1].evse_id@ == id);
                }
            }
        }
    }
}

/// Output of one reconciliation cycle: the realtime batch (one record per
/// known charger observed, keyed by charger ID), the sessions closed this
/// cycle, and the charger IDs the lookup table did not know.
pub struct ReconcileOutput {
    pub realtime: Vec<(String, Realtime)>,
    pub closed_sessions: Vec<Charging>,
    pub lookup_misses: Vec<String>,
}

impl OccupancyState {
    /// One reconciliation cycle: classifies every snapshot observation,
    /// mutates the occupancy state accordingly, and returns the cycle's
    /// output batches.  The result is exactly what the functional model
    /// [`run`] prescribes, and every emitted session record carries the
    /// duration-derived energy of its own frozen power estimate.
    pub fn reconcile(
        &mut self,
        lookup: &LookupTable,
        snapshot: &Vec<EVSEStatusRecord>,
        current_time: u128,
    ) -> (out: ReconcileOutput)
        requires
            old(self).wf(),
            lookup.wf(),
            current_time <= u64::MAX,
            forall|k: Seq<char>|
                old(self)@.contains_key(k) ==> (#[trigger] old(self)@[k]).start <= current_time,
        ensures
            final(self).wf(),
            ({
                let m = run(lookup@, init_model(old(self)@), snapshot@, current_time as int);
                &&& final(self)@ == m.occupancy
                &&& realtime_views(out.realtime@) == m.realtime
                &&& charging_views(out.closed_sessions@) == m.closed
                &&& string_views(out.lookup_misses@) == m.misses
            }),
            forall|k: int|
                0 <= k < out.closed_sessions@.len() ==> closed_record_ok(
                    (#[trigger] out.closed_sessions@[k])@,
                    current_time as int,
                ),
    {
        let ghost lk = lookup@;
        let ghost init_map = self@;
        let mut realtime: Vec<(String, Realtime)> = Vec::new();
        let mut closed_sessions: Vec<Charging> = Vec::new();
        let mut lookup_misses: Vec<String> = Vec::new();
        let n = snapshot.len();
        let mut j: usize = 0;
        while j < n
            invariant
                0 <= j <= n == snapshot@.len(),
                self.wf(),
                lookup.wf(),
                lk == lookup@,
                current_time <= u64::MAX,
                ({
                    let m = run(lk, init_model(init_map), snapshot@.take(j as int), current_time as int);
                    &&& self@ == m.occupancy
                    &&& realtime_views(realtime@) == m.realtime
                    &&& charging_views(closed_sessions@) == m.closed
                    &&& string_views(lookup_misses@) == m.misses
                }),
                forall|k: Seq<char>|
                    self@.contains_key(k) ==> (#[trigger] self@[k]).start <= current_time,
                forall|k: int|
                    0 <= k < closed_sessions@.len() ==> closed_record_ok(
                        (#[trigger] closed_sessions@[k])@,
                        current_time as int,
                    ),
            decreases n - j,
        {
            let ghost m_pre = run(lk, init_model(init_map), snapshot@.take(j as int), current_time as int);
            proof {
                lemma_run_snoc(lk, init_model(init_map), snapshot@, j as int, current_time as int);
            }
            let rec = &snapshot[j];
            match lookup.get(&rec.evse_id) {
                None => {
                    lookup_misses.push(rec.evse_id.clone());
                    proof {
                        assert(string_views(lookup_misses@) =~= m_pre.misses.push(rec.evse_id@));
                    }
                },
                Some(entry) => {
                    let occupied = rec.evse_status == EVSEStatus::Occupied;
                    let rt = Realtime {
                        last_update: current_time,
                        occupied,
                        nominal_max_power: entry.max_nominal_power,
                        estimated_power: Some(entry.estimated_power),
                        zip: entry.zip.clone(),
                        location: entry.location,
                    };
                    proof {
                        assert(rt@ == realtime_view(
                            lk[rec.evse_id@],
                            rec.evse_status,
                            current_time as int,
                        ));
                    }
                    realtime.push((rec.evse_id.clone(), rt));
                    proof {
                        assert(realtime_views(realtime@) =~= m_pre.realtime.push(
                            (
                                rec.evse_id@,
                                realtime_view(lk[rec.evse_id@], rec.evse_status, current_time as int),
                            ),
                        ));
                    }
                    if occupied {
                        if self.contains_id(&rec.evse_id) {
                            // already occupied: idempotent re-observation
                        } else {
                            let c = Charging {
                                start: current_time,
                                end: None,
                                nominal_max_power: entry.max_nominal_power,
                                estimated_power: Some(entry.estimated_power),
                                charger: rec.evse_id.clone(),
                                zip: entry.zip.clone(),
                                location: entry.location,
                                energy: Some(0),
                            };
                            proof {
                                assert(c@ == open_session_view(
                                    rec.evse_id@,
                                    lk[rec.evse_id@],
                                    current_time as int,
                                ));
                            }
                            self.insert_open(c);
                        }
                    } else {
                        if self.contains_id(&rec.evse_id) {
                            proof {
                                self.lemma_wf_view();
                            }
                            let mut c = self.remove_session(&rec.evse_id);
                            proof {
                                let est = c.estimated_power.unwrap();
                                assert((current_time - c.start) * est <= u128::MAX)
                                    by (nonlinear_arith)
                                    requires
                                        0 <= current_time - c.start <= u64::MAX,
                                        0 <= est <= u64::MAX,
                                ;
                            }
                            c.set_end(current_time);
                            proof {
                                assert(c@ == closed_view(
                                    m_pre.occupancy[rec.evse_id@],
                                    current_time as int,
                                ));
                            }
                            closed_sessions.push(c);
                            proof {
                                assert(charging_views(closed_sessions@) =~= m_pre.closed.push(
                                    closed_view(m_pre.occupancy[rec.evse_id@], current_time as int),
                                ));
                            }
                        } else {
                            // already idle: nothing to close
                        }
                    }
                },
            }
            j += 1;
        }
        proof {
            assert(snapshot@.take(n as int) =~= snapshot@);
        }
        ReconcileOutput { realtime, closed_sessions, lookup_misses }
    }
}

} // verus!
