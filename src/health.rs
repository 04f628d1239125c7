//! Liveness registry: each handle records when it last reported, and its
//! status is a function of the time elapsed since then.

use vstd::prelude::*;

verus! {

/// Health of one handle, or of a whole registry (the worst of its handles).
#[derive(PartialEq, Eq, Structural, Clone, Copy, Debug)]
pub enum HealthStatus {
    Fresh,
    Stale,
    Dead,
}

/// Mathematical model of one registered handle. Times are in milliseconds.
pub struct HandleModel {
    pub name: Seq<char>,
    pub timeout: nat,
    pub registered_at: nat,
    pub last_report: Option<nat>,
}

/// Time from `since` to `now`, zero when the clock reads earlier than `since`.
pub open spec fn elapsed(now: nat, since: nat) -> nat {
    if now >= since {
        (now - since) as nat
    } else {
        0
    }
}

/// Status of a handle polled at `now`: fresh within one timeout of its last
/// report, stale within two, dead after that or when it never reported.
pub open spec fn status_of(h: HandleModel, now: nat) -> HealthStatus {
    match h.last_report {
        None => HealthStatus::Dead,
        Some(t) => {
            let e = elapsed(now, t);
            if e < h.timeout {
                HealthStatus::Fresh
            } else if e < 2 * h.timeout {
                HealthStatus::Stale
            } else {
                HealthStatus::Dead
            }
        },
    }
}

pub open spec fn severity(s: HealthStatus) -> nat {
    match s {
        HealthStatus::Fresh => 0,
        HealthStatus::Stale => 1,
        HealthStatus::Dead => 2,
    }
}

pub open spec fn worse(a: HealthStatus, b: HealthStatus) -> HealthStatus {
    if severity(a) >= severity(b) {
        a
    } else {
        b
    }
}

/// Status of a whole registry: the worst status of its handles, `Fresh` when
/// it has none.
pub open spec fn overall_status(hs: Seq<HandleModel>, now: nat) -> HealthStatus
    decreases hs.len(),
{
    if hs.len() == 0 {
        HealthStatus::Fresh
    } else {
        worse(overall_status(hs.drop_last(), now), status_of(hs.last(), now))
    }
}

/// A handle after a report at `now`: the timestamp never moves backwards.
pub open spec fn reported(h: HandleModel, now: nat) -> HandleModel {
    let t = match h.last_report {
        None => now,
        Some(prev) => if prev >= now {
            prev
        } else {
            now
        },
    };
    HandleModel { last_report: Some(t), ..h }
}

pub open spec fn names_unique(hs: Seq<HandleModel>) -> bool {
    forall|i: int, j: int|
        0 <= i < hs.len() && 0 <= j < hs.len() && i != j ==> hs[i].name != hs[j].name
}

pub open spec fn has_name(hs: Seq<HandleModel>, name: Seq<char>) -> bool {
    exists|i: int| 0 <= i < hs.len() && hs[i].name == name
}

/// A handle with timeout `T` is fresh right after a report, stale when
/// polled at `T + e` and dead at `2T + e` (for `0 < e < T`); a handle that
/// never reported is dead, in particular once `2T` has passed since it was
/// registered.
pub proof fn lemma_health_transitions(h: HandleModel, t: nat, e: nat)
    requires
        0 < e < h.timeout,
        match h.last_report {
            None => true,
            Some(prev) => prev <= t,
        },
    ensures
        status_of(reported(h, t), t) == HealthStatus::Fresh,
        status_of(reported(h, t), t + h.timeout + e) == HealthStatus::Stale,
        status_of(reported(h, t), t + 2 * h.timeout + e) == HealthStatus::Dead,
        h.last_report is None ==> status_of(h, h.registered_at + 2 * h.timeout + e)
            == HealthStatus::Dead,
{
}

/// A registry's status is the worst status of any of its handles.
pub proof fn lemma_overall_is_worst(hs: Seq<HandleModel>, now: nat)
    ensures
        forall|i: int|
            0 <= i < hs.len() ==> severity(#[trigger] status_of(hs[i], now)) <= severity(
                overall_status(hs, now),
            ),
        hs.len() > 0 ==> exists|i: int|
            0 <= i < hs.len() && overall_status(hs, now) == status_of(hs[i], now),
    decreases hs.len(),
{
    if hs.len() > 0 {
        let prev = hs.drop_last();
        lemma_overall_is_worst(prev, now);
        assert forall|i: int| 0 <= i < hs.len() implies severity(
            #[trigger] status_of(hs[i], now),
        ) <= severity(overall_status(hs, now)) by {
            if i < hs.len() - 1 {
                assert(prev[i] == hs[i]);
            }
        }
        if overall_status(hs, now) == status_of(hs.last(), now) {
            assert(overall_status(hs, now) == status_of(hs[hs.len() - 1], now));
        } else {
            let j = choose|j: int|
                0 <= j < prev.len() && overall_status(prev, now) == status_of(prev[j], now);
            assert(prev[j] == hs[j]);
        }
    }
}

struct HandleState {
    name: String,
    timeout_ms: u64,
    registered_at: u64,
    last_report: Option<u64>,
}

impl HandleState {
    closed spec fn model(&self) -> HandleModel {
        HandleModel {
            name: self.name@,
            timeout: self.timeout_ms as nat,
            registered_at: self.registered_at as nat,
            last_report: match self.last_report {
                None => None,
                Some(t) => Some(t as nat),
            },
        }
    }

    fn status(&self, now: u64) -> (r: HealthStatus)
        ensures
            r == status_of(self.model(), now as nat),
    {
        match self.last_report {
            None => HealthStatus::Dead,
            Some(t) => {
                let e: u64 = if now >= t {
                    now - t
                } else {
                    0
                };
                if e < self.timeout_ms {
                    HealthStatus::Fresh
                } else if e - self.timeout_ms < self.timeout_ms {
                    HealthStatus::Stale
                } else {
                    HealthStatus::Dead
                }
            },
        }
    }
}

/// A capability to report liveness for one slot of a registry.
#[derive(Clone, Copy, Debug)]
pub struct HealthHandle {
    slot: usize,
}

impl HealthHandle {
    pub closed spec fn slot(&self) -> int {
        self.slot as int
    }

    /// Position of the handle's slot in its registry.
    pub fn index(&self) -> (r: usize)
        ensures
            r as int == self.slot(),
    {
        self.slot
    }
}

/// Owns every liveness slot of a process.
pub struct HealthRegistry {
    name: String,
    handles: Vec<HandleState>,
}

impl HealthRegistry {
    pub closed spec fn name(&self) -> Seq<char> {
        self.name@
    }

    pub closed spec fn handles(&self) -> Seq<HandleModel> {
        self.handles@.map_values(|h: HandleState| h.model())
    }

    pub fn new(name: &str) -> (r: HealthRegistry)
        ensures
            r.name() == name@,
            r.handles() == Seq::<HandleModel>::empty(),
    {
        let r = HealthRegistry { name: name.to_owned(), handles: Vec::new() };
        assert(r.handles() =~= Seq::<HandleModel>::empty());
        r
    }

    /// Number of registered handles.
    pub fn len(&self) -> (r: usize)
        ensures
            r == self.handles().len(),
    {
        self.handles.len()
    }

    pub fn is_registered(&self, name: &String) -> (r: bool)
        ensures
            r == has_name(self.handles(), name@),
    {
        let mut i: usize = 0;
        while i < self.handles.len()
            invariant
                0 <= i <= self.handles@.len(),
                forall|j: int| 0 <= j < i ==> self.handles()[j].name != name@,
            decreases self.handles@.len() - i,
        {
            assert(self.handles()[i as int] == self.handles@[i as int].model());
            if self.handles[i].name == *name {
                return true;
            }
            i = i + 1;
        }
        false
    }

    /// Registers a new handle that has not reported yet. Registering a name
    /// twice is a defect of the caller.
    pub fn register(&mut self, name: String, timeout_ms: u64, now: u64) -> (h: HealthHandle)
        requires
            !has_name(old(self).handles(), name@),
            old(self).handles().len() < usize::MAX,
        ensures
            h.slot() == old(self).handles().len(),
            final(self).name() == old(self).name(),
            final(self).handles() == old(self).handles().push(
                HandleModel {
                    name: name@,
                    timeout: timeout_ms as nat,
                    registered_at: now as nat,
                    last_report: None,
                },
            ),
    {
        let slot = self.handles.len();
        self.handles.push(HandleState { name, timeout_ms, registered_at: now, last_report: None });
        assert(self.handles() =~= old(self).handles().push(
            HandleModel {
                name: name@,
                timeout: timeout_ms as nat,
                registered_at: now as nat,
                last_report: None,
            },
        ));
        HealthHandle { slot }
    }

    /// Records that the handle's owner was alive at `now`.
    pub fn report(&mut self, handle: &HealthHandle, now: u64)
        requires
            0 <= handle.slot() < old(self).handles().len(),
        ensures
            final(self).name() == old(self).name(),
            final(self).handles() == old(self).handles().update(
                handle.slot(),
                reported(old(self).handles()[handle.slot()], now as nat),
            ),
    {
        let i = handle.slot;
        let t = match self.handles[i].last_report {
            None => now,
            Some(prev) => if prev >= now {
                prev
            } else {
                now
            },
        };
        self.handles[i].last_report = Some(t);
        assert(self.handles() =~= old(self).handles().update(
            handle.slot(),
            reported(old(self).handles()[handle.slot()], now as nat),
        ));
    }

    pub fn handle_status(&self, handle: &HealthHandle, now: u64) -> (r: HealthStatus)
        requires
            0 <= handle.slot() < self.handles().len(),
        ensures
            r == status_of(self.handles()[handle.slot()], now as nat),
    {
        self.handles[handle.slot].status(now)
    }

    /// The worst status over all handles at `now`.
    pub fn status(&self, now: u64) -> (r: HealthStatus)
        ensures
            r == overall_status(self.handles(), now as nat),
    {
        let mut acc = HealthStatus::Fresh;
        let mut i: usize = 0;
        while i < self.handles.len()
            invariant
                0 <= i <= self.handles@.len(),
                acc == overall_status(self.handles().take(i as int), now as nat),
            decreases self.handles@.len() - i,
        {
            let s = self.handles[i].status(now);
            proof {
                assert(self.handles().take(i + 1).drop_last() =~= self.handles().take(i as int));
            }
            acc = match (acc, s) {
                (HealthStatus::Dead, _) => HealthStatus::Dead,
                (_, HealthStatus::Dead) => HealthStatus::Dead,
                (HealthStatus::Stale, _) => HealthStatus::Stale,
                (_, HealthStatus::Stale) => HealthStatus::Stale,
                _ => HealthStatus::Fresh,
            };
            i = i + 1;
        }
        assert(self.handles().take(i as int) =~= self.handles());
        acc
    }
}

} // verus!
