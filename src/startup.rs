//! Startup sequencing: the liveness registry with its two handles, then the
//! resources in dependency order, each of which may fail. The first failure
//! aborts the whole startup with a tag naming the resource; the worker's
//! context exists only once every step has succeeded.

use crate::health::{HandleModel, HealthHandle, HealthRegistry};
use vstd::prelude::*;

verus! {

/// Timeout of the worker handle, tuned to the worker's poll cadence.
pub const WORKER_TIMEOUT_MS: u64 = 60000;

/// Timeout of the transport handle, tuned to the network keepalive cadence.
pub const TRANSPORT_TIMEOUT_MS: u64 = 30000;

/// The first steps of startup: the process's liveness registry, with the
/// worker's handle and then the stream transport's handle registered at
/// `now`, neither of which has reported yet.
pub fn liveness_registry(now: u64) -> (r: (HealthRegistry, HealthHandle, HealthHandle))
    ensures
        r.0.name() == "liveness"@,
        r.0.handles() == seq![
            HandleModel {
                name: "worker"@,
                timeout: WORKER_TIMEOUT_MS as nat,
                registered_at: now as nat,
                last_report: None,
            },
            HandleModel {
                name: "rdkafka"@,
                timeout: TRANSPORT_TIMEOUT_MS as nat,
                registered_at: now as nat,
                last_report: None,
            },
        ],
        r.1.slot() == 0,
        r.2.slot() == 1,
{
    proof {
        reveal_strlit("worker");
        reveal_strlit("rdkafka");
    }
    let mut registry = HealthRegistry::new("liveness");
    let worker = registry.register("worker".to_owned(), WORKER_TIMEOUT_MS, now);
    assert(registry.handles().len() == 1);
    assert("worker"@.len() != "rdkafka"@.len());
    let transport = registry.register("rdkafka".to_owned(), TRANSPORT_TIMEOUT_MS, now);
    assert(registry.handles() =~= seq![
        HandleModel {
            name: "worker"@,
            timeout: WORKER_TIMEOUT_MS as nat,
            registered_at: now as nat,
            last_report: None,
        },
        HandleModel {
            name: "rdkafka"@,
            timeout: TRANSPORT_TIMEOUT_MS as nat,
            registered_at: now as nat,
            last_report: None,
        },
    ]);
    (registry, worker, transport)
}

/// A resource that startup provisions, in this order.
#[derive(PartialEq, Eq, Structural, Clone, Copy, Debug)]
pub enum Resource {
    Consumer,
    Producer,
    Pool,
    Catalog,
}

/// Which resource failed to provision.
#[derive(PartialEq, Eq, Structural, Clone, Copy, Debug)]
pub enum StartupError {
    Consumer,
    Producer,
    Pool,
    Catalog,
}

/// What startup does next.
#[derive(PartialEq, Eq, Structural, Clone, Copy, Debug)]
pub enum StartupStep {
    Provision(Resource),
    Ready,
    Abort(StartupError),
}

/// Number of resources that startup provisions.
pub const RESOURCE_COUNT: usize = 4;

pub open spec fn resource_at(i: nat) -> Resource {
    if i == 0 {
        Resource::Consumer
    } else if i == 1 {
        Resource::Producer
    } else if i == 2 {
        Resource::Pool
    } else {
        Resource::Catalog
    }
}

pub open spec fn failure_of(r: Resource) -> StartupError {
    match r {
        Resource::Consumer => StartupError::Consumer,
        Resource::Producer => StartupError::Producer,
        Resource::Pool => StartupError::Pool,
        Resource::Catalog => StartupError::Catalog,
    }
}

/// The step after the provisioning outcomes `o` (true for success), in
/// order. Once startup is ready or aborted, it stays so.
pub open spec fn startup_step(o: Seq<bool>) -> StartupStep
    decreases o.len(),
{
    if o.len() == 0 {
        StartupStep::Provision(resource_at(0))
    } else {
        match startup_step(o.drop_last()) {
            StartupStep::Provision(r) => if !o.last() {
                StartupStep::Abort(failure_of(r))
            } else if o.len() >= RESOURCE_COUNT {
                StartupStep::Ready
            } else {
                StartupStep::Provision(resource_at(o.len()))
            },
            decided => decided,
        }
    }
}

fn resource_for(i: usize) -> (r: Resource)
    ensures
        r == resource_at(i as nat),
{
    if i == 0 {
        Resource::Consumer
    } else if i == 1 {
        Resource::Producer
    } else if i == 2 {
        Resource::Pool
    } else {
        Resource::Catalog
    }
}

fn failure_for(r: Resource) -> (e: StartupError)
    ensures
        e == failure_of(r),
{
    match r {
        Resource::Consumer => StartupError::Consumer,
        Resource::Producer => StartupError::Producer,
        Resource::Pool => StartupError::Pool,
        Resource::Catalog => StartupError::Catalog,
    }
}

/// The provisioning outcomes recorded so far.
pub struct Startup {
    outcomes: Vec<bool>,
}

impl View for Startup {
    type V = Seq<bool>;

    closed spec fn view(&self) -> Seq<bool> {
        self.outcomes@
    }
}

impl Startup {
    pub fn new() -> (r: Startup)
        ensures
            r@ == Seq::<bool>::empty(),
    {
        Startup { outcomes: Vec::new() }
    }

    /// The step that the recorded outcomes call for.
    pub fn next_step(&self) -> (r: StartupStep)
        ensures
            r == startup_step(self@),
    {
        let mut step = StartupStep::Provision(Resource::Consumer);
        let mut i: usize = 0;
        while i < self.outcomes.len()
            invariant
                0 <= i <= self@.len(),
                step == startup_step(self@.take(i as int)),
            decreases self@.len() - i,
        {
            proof {
                assert(self@.take(i + 1).drop_last() =~= self@.take(i as int));
            }
            if let StartupStep::Provision(r) = step {
                step = if !self.outcomes[i] {
                    StartupStep::Abort(failure_for(r))
                } else if i + 1 >= RESOURCE_COUNT {
                    StartupStep::Ready
                } else {
                    StartupStep::Provision(resource_for(i + 1))
                };
            }
            i = i + 1;
        }
        assert(self@.take(i as int) =~= self@);
        step
    }

    /// Records whether the resource that `next_step` named was provisioned.
    pub fn record(&mut self, succeeded: bool)
        requires
            startup_step(old(self)@) is Provision,
        ensures
            final(self)@ == old(self)@.push(succeeded),
    {
        proof {
            lemma_outcomes_bounded(self@);
        }
        self.outcomes.push(succeeded);
    }
}

proof fn lemma_outcomes_bounded(o: Seq<bool>)
    requires
        startup_step(o) is Provision,
    ensures
        o.len() < RESOURCE_COUNT,
        forall|j: int| 0 <= j < o.len() ==> o[j],
        startup_step(o) == StartupStep::Provision(resource_at(o.len())),
    decreases o.len(),
{
    if o.len() > 0 {
        lemma_outcomes_bounded(o.drop_last());
        assert forall|j: int| 0 <= j < o.len() implies o[j] by {
            if j < o.len() - 1 {
                assert(o.drop_last()[j] == o[j]);
            }
        }
    }
}

proof fn lemma_all_succeeded(o: Seq<bool>, n: nat)
    requires
        n <= o.len(),
        n <= RESOURCE_COUNT,
        forall|j: int| 0 <= j < n ==> o[j],
    ensures
        startup_step(o.take(n as int)) == if n == RESOURCE_COUNT {
            StartupStep::Ready
        } else {
            StartupStep::Provision(resource_at(n))
        },
    decreases n,
{
    if n > 0 {
        lemma_all_succeeded(o, (n - 1) as nat);
        assert(o.take(n as int).drop_last() =~= o.take(n - 1));
    }
}

proof fn lemma_decided_stays(o: Seq<bool>, n: nat)
    requires
        n <= o.len(),
        !(startup_step(o.take(n as int)) is Provision),
    ensures
        startup_step(o) == startup_step(o.take(n as int)),
    decreases o.len() - n,
{
    if n < o.len() {
        assert(o.take(n + 1 as int).drop_last() =~= o.take(n as int));
        lemma_decided_stays(o, (n + 1) as nat);
    } else {
        assert(o.take(n as int) =~= o);
    }
}

proof fn lemma_ready(o: Seq<bool>)
    ensures
        startup_step(o) == StartupStep::Ready ==> o.len() >= RESOURCE_COUNT && forall|j: int|
            0 <= j < RESOURCE_COUNT ==> o[j],
    decreases o.len(),
{
    if o.len() > 0 && startup_step(o) == StartupStep::Ready {
        let prev = o.drop_last();
        lemma_ready(prev);
        if startup_step(prev) is Provision {
            lemma_outcomes_bounded(prev);
            assert forall|j: int| 0 <= j < RESOURCE_COUNT implies o[j] by {
                if j < o.len() - 1 {
                    assert(prev[j] == o[j]);
                }
            }
        } else {
            assert forall|j: int| 0 <= j < RESOURCE_COUNT implies o[j] by {
                assert(prev[j] == o[j]);
            }
        }
    }
}

/// Startup is all or nothing: it is ready exactly when every resource was
/// provisioned, and when the resource at position `i` fails after all the
/// earlier ones succeeded (the database pool after the consumer and the
/// producer, say), startup aborts with that resource's tag and is never ready,
/// whatever is recorded afterwards.
pub proof fn lemma_startup_atomic(o: Seq<bool>, i: nat)
    ensures
        startup_step(o) == StartupStep::Ready ==> o.len() >= RESOURCE_COUNT && forall|j: int|
            0 <= j < RESOURCE_COUNT ==> o[j],
        (i < RESOURCE_COUNT && i < o.len() && !o[i as int] && forall|j: int| 0 <= j < i ==> o[j])
            ==> startup_step(o) == StartupStep::Abort(failure_of(resource_at(i))),
{
    lemma_ready(o);
    if i < RESOURCE_COUNT && i < o.len() && !o[i as int] && forall|j: int| 0 <= j < i ==> o[j] {
        lemma_all_succeeded(o, i);
        assert(o.take(i + 1 as int).drop_last() =~= o.take(i as int));
        lemma_decided_stays(o, (i + 1) as nat);
    }
}

} // verus!
