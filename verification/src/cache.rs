use crate::calendar::Day;
use vstd::prelude::*;

verus! {

/// Whether the cached bucket of a month can still change.
#[derive(Clone, Copy, Debug, PartialEq, Eq, Structural)]
pub enum CacheAction {
    /// The month has passed: what is cached stays as it is.
    Final,
    /// The month has not passed: the bucket may be recomputed later.
    Refreshable,
}

impl CacheAction {
    /// The policy for a month that ends before the day `end`, seen on the
    /// day `today`: final once no day of the month is still to come.
    pub open spec fn policy(end: int, today: int) -> CacheAction {
        if end <= today {
            CacheAction::Final
        } else {
            CacheAction::Refreshable
        }
    }

    /// The policy for a month whose days end before `end`, on the day `today`.
    pub fn from_date(end: Day, today: Day) -> (r: CacheAction)
        ensures
            r == CacheAction::policy(end as int, today as int),
    {
        if end <= today {
            CacheAction::Final
        } else {
            CacheAction::Refreshable
        }
    }

    /// A month that is final stays final on every later day.
    pub proof fn lemma_final_stays(end: int, today: int, later: int)
        requires
            today <= later,
            CacheAction::policy(end, today) == CacheAction::Final,
        ensures
            CacheAction::policy(end, later) == CacheAction::Final,
    {
    }
}

/// Where a cached call stands. `B` is what holds the bytes: a `Vec<u8>` in a
/// running call, a `Seq<u8>` in what is said of it.
#[derive(Debug, PartialEq, Eq)]
pub enum CacheState<B> {
    /// Nothing was done yet.
    Start,
    /// The storage was asked for the key.
    Reading,
    /// The key was missing, and the producer was asked for the bytes.
    Producing,
    /// The producer gave these bytes, and the storage was asked to hold them.
    Writing(B),
    /// The call has ended.
    Done,
}

/// What the outside reports to a cached call.
#[derive(Debug, PartialEq, Eq)]
pub enum CacheEvent<B> {
    /// The call starts.
    Begin,
    /// The storage holds these bytes under the key.
    Hit(B),
    /// The storage holds nothing under the key.
    Miss,
    /// The producer gave these bytes.
    Produced(B),
    /// The producer failed.
    ProducerFailed,
    /// The storage holds the bytes that it was given.
    Written,
    /// The storage refused the bytes.
    WriteFailed,
}

/// What a cached call asks of the outside next, or how it ends.
#[derive(Debug, PartialEq, Eq)]
pub enum CacheStep<B> {
    /// Read the key from the storage.
    Read,
    /// Run the producer.
    Produce,
    /// Write the bytes of the state under the key.
    Write,
    /// The call ends with these bytes.
    Return(B),
    /// The call ends with the failure that was reported.
    Fail,
}

impl View for CacheState<Vec<u8>> {
    type V = CacheState<Seq<u8>>;

    open spec fn view(&self) -> CacheState<Seq<u8>> {
        match *self {
            CacheState::Start => CacheState::Start,
            CacheState::Reading => CacheState::Reading,
            CacheState::Producing => CacheState::Producing,
            CacheState::Writing(bytes) => CacheState::Writing(bytes@),
            CacheState::Done => CacheState::Done,
        }
    }
}

impl View for CacheEvent<Vec<u8>> {
    type V = CacheEvent<Seq<u8>>;

    open spec fn view(&self) -> CacheEvent<Seq<u8>> {
        match *self {
            CacheEvent::Begin => CacheEvent::Begin,
            CacheEvent::Hit(bytes) => CacheEvent::Hit(bytes@),
            CacheEvent::Miss => CacheEvent::Miss,
            CacheEvent::Produced(bytes) => CacheEvent::Produced(bytes@),
            CacheEvent::ProducerFailed => CacheEvent::ProducerFailed,
            CacheEvent::Written => CacheEvent::Written,
            CacheEvent::WriteFailed => CacheEvent::WriteFailed,
        }
    }
}

impl View for CacheStep<Vec<u8>> {
    type V = CacheStep<Seq<u8>>;

    open spec fn view(&self) -> CacheStep<Seq<u8>> {
        match *self {
            CacheStep::Read => CacheStep::Read,
            CacheStep::Produce => CacheStep::Produce,
            CacheStep::Write => CacheStep::Write,
            CacheStep::Return(bytes) => CacheStep::Return(bytes@),
            CacheStep::Fail => CacheStep::Fail,
        }
    }
}

/// What a cached call does on an event: its next state, and what it asks of
/// the outside or how it ends.
///
/// A hit is returned as it is. A miss runs the producer; what the producer
/// gives is written under the key and then returned. A failure of the
/// producer ends the call before anything is written. An event that the
/// state does not wait for ends the call with a failure.
pub open spec fn transition(state: CacheState<Seq<u8>>, event: CacheEvent<Seq<u8>>) -> (
    CacheState<Seq<u8>>,
    CacheStep<Seq<u8>>,
) {
    match (state, event) {
        (CacheState::Start, CacheEvent::Begin) => (CacheState::Reading, CacheStep::Read),
        (CacheState::Reading, CacheEvent::Hit(bytes)) => (CacheState::Done, CacheStep::Return(bytes)),
        (CacheState::Reading, CacheEvent::Miss) => (CacheState::Producing, CacheStep::Produce),
        (CacheState::Producing, CacheEvent::Produced(bytes)) => (
            CacheState::Writing(bytes),
            CacheStep::Write,
        ),
        (CacheState::Writing(bytes), CacheEvent::Written) => (
            CacheState::Done,
            CacheStep::Return(bytes),
        ),
        _ => (CacheState::Done, CacheStep::Fail),
    }
}

/// One step of a cached call: the caller does what the step asks and comes
/// back with the event that tells how it went, until the step is `Return`
/// or `Fail`.
///
/// The policy of the bucket changes no step: a hit is returned under either
/// policy, and `Refreshable` only tells the caller that the bucket may be
/// recomputed later.
pub fn cached_call(state: CacheState<Vec<u8>>, event: CacheEvent<Vec<u8>>, action: CacheAction) -> (r:
    (CacheState<Vec<u8>>, CacheStep<Vec<u8>>))
    ensures
        (r.0@, r.1@) == transition(state@, event@),
{
    match (state, event) {
        (CacheState::Start, CacheEvent::Begin) => (CacheState::Reading, CacheStep::Read),
        (CacheState::Reading, CacheEvent::Hit(bytes)) => (CacheState::Done, CacheStep::Return(bytes)),
        (CacheState::Reading, CacheEvent::Miss) => (CacheState::Producing, CacheStep::Produce),
        (CacheState::Producing, CacheEvent::Produced(bytes)) => (
            CacheState::Writing(bytes),
            CacheStep::Write,
        ),
        (CacheState::Writing(bytes), CacheEvent::Written) => (
            CacheState::Done,
            CacheStep::Return(bytes),
        ),
        _ => (CacheState::Done, CacheStep::Fail),
    }
}

/// The outside of one cached call: what the storage holds under the key,
/// what the producer would give (nothing where it fails), and whether the
/// storage takes a write.
pub struct World {
    pub entry: Option<Seq<u8>>,
    pub product: Option<Seq<u8>>,
    pub writable: bool,
}

/// How a cached call ended: the bytes returned (none where it failed), what
/// the storage holds under the key afterwards, and how often the producer
/// and the storage's write were called.
pub struct Outcome {
    pub result: Option<Seq<u8>>,
    pub entry: Option<Seq<u8>>,
    pub produced: nat,
    pub written: nat,
}

/// The event with which the outside answers a step.
pub open spec fn answer(world: World, step: CacheStep<Seq<u8>>) -> CacheEvent<Seq<u8>> {
    match step {
        CacheStep::Read => match world.entry {
            Some(bytes) => CacheEvent::Hit(bytes),
            None => CacheEvent::Miss,
        },
        CacheStep::Produce => match world.product {
            Some(bytes) => CacheEvent::Produced(bytes),
            None => CacheEvent::ProducerFailed,
        },
        CacheStep::Write => if world.writable {
            CacheEvent::Written
        } else {
            CacheEvent::WriteFailed
        },
        _ => CacheEvent::Begin,
    }
}

/// What the outside holds after it has done what a step asks: a write that
/// the storage takes replaces the whole entry, everything else leaves it.
pub open spec fn after(world: World, state: CacheState<Seq<u8>>, step: CacheStep<Seq<u8>>) -> World {
    match (step, state) {
        (CacheStep::Write, CacheState::Writing(bytes)) if world.writable => World {
            entry: Some(bytes),
            product: world.product,
            writable: world.writable,
        },
        _ => world,
    }
}

/// The number of steps that a call in this state can still take.
pub open spec fn steps_left(state: CacheState<Seq<u8>>) -> nat {
    match state {
        CacheState::Start => 4,
        CacheState::Reading => 3,
        CacheState::Producing => 2,
        CacheState::Writing(_) => 1,
        CacheState::Done => 0,
    }
}

/// A cached call run to its end against the outside `world`, from `state`
/// and `event` on.
pub open spec fn run(world: World, state: CacheState<Seq<u8>>, event: CacheEvent<Seq<u8>>) -> Outcome
    decreases steps_left(state),
{
    let (next, step) = transition(state, event);
    match step {
        CacheStep::Return(bytes) => Outcome {
            result: Some(bytes),
            entry: world.entry,
            produced: 0,
            written: 0,
        },
        CacheStep::Fail => Outcome { result: None, entry: world.entry, produced: 0, written: 0 },
        _ => {
            let rest = run(after(world, next, step), next, answer(world, step));
            Outcome {
                result: rest.result,
                entry: rest.entry,
                produced: rest.produced + if step is Produce {
                    1nat
                } else {
                    0nat
                },
                written: rest.written + if step is Write {
                    1nat
                } else {
                    0nat
                },
            }
        },
    }
}

/// A whole cached call against the outside `world`.
pub open spec fn call(world: World) -> Outcome {
    run(world, CacheState::Start, CacheEvent::Begin)
}

/// What a whole call comes to, case by case.
pub proof fn lemma_call(world: World)
    ensures
        world.entry is Some ==> call(world) == (Outcome {
            result: world.entry,
            entry: world.entry,
            produced: 0,
            written: 0,
        }),
        world.entry is None && world.product is None ==> call(world) == (Outcome {
            result: None,
            entry: None,
            produced: 1,
            written: 0,
        }),
        world.entry is None && world.product is Some && world.writable ==> call(world) == (Outcome {
            result: world.product,
            entry: world.product,
            produced: 1,
            written: 1,
        }),
        world.entry is None && world.product is Some && !world.writable ==> call(world) == (Outcome {
            result: None,
            entry: None,
            produced: 1,
            written: 1,
        }),
{
    reveal_with_fuel(run, 5);
}

/// After a call that returned bytes, a second call for the same key returns
/// the same bytes without running the producer or writing, whatever the
/// producer would give by then.
pub proof fn lemma_second_call_hits(world: World, later: World)
    requires
        call(world).result is Some,
        later.entry == call(world).entry,
    ensures
        call(later).result == call(world).result,
        call(later).produced == 0,
        call(later).written == 0,
        call(later).entry == call(world).entry,
{
    lemma_call(world);
    lemma_call(later);
}

/// A call whose producer fails writes nothing: the storage holds under the
/// key what it held before, and the call returns no bytes unless the
/// storage held some.
pub proof fn lemma_no_write_on_failure(world: World)
    requires
        world.product is None,
    ensures
        call(world).written == 0,
        call(world).entry == world.entry,
        call(world).result == world.entry,
{
    lemma_call(world);
}

} // verus!
