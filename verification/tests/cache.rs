use flights::{cached_call, CacheAction, CacheEvent, CacheState, CacheStep};
use std::collections::HashMap;

type State = CacheState<Vec<u8>>;
type Event = CacheEvent<Vec<u8>>;
type Step = CacheStep<Vec<u8>>;

/// A storage in memory, and a producer that counts its calls.
struct Outside {
    store: HashMap<String, Vec<u8>>,
    product: Option<Vec<u8>>,
    writable: bool,
    produced: usize,
    written: usize,
}

fn run(outside: &mut Outside, key: &str, action: CacheAction) -> Option<Vec<u8>> {
    let mut state = State::Start;
    let mut event = Event::Begin;
    loop {
        let (next, step) = cached_call(state, event, action);
        state = next;
        event = match step {
            Step::Read => match outside.store.get(key) {
                Some(bytes) => Event::Hit(bytes.clone()),
                None => Event::Miss,
            },
            Step::Produce => {
                outside.produced += 1;
                match &outside.product {
                    Some(bytes) => Event::Produced(bytes.clone()),
                    None => Event::ProducerFailed,
                }
            }
            Step::Write => {
                outside.written += 1;
                let bytes = match &state {
                    State::Writing(bytes) => bytes.clone(),
                    other => panic!("nothing to write in {:?}", other),
                };
                if outside.writable {
                    outside.store.insert(key.to_string(), bytes);
                    Event::Written
                } else {
                    Event::WriteFailed
                }
            }
            Step::Return(bytes) => {
                assert_eq!(state, State::Done);
                return Some(bytes);
            }
            Step::Fail => {
                assert_eq!(state, State::Done);
                return None;
            }
        };
    }
}

fn outside(product: Option<&[u8]>, writable: bool) -> Outside {
    Outside {
        store: HashMap::new(),
        product: product.map(|b| b.to_vec()),
        writable,
        produced: 0,
        written: 0,
    }
}

#[test]
fn policy_is_final_once_the_month_has_passed() {
    assert_eq!(CacheAction::from_date(100, 99), CacheAction::Refreshable);
    assert_eq!(CacheAction::from_date(100, 100), CacheAction::Final);
    assert_eq!(CacheAction::from_date(100, 101), CacheAction::Final);
    assert_eq!(CacheAction::from_date(100, 70), CacheAction::Refreshable);
    assert_eq!(CacheAction::from_date(-5, -6), CacheAction::Refreshable);
    assert_eq!(CacheAction::from_date(i32::MIN, i32::MAX), CacheAction::Final);
    assert_eq!(CacheAction::from_date(i32::MAX, i32::MIN), CacheAction::Refreshable);
}

#[test]
fn steps_of_a_hit() {
    let (state, step) = cached_call(State::Start, Event::Begin, CacheAction::Final);
    assert_eq!((&state, &step), (&State::Reading, &Step::Read));
    let (state, step) = cached_call(state, Event::Hit(vec![1, 2, 3]), CacheAction::Final);
    assert_eq!((state, step), (State::Done, Step::Return(vec![1, 2, 3])));
}

#[test]
fn steps_of_a_miss() {
    let (state, step) = cached_call(State::Start, Event::Begin, CacheAction::Refreshable);
    assert_eq!((&state, &step), (&State::Reading, &Step::Read));
    let (state, step) = cached_call(state, Event::Miss, CacheAction::Refreshable);
    assert_eq!((&state, &step), (&State::Producing, &Step::Produce));
    let (state, step) = cached_call(state, Event::Produced(vec![9, 8]), CacheAction::Refreshable);
    assert_eq!((&state, &step), (&State::Writing(vec![9, 8]), &Step::Write));
    let (state, step) = cached_call(state, Event::Written, CacheAction::Refreshable);
    assert_eq!((state, step), (State::Done, Step::Return(vec![9, 8])));
}

#[test]
fn producer_failure_ends_the_call_before_a_write() {
    let (state, step) = cached_call(State::Producing, Event::ProducerFailed, CacheAction::Final);
    assert_eq!((state, step), (State::Done, Step::Fail));
}

#[test]
fn write_failure_ends_the_call() {
    let (state, step) =
        cached_call(State::Writing(vec![1]), Event::WriteFailed, CacheAction::Final);
    assert_eq!((state, step), (State::Done, Step::Fail));
}

#[test]
fn unexpected_event_ends_the_call() {
    let cases: Vec<(State, Event)> = vec![
        (State::Start, Event::Miss),
        (State::Start, Event::Hit(vec![1])),
        (State::Reading, Event::Begin),
        (State::Reading, Event::Produced(vec![1])),
        (State::Reading, Event::Written),
        (State::Producing, Event::Hit(vec![1])),
        (State::Producing, Event::Miss),
        (State::Writing(vec![1]), Event::Produced(vec![2])),
        (State::Writing(vec![1]), Event::Begin),
        (State::Done, Event::Begin),
        (State::Done, Event::Hit(vec![1])),
        (State::Done, Event::Written),
    ];
    for (state, event) in cases {
        assert_eq!(cached_call(state, event, CacheAction::Final), (State::Done, Step::Fail));
    }
}

#[test]
fn hit_is_returned_under_either_policy() {
    for action in [CacheAction::Final, CacheAction::Refreshable] {
        let mut world = outside(Some(b"fresh"), true);
        world.store.insert("k".to_string(), b"cached".to_vec());
        assert_eq!(run(&mut world, "k", action), Some(b"cached".to_vec()));
        assert_eq!(world.produced, 0);
        assert_eq!(world.written, 0);
        assert_eq!(world.store.get("k"), Some(&b"cached".to_vec()));
    }
}

#[test]
fn miss_writes_through() {
    let mut world = outside(Some(b"fresh"), true);
    assert_eq!(run(&mut world, "k", CacheAction::Final), Some(b"fresh".to_vec()));
    assert_eq!(world.produced, 1);
    assert_eq!(world.written, 1);
    assert_eq!(world.store.get("k"), Some(&b"fresh".to_vec()));
    assert_eq!(world.store.len(), 1);
}

#[test]
fn second_call_runs_no_producer() {
    let mut world = outside(Some(b"first"), true);
    let first = run(&mut world, "k", CacheAction::Refreshable);
    assert_eq!(first, Some(b"first".to_vec()));
    world.product = Some(b"second".to_vec());
    let second = run(&mut world, "k", CacheAction::Refreshable);
    assert_eq!(second, first);
    assert_eq!(world.produced, 1);
    assert_eq!(world.written, 1);
}

#[test]
fn failed_producer_writes_nothing() {
    let mut world = outside(None, true);
    assert_eq!(run(&mut world, "k", CacheAction::Final), None);
    assert_eq!(world.produced, 1);
    assert_eq!(world.written, 0);
    assert_eq!(world.store.get("k"), None);
    assert!(world.store.is_empty());
}

#[test]
fn failed_producer_leaves_other_entries() {
    let mut world = outside(None, true);
    world.store.insert("other".to_string(), b"kept".to_vec());
    assert_eq!(run(&mut world, "k", CacheAction::Final), None);
    assert_eq!(world.store.get("k"), None);
    assert_eq!(world.store.get("other"), Some(&b"kept".to_vec()));
    assert_eq!(run(&mut world, "other", CacheAction::Final), Some(b"kept".to_vec()));
    assert_eq!(world.produced, 1);
}

#[test]
fn refused_write_fails_the_call() {
    let mut world = outside(Some(b"fresh"), false);
    assert_eq!(run(&mut world, "k", CacheAction::Final), None);
    assert_eq!(world.produced, 1);
    assert_eq!(world.written, 1);
    assert_eq!(world.store.get("k"), None);
}
