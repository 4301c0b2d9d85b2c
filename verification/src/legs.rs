use vstd::prelude::*;

verus! {

/// Altitudes below this many feet count as ground contact.
pub const GROUND_THRESHOLD: i64 = 1000;

/// The altitude field of a raw trace sample.
#[derive(Clone, Copy, Debug, PartialEq, Eq, Structural)]
pub enum Altitude {
    /// The source marks the sample as ground contact.
    Ground,
    /// Barometric altitude in whole feet.
    Feet(i64),
    /// The field holds neither the ground mark nor a number.
    Unknown,
}

/// A point sample of an aircraft trace.
///
/// Coordinates are fixed-point degrees (the unit is the caller's; the
/// library only carries them), the altitude of a flying sample is in feet.
#[derive(Clone, Copy, Debug, PartialEq, Eq, Structural)]
pub enum Position {
    Grounded(i64, i64),
    Flying(i64, i64, i64),
}

/// One flight: the last sample before lift-off and the first after landing.
#[derive(Clone, Copy, Debug, PartialEq, Eq, Structural)]
pub struct Leg {
    pub from: Position,
    pub to: Position,
}

impl Position {
    /// The two coordinates, in the order in which the sample holds them.
    pub open spec fn coordinates(self) -> (i64, i64) {
        match self {
            Position::Grounded(a, b) => (a, b),
            Position::Flying(a, b, _) => (a, b),
        }
    }

    /// Whether the sample was taken in the air.
    pub open spec fn airborne(self) -> bool {
        self is Flying
    }

    /// What a raw sample becomes: a sample is flying only if it reports a
    /// numeric altitude of at least `GROUND_THRESHOLD`.
    pub open spec fn of_sample(first: i64, second: i64, altitude: Altitude) -> Position {
        match altitude {
            Altitude::Feet(feet) if feet >= GROUND_THRESHOLD => Position::Flying(
                first,
                second,
                feet,
            ),
            _ => Position::Grounded(first, second),
        }
    }

    /// The two coordinates of the sample.
    pub fn pos(&self) -> (r: (i64, i64))
        ensures
            r == self.coordinates(),
    {
        match *self {
            Position::Flying(a, b, _) => (a, b),
            Position::Grounded(a, b) => (a, b),
        }
    }

    /// Whether the sample was taken in the air.
    pub fn is_flying(&self) -> (r: bool)
        ensures
            r == self.airborne(),
    {
        match *self {
            Position::Flying(_, _, _) => true,
            Position::Grounded(_, _) => false,
        }
    }

    /// Builds the position of a raw sample, normalising low altitudes to
    /// ground contact.
    pub fn from_sample(first: i64, second: i64, altitude: Altitude) -> (r: Position)
        ensures
            r == Position::of_sample(first, second, altitude),
            r.coordinates() == (first, second),
            r.airborne() <==> (altitude matches Altitude::Feet(feet) && feet >= GROUND_THRESHOLD),
    {
        match altitude {
            Altitude::Ground => Position::Grounded(first, second),
            Altitude::Feet(feet) => {
                if feet < GROUND_THRESHOLD {
                    Position::Grounded(first, second)
                } else {
                    Position::Flying(first, second, feet)
                }
            },
            Altitude::Unknown => Position::Grounded(first, second),
        }
    }
}

/// The trace passes between ground and air somewhere.
pub open spec fn has_transition(trace: Seq<Position>) -> bool {
    exists|i: int| 0 < i < trace.len() && #[trigger] trace[i].airborne() != trace[i - 1].airborne()
}

/// The traces that `legs` accepts: the empty one, and those with a transition.
pub open spec fn segmentable(trace: Seq<Position>) -> bool {
    trace.len() == 0 || has_transition(trace)
}

/// The legs seen in the first `n` samples, each as the pair of the indices
/// of its two ends. A leg whose landing is not among those samples ends
/// where it starts.
pub open spec fn spans_upto(trace: Seq<Position>, n: int) -> Seq<(int, int)>
    decreases n,
{
    if n <= 1 {
        Seq::empty()
    } else {
        let before = spans_upto(trace, n - 1);
        let previous = trace[n - 2];
        let current = trace[n - 1];
        if !previous.airborne() && current.airborne() {
            before.push((n - 2, n - 2))
        } else if previous.airborne() && !current.airborne() {
            if before.len() == 0 {
                seq![(0int, n - 1)]
            } else {
                before.update(before.len() - 1, (before.last().0, n - 1))
            }
        } else {
            before
        }
    }
}

/// The legs of a whole trace as index pairs: a flight still under way at
/// the last sample ends there.
pub open spec fn spans(trace: Seq<Position>) -> Seq<(int, int)> {
    let seen = spans_upto(trace, trace.len() as int);
    if seen.len() > 0 && trace.last().airborne() {
        seen.update(seen.len() - 1, (seen.last().0, trace.len() - 1))
    } else {
        seen
    }
}

/// The legs of a trace.
pub open spec fn legs_of(trace: Seq<Position>) -> Seq<Leg> {
    Seq::new(
        spans(trace).len(),
        |k: int| Leg { from: trace[spans(trace)[k].0], to: trace[spans(trace)[k].1] },
    )
}

/// A transition among the first `n` samples opens a leg.
pub proof fn lemma_transition_opens_leg(trace: Seq<Position>, n: int, i: int)
    requires
        0 < i < n <= trace.len(),
        trace[i].airborne() != trace[i - 1].airborne(),
    ensures
        spans_upto(trace, n).len() > 0,
    decreases n,
{
    if i < n - 1 {
        lemma_transition_opens_leg(trace, n - 1, i);
    }
}

/// Whether the samples at `from` and `to` bracket one flight: every sample
/// between them is airborne, `from` is the last grounded sample before them
/// (or the first sample of a trace that starts in the air), and `to` the
/// first grounded sample after them (or the last sample of a trace that ends
/// in the air).
pub open spec fn is_flight(trace: Seq<Position>, from: int, to: int) -> bool {
    &&& 0 <= from < to < trace.len()
    &&& (trace[from].airborne() ==> from == 0)
    &&& (trace[to].airborne() ==> to == trace.len() - 1)
    &&& forall|i: int| from < i < to ==> #[trigger] trace[i].airborne()
    &&& (trace[from].airborne() || trace[to].airborne() || from + 1 < to)
}

/// A list of index pairs that holds the flights of a trace, each once and
/// in the order flown.
pub open spec fn lists_flights(trace: Seq<Position>, pairs: Seq<(int, int)>) -> bool {
    &&& forall|k: int|
        0 <= k < pairs.len() ==> is_flight(trace, (#[trigger] pairs[k]).0, pairs[k].1)
    &&& forall|j: int, k: int|
        0 <= j < k < pairs.len() ==> (#[trigger] pairs[j]).1 <= (#[trigger] pairs[k]).0
    &&& forall|i: int|
        0 <= i < trace.len() && #[trigger] trace[i].airborne() ==> exists|k: int|
            0 <= k < pairs.len() && (#[trigger] pairs[k]).0 <= i <= pairs[k].1
}

/// A flight that has landed at `to`.
spec fn landed(trace: Seq<Position>, from: int, to: int) -> bool {
    &&& is_flight(trace, from, to)
    &&& !trace[to].airborne()
}

/// A flight that left the ground after `from` and is in the air at every
/// later sample up to `n`.
spec fn under_way(trace: Seq<Position>, from: int, n: int) -> bool {
    &&& 0 <= from < n - 1
    &&& !trace[from].airborne()
    &&& forall|i: int| from < i < n ==> #[trigger] trace[i].airborne()
}

/// What holds of `spans_upto(trace, n)` for every `n`.
spec fn seen_shape(trace: Seq<Position>, n: int) -> bool {
    let seen = spans_upto(trace, n);
    &&& forall|j: int, k: int|
        0 <= j < k < seen.len() ==> (#[trigger] seen[j]).1 <= (#[trigger] seen[k]).0
    &&& forall|k: int|
        0 <= k < seen.len() - 1 ==> landed(trace, (#[trigger] seen[k]).0, seen[k].1) && seen[k].1
            < n - 1
    &&& seen.len() == 0 ==> forall|i: int|
        0 <= i < n ==> #[trigger] trace[i].airborne() == trace[n - 1].airborne()
    &&& seen.len() > 0 ==> if trace[n - 1].airborne() {
        seen.last().0 == seen.last().1 && under_way(trace, seen.last().0, n)
    } else {
        landed(trace, seen.last().0, seen.last().1) && seen.last().1 < n
    }
    &&& forall|i: int|
        0 <= i < n && #[trigger] trace[i].airborne() && seen.len() > 0 ==> exists|k: int|
            0 <= k < seen.len() && (#[trigger] seen[k]).0 <= i && (i <= seen[k].1 || (k
                == seen.len() - 1 && trace[n - 1].airborne()))
}

proof fn lemma_seen_shape(trace: Seq<Position>, n: int)
    requires
        1 <= n <= trace.len(),
    ensures
        seen_shape(trace, n),
    decreases n,
{
    if n > 1 {
        lemma_seen_shape(trace, n - 1);
        let before = spans_upto(trace, n - 1);
        let seen = spans_upto(trace, n);
        let previous = trace[n - 2];
        let current = trace[n - 1];
        if !previous.airborne() && current.airborne() {
            assert(seen == before.push((n - 2, n - 2)));
            assert forall|i: int|
                0 <= i < n && #[trigger] trace[i].airborne() && seen.len() > 0 implies exists|
                k: int,
            |
                0 <= k < seen.len() && (#[trigger] seen[k]).0 <= i && (i <= seen[k].1 || (k
                    == seen.len() - 1 && trace[n - 1].airborne())) by {
                if i == n - 1 {
                    assert(seen[seen.len() - 1].0 <= i);
                } else {
                    assert(before.len() > 0);
                    let k = choose|k: int|
                        0 <= k < before.len() && (#[trigger] before[k]).0 <= i && (i <= before[k].1
                            || (k == before.len() - 1 && trace[n - 2].airborne()));
                    assert(seen[k] == before[k]);
                }
            }
            assert(seen_shape(trace, n));
        } else if previous.airborne() && !current.airborne() {
            if before.len() == 0 {
                assert(seen == seq![(0int, n - 1)]);
                assert(landed(trace, 0, n - 1));
                assert forall|i: int|
                    0 <= i < n && #[trigger] trace[i].airborne() && seen.len()
                        > 0 implies exists|k: int|
                    0 <= k < seen.len() && (#[trigger] seen[k]).0 <= i && (i <= seen[k].1 || (k
                        == seen.len() - 1 && trace[n - 1].airborne())) by {
                    assert(seen[0].0 <= i);
                }
                assert(seen_shape(trace, n));
            } else {
                let from = before.last().0;
                assert(seen == before.update(before.len() - 1, (from, n - 1)));
                assert(landed(trace, from, n - 1));
                assert forall|i: int|
                    0 <= i < n && #[trigger] trace[i].airborne() && seen.len()
                        > 0 implies exists|k: int|
                    0 <= k < seen.len() && (#[trigger] seen[k]).0 <= i && (i <= seen[k].1 || (k
                        == seen.len() - 1 && trace[n - 1].airborne())) by {
                    let k = choose|k: int|
                        0 <= k < before.len() && (#[trigger] before[k]).0 <= i && (i <= before[k].1
                            || (k == before.len() - 1 && trace[n - 2].airborne()));
                    assert(seen[k].0 == before[k].0);
                }
                assert(seen_shape(trace, n));
            }
        } else {
            assert(seen == before);
            assert forall|i: int|
                0 <= i < n && #[trigger] trace[i].airborne() && seen.len() > 0 implies exists|
                k: int,
            |
                0 <= k < seen.len() && (#[trigger] seen[k]).0 <= i && (i <= seen[k].1 || (k
                    == seen.len() - 1 && trace[n - 1].airborne())) by {
                if i == n - 1 {
                    assert(seen[seen.len() - 1].0 <= i);
                } else {
                    let k = choose|k: int|
                        0 <= k < before.len() && (#[trigger] before[k]).0 <= i && (i <= before[k].1
                            || (k == before.len() - 1 && trace[n - 2].airborne()));
                    assert(seen[k] == before[k]);
                }
            }
            assert(seen_shape(trace, n));
        }
    }
}

/// The legs of a trace are its flights, each once and in the order flown:
/// every leg brackets a stretch of airborne samples as `is_flight` says, a
/// leg ends no later than the next one starts, and every airborne sample
/// lies within a leg.
pub proof fn lemma_legs_are_flights(trace: Seq<Position>)
    requires
        has_transition(trace),
    ensures
        spans(trace).len() > 0,
        lists_flights(trace, spans(trace)),
{
    let n = trace.len() as int;
    let t = choose|t: int|
        0 < t < trace.len() && #[trigger] trace[t].airborne() != trace[t - 1].airborne();
    lemma_transition_opens_leg(trace, n, t);
    lemma_seen_shape(trace, n);
    let seen = spans_upto(trace, n);
    let all = spans(trace);
    assert forall|k: int| 0 <= k < all.len() implies is_flight(
        trace,
        (#[trigger] all[k]).0,
        all[k].1,
    ) by {
        if k < seen.len() - 1 {
            assert(landed(trace, seen[k].0, seen[k].1));
        }
    }
    assert forall|i: int| 0 <= i < trace.len() && #[trigger] trace[i].airborne() implies exists|
        k: int,
    | 0 <= k < all.len() && (#[trigger] all[k]).0 <= i <= all[k].1 by {
        let k = choose|k: int|
            0 <= k < seen.len() && (#[trigger] seen[k]).0 <= i && (i <= seen[k].1 || (k
                == seen.len() - 1 && trace[n - 1].airborne()));
        assert(all[k].0 <= i <= all[k].1);
    }
}


/// Every flight of one list stands in the other, at the same index or later.
proof fn lemma_flight_found(
    trace: Seq<Position>,
    pairs: Seq<(int, int)>,
    others: Seq<(int, int)>,
    k: int,
) -> (j: int)
    requires
        has_transition(trace),
        lists_flights(trace, pairs),
        lists_flights(trace, others),
        0 <= k < pairs.len(),
    ensures
        k <= j < others.len(),
        others[j] == pairs[k],
    decreases k,
{
    let (from, to) = pairs[k];
    assert(is_flight(trace, from, to));
    let i = if trace[from].airborne() {
        from
    } else {
        from + 1
    };
    assert(trace[i].airborne());
    let j = choose|j: int| 0 <= j < others.len() && (#[trigger] others[j]).0 <= i <= others[j].1;
    let (other_from, other_to) = others[j];
    assert(is_flight(trace, other_from, other_to));
    assert(other_from == from) by {
        if other_from < from {
            assert(trace[from].airborne());
        }
    }
    assert(other_to == to) by {
        if to < other_to {
            assert(trace[to].airborne());
        }
        if other_to < to {
            assert(trace[other_to].airborne());
        }
    }
    if k > 0 {
        let before = lemma_flight_found(trace, pairs, others, k - 1);
        assert(pairs[k - 1].1 <= pairs[k].0);
        assert(is_flight(trace, pairs[k - 1].0, pairs[k - 1].1));
        if j <= before {
            if j < before {
                assert(others[j].1 <= others[before].0);
            }
        }
    }
    j
}

/// A trace has one list of flights, and `spans` is that list.
pub proof fn lemma_flights_determine_legs(trace: Seq<Position>, pairs: Seq<(int, int)>)
    requires
        has_transition(trace),
        lists_flights(trace, pairs),
    ensures
        pairs == spans(trace),
{
    lemma_legs_are_flights(trace);
    let legs = spans(trace);
    assert forall|k: int| 0 <= k < pairs.len() implies k < legs.len() && #[trigger] pairs[k]
        == legs[k] by {
        let j = lemma_flight_found(trace, pairs, legs, k);
        let back = lemma_flight_found(trace, legs, pairs, j);
        assert(is_flight(trace, pairs[k].0, pairs[k].1));
        if k < back {
            assert(pairs[k].1 <= pairs[back].0);
        }
    }
    if legs.len() > 0 {
        let j = lemma_flight_found(trace, legs, pairs, legs.len() - 1);
    }
    if pairs.len() > 0 {
        let j = lemma_flight_found(trace, pairs, legs, pairs.len() - 1);
    }
    assert(pairs =~= legs);
}

/// A sample that reports an altitude below the threshold is the same
/// position as one that the source marks as ground contact.
pub proof fn lemma_low_altitude_is_ground(first: i64, second: i64, feet: i64)
    requires
        feet < GROUND_THRESHOLD,
    ensures
        Position::of_sample(first, second, Altitude::Feet(feet)) == Position::of_sample(
            first,
            second,
            Altitude::Ground,
        ),
{
}

/// Where the legs of a trace start and end depends only on which samples
/// are airborne: two traces that agree on that have their legs at the same
/// indices.
pub proof fn lemma_spans_follow_state(trace: Seq<Position>, other: Seq<Position>)
    requires
        trace.len() == other.len(),
        forall|i: int| 0 <= i < trace.len() ==> trace[i].airborne() == other[i].airborne(),
    ensures
        spans(trace) == spans(other),
{
    lemma_spans_upto_follow_state(trace, other, trace.len() as int);
}

proof fn lemma_spans_upto_follow_state(trace: Seq<Position>, other: Seq<Position>, n: int)
    requires
        n <= trace.len() == other.len(),
        forall|i: int| 0 <= i < trace.len() ==> trace[i].airborne() == other[i].airborne(),
    ensures
        spans_upto(trace, n) == spans_upto(other, n),
    decreases n,
{
    if n > 1 {
        lemma_spans_upto_follow_state(trace, other, n - 1);
    }
}

/// Whether `legs` accepts the trace.
pub fn can_segment(positions: &[Position]) -> (r: bool)
    ensures
        r == segmentable(positions@),
{
    let n = positions.len();
    if n == 0 {
        return true;
    }
    let mut i: usize = 1;
    while i < n
        invariant
            1 <= i <= n,
            n == positions@.len(),
            forall|j: int| 0 < j < i ==> #[trigger] positions@[j].airborne() == positions@[j - 1].airborne(),
        decreases n - i,
    {
        if positions[i].is_flying() != positions[i - 1].is_flying() {
            return true;
        }
        i += 1;
    }
    false
}

/// The index pairs of a list of spans.
pub open spec fn span_views(spans: Seq<(usize, usize)>) -> Seq<(int, int)> {
    spans.map_values(|span: (usize, usize)| (span.0 as int, span.1 as int))
}

/// Cuts a chronologically ordered trace into its legs, and gives each leg as
/// the indices of the two samples at its ends, so that a caller who keeps
/// more of each sample than the position finds its records again.
///
/// A lift-off opens a leg at the last grounded sample; the next landing
/// closes it at the first grounded sample. A trace that starts in the air
/// has its first leg start at the first sample, one that ends in the air has
/// its last leg end at the last sample.
pub fn leg_spans(positions: &[Position]) -> (r: Vec<(usize, usize)>)
    requires
        segmentable(positions@),
    ensures
        span_views(r@) == spans(positions@),
        positions@.len() > 0 ==> r@.len() > 0 && lists_flights(positions@, span_views(r@)),
        forall|k: int| 0 <= k < r@.len() ==> (#[trigger] r@[k]).0 < r@[k].1 < positions@.len(),
{
    let n = positions.len();
    let mut found: Vec<(usize, usize)> = Vec::new();
    if n == 0 {
        assert(span_views(found@) =~= spans(positions@));
        return found;
    }
    let mut airborne = positions[0].is_flying();
    let mut i: usize = 1;
    assert(span_views(found@) =~= spans_upto(positions@, 1));
    while i < n
        invariant
            1 <= i <= n,
            n == positions@.len(),
            airborne == positions@[i - 1].airborne(),
            span_views(found@) == spans_upto(positions@, i as int),
        decreases n - i,
    {
        let ghost held = found@;
        let now_airborne = positions[i].is_flying();
        if !airborne && now_airborne {
            found.push((i - 1, i - 1));
            assert(span_views(found@) =~= span_views(held).push((i - 1, i - 1)));
        } else if airborne && !now_airborne {
            if found.len() == 0 {
                found.push((0, i));
                assert(span_views(found@) =~= seq![(0int, i as int)]);
            } else {
                let last = found.len() - 1;
                let from = found[last].0;
                assert(span_views(held)[last as int].0 == from);
                found.set(last, (from, i));
                assert(span_views(found@) =~= span_views(held).update(
                    last as int,
                    (from as int, i as int),
                ));
            }
        }
        airborne = now_airborne;
        i += 1;
    }
    proof {
        let t = choose|t: int|
            0 < t < positions@.len() && #[trigger] positions@[t].airborne() != positions@[t
                - 1].airborne();
        lemma_transition_opens_leg(positions@, n as int, t);
    }
    if airborne {
        let ghost held = found@;
        let last = found.len() - 1;
        let from = found[last].0;
        assert(span_views(held)[last as int].0 == from);
        found.set(last, (from, n - 1));
        assert(span_views(found@) =~= span_views(held).update(last as int, (from as int, n - 1)));
    }
    proof {
        lemma_legs_are_flights(positions@);
        assert forall|k: int| 0 <= k < found@.len() implies (#[trigger] found@[k]).0 < found@[k].1
            < positions@.len() by {
            assert(span_views(found@)[k] == spans(positions@)[k]);
            assert(is_flight(positions@, spans(positions@)[k].0, spans(positions@)[k].1));
        }
    }
    found
}

/// Cuts a chronologically ordered trace into its legs: for each leg, the
/// samples at its two ends, as `leg_spans` finds them.
pub fn legs(positions: &[Position]) -> (r: Vec<Leg>)
    requires
        segmentable(positions@),
    ensures
        r@ == legs_of(positions@),
{
    let found = leg_spans(positions);
    let mut legs: Vec<Leg> = Vec::new();
    let mut k: usize = 0;
    while k < found.len()
        invariant
            0 <= k <= found@.len(),
            span_views(found@) == spans(positions@),
            forall|j: int| 0 <= j < found@.len() ==> (#[trigger] found@[j]).0 < found@[j].1 < positions@.len(),
            legs@.len() == k,
            forall|j: int| 0 <= j < k ==> #[trigger] legs@[j] == legs_of(positions@)[j],
        decreases found@.len() - k,
    {
        let (from, to) = found[k];
        assert(span_views(found@)[k as int] == (from as int, to as int));
        legs.push(Leg { from: positions[from], to: positions[to] });
        k += 1;
    }
    assert(legs@ =~= legs_of(positions@));
    legs
}

} // verus!
