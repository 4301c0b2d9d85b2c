use crate::cache::CacheAction;
use crate::calendar::{civil_month, following, get_month, month_start, Day, YearMonth, MAX_DAY, MAX_YEAR, MIN_DAY};
use crate::key::{blob_name, blob_name_to_pk, key_of, pk_to_blob_name};
use std::collections::HashMap;
use vstd::prelude::*;

verus! {

broadcast use vstd::std_specs::hash::group_hash_axioms;

/// The months of a list, each as its year and number.
pub open spec fn month_views(months: Seq<YearMonth>) -> Seq<(int, int)> {
    months.map_values(|m: YearMonth| m@)
}

/// The months that hold the days from `from` up to, not including, `to`:
/// each once, in the order in which the days first reach them.
pub open spec fn months_touched(from: int, to: int) -> Seq<(int, int)>
    decreases to - from,
{
    if to <= from {
        Seq::empty()
    } else {
        let before = months_touched(from, to - 1);
        let month = civil_month(to - 1);
        if before.contains(month) {
            before
        } else {
            before.push(month)
        }
    }
}

/// No month is listed twice.
pub proof fn lemma_months_touched_distinct(from: int, to: int)
    ensures
        months_touched(from, to).no_duplicates(),
    decreases to - from,
{
    if from < to {
        lemma_months_touched_distinct(from, to - 1);
    }
}

/// The month of every day of the range is listed.
pub proof fn lemma_months_touched_complete(from: int, to: int, day: int)
    requires
        from <= day < to,
    ensures
        months_touched(from, to).contains(civil_month(day)),
    decreases to - from,
{
    let before = months_touched(from, to - 1);
    if day < to - 1 {
        lemma_months_touched_complete(from, to - 1, day);
        let i = choose|i: int| 0 <= i < before.len() && before[i] == civil_month(day);
        assert(months_touched(from, to)[i] == civil_month(day));
    } else if before.contains(civil_month(day)) {
    } else {
        assert(months_touched(from, to)[before.len() as int] == civil_month(day));
    }
}

/// Every month listed holds a day of the range.
pub proof fn lemma_months_touched_sound(from: int, to: int, i: int)
    requires
        0 <= i < months_touched(from, to).len(),
    ensures
        exists|day: int| from <= day < to && #[trigger] civil_month(day) == months_touched(from, to)[i],
    decreases to - from,
{
    let before = months_touched(from, to - 1);
    if i < before.len() {
        lemma_months_touched_sound(from, to - 1, i);
        let day = choose|day: int|
            from <= day < to - 1 && #[trigger] civil_month(day) == before[i];
        assert(from <= day < to && civil_month(day) == months_touched(from, to)[i]);
    } else {
        assert(civil_month(to - 1) == months_touched(from, to)[i]);
    }
}

/// A range of one or more days that all lie in one month touches that month
/// alone, however many days it has.
pub proof fn lemma_one_month_one_fetch(from: int, to: int, month: (int, int))
    requires
        from < to,
        forall|day: int| from <= day < to ==> #[trigger] civil_month(day) == month,
    ensures
        months_touched(from, to) == seq![month],
    decreases to - from,
{
    if from < to - 1 {
        lemma_one_month_one_fetch(from, to - 1, month);
        assert(seq![month][0] == month);
    } else {
        assert(months_touched(from, to - 1) =~= Seq::<(int, int)>::empty());
        assert(civil_month(to - 1) == month);
    }
    assert(months_touched(from, to) =~= seq![month]);
}

/// Adds a month to a list unless the list holds it.
pub fn push_month(months: &mut Vec<YearMonth>, month: YearMonth)
    ensures
        month_views(old(months)@).contains(month@) ==> final(months)@ == old(months)@,
        !month_views(old(months)@).contains(month@) ==> final(months)@ == old(months)@.push(month),
{
    let n = months.len();
    let mut i: usize = 0;
    while i < n
        invariant
            0 <= i <= n,
            n == months@.len(),
            months@ == old(months)@,
            forall|j: int| 0 <= j < i ==> (#[trigger] months@[j])@ != month@,
        decreases n - i,
    {
        if months[i] == month {
            assert(month_views(months@)[i as int] == month@);
            return ;
        }
        proof {
            if months@[i as int]@ == month@ {
                YearMonth::lemma_view_injective(months@[i as int], month);
            }
        }
        i += 1;
    }
    proof {
        if month_views(months@).contains(month@) {
            let j = choose|j: int|
                0 <= j < month_views(months@).len() && month_views(months@)[j] == month@;
            assert(months@[j]@ == month@);
        }
    }
    months.push(month);
}

/// The months that a range of days touches, each once: one bucket to
/// resolve for each.
pub fn months_in_range(from: Day, to: Day) -> (r: Vec<YearMonth>)
    requires
        from < to ==> MIN_DAY <= from && to <= MAX_DAY + 1,
    ensures
        month_views(r@) == months_touched(from as int, to as int),
{
    let mut months: Vec<YearMonth> = Vec::new();
    if to <= from {
        assert(month_views(months@) =~= months_touched(from as int, to as int));
        return months;
    }
    let mut day = from;
    assert(month_views(months@) =~= months_touched(from as int, day as int));
    while day < to
        invariant
            MIN_DAY <= from <= day <= to <= MAX_DAY + 1,
            month_views(months@) == months_touched(from as int, day as int),
        decreases to - day,
    {
        let month = YearMonth::of_day(day);
        let ghost before = months@;
        push_month(&mut months, month);
        day += 1;
        assert(month_views(months@) =~= months_touched(from as int, day as int));
    }
    months
}

/// What a list of month buckets holds: for each bucket, what it has for
/// each of its days.
pub open spec fn bucket_views<V>(buckets: Seq<HashMap<Day, V>>) -> Seq<Map<Day, V>> {
    buckets.map_values(|bucket: HashMap<Day, V>| bucket@)
}

/// All buckets as one mapping. Where two buckets hold the same day, the
/// later one in the list decides.
pub open spec fn merged<V>(buckets: Seq<Map<Day, V>>) -> Map<Day, V>
    decreases buckets.len(),
{
    if buckets.len() == 0 {
        Map::empty()
    } else {
        merged(buckets.drop_last()).union_prefer_right(buckets.last())
    }
}

/// Every day from `from` up to, not including, `to` is in some bucket.
pub open spec fn covered<V>(from: Day, to: Day, buckets: Seq<Map<Day, V>>) -> bool {
    forall|day: Day| from <= day < to ==> #[trigger] merged(buckets).contains_key(day)
}

/// A day is in the merged mapping exactly if some bucket holds it.
pub proof fn lemma_merged_contains<V>(buckets: Seq<Map<Day, V>>, day: Day)
    ensures
        merged(buckets).contains_key(day) <==> exists|b: int|
            0 <= b < buckets.len() && (#[trigger] buckets[b]).contains_key(day),
    decreases buckets.len(),
{
    if buckets.len() > 0 {
        let front = buckets.drop_last();
        lemma_merged_contains(front, day);
        if merged(buckets).contains_key(day) {
            if buckets.last().contains_key(day) {
                assert(buckets[buckets.len() - 1].contains_key(day));
            } else {
                let b = choose|b: int| 0 <= b < front.len() && (#[trigger] front[b]).contains_key(day);
                assert(buckets[b].contains_key(day));
            }
        }
        if exists|b: int| 0 <= b < buckets.len() && (#[trigger] buckets[b]).contains_key(day) {
            let b = choose|b: int| 0 <= b < buckets.len() && (#[trigger] buckets[b]).contains_key(day);
            if b < front.len() {
                assert(front[b].contains_key(day));
            }
        }
    }
}

/// The merged mapping gives a day what the last bucket that holds it gives.
pub proof fn lemma_merged_takes_last<V>(buckets: Seq<Map<Day, V>>, day: Day, b: int)
    requires
        0 <= b < buckets.len(),
        buckets[b].contains_key(day),
        forall|later: int| b < later < buckets.len() ==> !(#[trigger] buckets[later]).contains_key(day),
    ensures
        merged(buckets).contains_key(day),
        merged(buckets)[day] == buckets[b][day],
    decreases buckets.len(),
{
    if b < buckets.len() - 1 {
        let front = buckets.drop_last();
        assert(!buckets[buckets.len() - 1].contains_key(day));
        assert forall|later: int| b < later < front.len() implies !(#[trigger] front[later]).contains_key(day) by {
            assert(front[later] == buckets[later]);
        }
        lemma_merged_takes_last(front, day, b);
    }
}

/// Buckets for the months that a range touches cover the range, if each
/// holds the days of its month that lie in the range.
pub proof fn lemma_touched_months_cover<V>(from: Day, to: Day, buckets: Seq<Map<Day, V>>)
    requires
        buckets.len() == months_touched(from as int, to as int).len(),
        forall|i: int, day: Day|
            0 <= i < buckets.len() && from <= day < to && civil_month(day as int) == months_touched(
                from as int,
                to as int,
            )[i] ==> #[trigger] buckets[i].contains_key(day),
    ensures
        covered(from, to, buckets),
{
    let months = months_touched(from as int, to as int);
    assert forall|day: Day| from <= day < to implies #[trigger] merged(buckets).contains_key(day) by {
        lemma_months_touched_complete(from as int, to as int, day as int);
        let i = choose|i: int| 0 <= i < months.len() && months[i] == civil_month(day as int);
        assert(buckets[i].contains_key(day));
        lemma_merged_contains(buckets, day);
    }
}

/// Whether the buckets hold every day of the range, as `aircraft_positions`
/// needs.
pub fn covers<V>(from: Day, to: Day, buckets: &Vec<HashMap<Day, V>>) -> (r: bool)
    ensures
        r == covered(from, to, bucket_views(buckets@)),
{
    let ghost views = bucket_views(buckets@);
    let mut day = from;
    while day < to
        invariant
            from <= day,
            views == bucket_views(buckets@),
            forall|d: Day| from <= d < day ==> #[trigger] merged(views).contains_key(d),
        decreases to - day,
    {
        let mut found = false;
        let mut b: usize = 0;
        while b < buckets.len() && !found
            invariant
                0 <= b <= buckets@.len(),
                views == bucket_views(buckets@),
                found ==> merged(views).contains_key(day),
                !found ==> forall|j: int| 0 <= j < b ==> !(#[trigger] views[j]).contains_key(day),
            decreases buckets@.len() - b + (if found { 0int } else { 1int }),
        {
            if buckets[b].contains_key(&day) {
                found = true;
                proof {
                    assert(views[b as int].contains_key(day));
                    lemma_merged_contains(views, day);
                }
            } else {
                assert(!views[b as int].contains_key(day));
                b += 1;
            }
        }
        if !found {
            proof {
                lemma_merged_contains(views, day);
            }
            return false;
        }
        day += 1;
    }
    true
}

/// Assembles what is known of an aircraft for each day of a range from the
/// month buckets that were resolved for it.
///
/// The result has one entry for each day from `from` up to, not including,
/// `to`, and no other; each day has what the buckets give it (for a list of
/// positions, an empty list where the bucket holds one). The entry of a day
/// is moved out of its bucket, not copied.
pub fn aircraft_positions<V>(from: Day, to: Day, buckets: Vec<HashMap<Day, V>>) -> (r: HashMap<
    Day,
    V,
>)
    requires
        covered(from, to, bucket_views(buckets@)),
    ensures
        forall|day: Day| r@.contains_key(day) <==> from <= day < to,
        forall|day: Day|
            from <= day < to ==> #[trigger] r@[day] == merged(bucket_views(buckets@))[day],
{
    let ghost views = bucket_views(buckets@);
    let mut buckets = buckets;
    let mut positions: HashMap<Day, V> = HashMap::new();
    let mut day = from;
    while day < to
        invariant
            from <= day,
            day <= to || day == from,
            covered(from, to, views),
            buckets@.len() == views.len(),
            forall|b: int, d: Day|
                0 <= b < views.len() && day <= d ==> (#[trigger] bucket_views(buckets@)[b].contains_key(d)
                    <==> views[b].contains_key(d)),
            forall|b: int, d: Day|
                0 <= b < views.len() && day <= d && views[b].contains_key(d) ==> #[trigger] bucket_views(
                    buckets@,
                )[b][d] == views[b][d],
            forall|d: Day| positions@.contains_key(d) <==> from <= d < day,
            forall|d: Day| from <= d < day ==> #[trigger] positions@[d] == merged(views)[d],
        decreases to - day,
    {
        let mut b: usize = buckets.len();
        let mut found = false;
        assert(merged(views).contains_key(day));
        proof {
            lemma_merged_contains(views, day);
        }
        while b > 0 && !found
            invariant
                0 <= b <= buckets@.len(),
                from <= day < to,
                buckets@.len() == views.len(),
                !found ==> forall|later: int|
                    b <= later < views.len() ==> !(#[trigger] views[later]).contains_key(day),
                !found ==> exists|j: int| 0 <= j < views.len() && (#[trigger] views[j]).contains_key(day),
                !found ==> forall|j: int, d: Day|
                    0 <= j < views.len() && day <= d ==> (#[trigger] bucket_views(buckets@)[j].contains_key(d)
                        <==> views[j].contains_key(d)),
                !found ==> forall|j: int, d: Day|
                    0 <= j < views.len() && day <= d && views[j].contains_key(d)
                        ==> #[trigger] bucket_views(buckets@)[j][d] == views[j][d],
                found ==> forall|j: int, d: Day|
                    0 <= j < views.len() && day < d ==> (#[trigger] bucket_views(buckets@)[j].contains_key(d)
                        <==> views[j].contains_key(d)),
                found ==> forall|j: int, d: Day|
                    0 <= j < views.len() && day < d && views[j].contains_key(d)
                        ==> #[trigger] bucket_views(buckets@)[j][d] == views[j][d],
                forall|d: Day| positions@.contains_key(d) <==> (from <= d < day || (found && d == day)),
                forall|d: Day|
                    (from <= d < day || (found && d == day)) ==> #[trigger] positions@[d] == merged(
                        views,
                    )[d],
            decreases b + (if found { 0int } else { 1int }),
        {
            let ghost held = buckets@;
            let ghost index = b - 1;
            assert(bucket_views(held)[index].contains_key(day) <==> views[index].contains_key(day));
            let taken = buckets[b - 1].remove(&day);
            proof {
                assert(buckets@.len() == held.len());
                assert forall|j: int| 0 <= j < held.len() && j != index implies buckets@[j] == held[j] by {}
                assert(buckets@[index]@ == held[index]@.remove(day));
                assert forall|j: int, d: Day| 0 <= j < views.len() && day < d implies (
                #[trigger] bucket_views(buckets@)[j].contains_key(d) <==> views[j].contains_key(d)) by {
                    assert(bucket_views(held)[j].contains_key(d) <==> views[j].contains_key(d));
                }
                assert forall|j: int, d: Day|
                    0 <= j < views.len() && day < d && views[j].contains_key(
                        d,
                    ) implies #[trigger] bucket_views(buckets@)[j][d] == views[j][d] by {
                    assert(bucket_views(held)[j].contains_key(d));
                    assert(bucket_views(held)[j][d] == views[j][d]);
                }
            }
            match taken {
                Some(entry) => {
                    proof {
                        assert(held[index]@.contains_key(day));
                        assert(bucket_views(held)[index][day] == entry);
                        assert(views[index].contains_key(day));
                        lemma_merged_takes_last(views, day, index);
                    }
                    positions.insert(day, entry);
                    found = true;
                },
                None => {
                    proof {
                        assert(!held[index]@.contains_key(day));
                        assert(!views[index].contains_key(day));
                        assert(buckets@[index]@ =~= held[index]@);
                        assert forall|j: int, d: Day| 0 <= j < views.len() && day <= d implies (
                        #[trigger] bucket_views(buckets@)[j].contains_key(d) <==> views[j].contains_key(
                            d,
                        )) by {
                            assert(bucket_views(held)[j].contains_key(d) <==> views[j].contains_key(d));
                        }
                        assert forall|j: int, d: Day|
                            0 <= j < views.len() && day <= d && views[j].contains_key(
                                d,
                            ) implies #[trigger] bucket_views(buckets@)[j][d] == views[j][d] by {
                            assert(bucket_views(held)[j].contains_key(d));
                            assert(bucket_views(held)[j][d] == views[j][d]);
                        }
                    }
                    b -= 1;
                },
            }
        }
        assert(found) by {
            if !found {
                let j = choose|j: int| 0 <= j < views.len() && (#[trigger] views[j]).contains_key(day);
                assert(!views[j].contains_key(day));
            }
        }
        day += 1;
    }
    positions
}

/// What resolving the bucket of one aircraft and one month takes.
#[derive(Debug, PartialEq, Eq)]
pub struct MonthRequest {
    /// The storage key of the bucket.
    pub key: String,
    /// The first day of the month.
    pub from: Day,
    /// The first day after the month.
    pub to: Day,
    /// Whether the bucket can still change.
    pub action: CacheAction,
}

/// Plans the resolution of the bucket of one aircraft and one month, seen on
/// the day `today`: the key under which the bucket is cached, the days that
/// a miss has to fetch (every day of the month, whatever part of it was
/// asked for), and the policy of the bucket.
pub fn month_positions(month: &YearMonth, icao_number: &str, today: Day) -> (r: MonthRequest)
    requires
        month@ != (MAX_YEAR as int, 12int),
    ensures
        r.key@ == blob_name(icao_number@, month@.0, month@.1),
        r.from as int == month_start(month@.0, month@.1),
        r.to as int == month_start(
            following(month@.0, month@.1).0,
            following(month@.0, month@.1).1,
        ),
        r.action == CacheAction::policy(r.to as int, today as int),
{
    let key = pk_to_blob_name(icao_number, month);
    let (from, to) = get_month(month);
    let action = CacheAction::from_date(to, today);
    MonthRequest { key, from, to, action }
}

/// The characters of each string of a list.
pub open spec fn name_views(names: Seq<String>) -> Seq<Seq<char>> {
    names.map_values(|name: String| name@)
}

/// The aircraft and the month of each key of a list.
pub open spec fn key_views(keys: Seq<(String, YearMonth)>) -> Seq<(Seq<char>, (int, int))> {
    keys.map_values(|key: (String, YearMonth)| (key.0@, key.1@))
}

/// The buckets that a list of storage keys names, in the order of the list;
/// a string that is the key of no bucket is passed over.
pub open spec fn buckets_named(names: Seq<Seq<char>>) -> Seq<(Seq<char>, (int, int))>
    decreases names.len(),
{
    if names.len() == 0 {
        Seq::empty()
    } else {
        let before = buckets_named(names.drop_last());
        match key_of(names.last()) {
            Some(key) => before.push(key),
            None => before,
        }
    }
}

/// The pages of a listing, one after the other.
pub open spec fn joined(pages: Seq<Seq<(Seq<char>, (int, int))>>) -> Seq<(Seq<char>, (int, int))>
    decreases pages.len(),
{
    if pages.len() == 0 {
        Seq::empty()
    } else {
        joined(pages.drop_last()) + pages.last()
    }
}

/// What each page of a list holds.
pub open spec fn page_views(pages: Seq<Vec<(String, YearMonth)>>) -> Seq<
    Seq<(Seq<char>, (int, int))>,
> {
    pages.map_values(|page: Vec<(String, YearMonth)>| key_views(page@))
}

/// The items of a list, each once, in the order in which they first occur.
pub open spec fn distinct(items: Seq<(Seq<char>, (int, int))>) -> Seq<(Seq<char>, (int, int))>
    decreases items.len(),
{
    if items.len() == 0 {
        Seq::empty()
    } else {
        let before = distinct(items.drop_last());
        if before.contains(items.last()) {
            before
        } else {
            before.push(items.last())
        }
    }
}

/// `distinct` holds nothing twice, and holds exactly what the list holds.
pub proof fn lemma_distinct(items: Seq<(Seq<char>, (int, int))>)
    ensures
        distinct(items).no_duplicates(),
        forall|item: (Seq<char>, (int, int))|
            #[trigger] distinct(items).contains(item) <==> items.contains(item),
    decreases items.len(),
{
    if items.len() > 0 {
        let front = items.drop_last();
        let before = distinct(front);
        lemma_distinct(front);
        assert forall|item: (Seq<char>, (int, int))| #[trigger]
            distinct(items).contains(item) <==> items.contains(item) by {
            if items.contains(item) {
                let i = choose|i: int| 0 <= i < items.len() && items[i] == item;
                if i < front.len() {
                    assert(front[i] == item);
                    assert(before.contains(item));
                    let j = choose|j: int| 0 <= j < before.len() && before[j] == item;
                    assert(distinct(items)[j] == item);
                } else if before.contains(item) {
                } else {
                    assert(distinct(items)[before.len() as int] == item);
                }
            }
            if distinct(items).contains(item) {
                let j = choose|j: int| 0 <= j < distinct(items).len() && distinct(items)[j] == item;
                if j < before.len() {
                    assert(before[j] == item);
                    assert(before.contains(item));
                    let i = choose|i: int| 0 <= i < front.len() && front[i] == item;
                    assert(items[i] == item);
                } else {
                    assert(items[items.len() - 1] == item);
                }
            }
        }
    }
}

/// Maps one page of a storage listing to the buckets that it names. A name
/// that is the key of no bucket (a directory marker, an object of another
/// kind) is passed over.
pub fn existing_months_positions_future(names: &Vec<String>) -> (r: Vec<(String, YearMonth)>)
    ensures
        key_views(r@) == buckets_named(name_views(names@)),
{
    let mut keys: Vec<(String, YearMonth)> = Vec::new();
    let n = names.len();
    let mut i: usize = 0;
    assert(name_views(names@).take(0) =~= Seq::<Seq<char>>::empty());
    assert(key_views(keys@) =~= buckets_named(name_views(names@).take(0)));
    while i < n
        invariant
            0 <= i <= n,
            n == names@.len(),
            key_views(keys@) == buckets_named(name_views(names@).take(i as int)),
        decreases n - i,
    {
        let ghost seen = name_views(names@).take(i as int);
        let ghost next = name_views(names@).take(i + 1);
        assert(next.drop_last() =~= seen);
        assert(next.last() == names@[i as int]@);
        let ghost held = keys@;
        match blob_name_to_pk(names[i].as_str()) {
            Some(key) => {
                keys.push(key);
                assert(key_views(keys@) =~= key_views(held).push((key.0@, key.1@)));
            },
            None => {},
        }
        i += 1;
    }
    assert(name_views(names@).take(n as int) =~= name_views(names@));
    keys
}

/// Whether a list of keys holds a given one.
fn holds_key(keys: &Vec<(String, YearMonth)>, key: &(String, YearMonth)) -> (r: bool)
    ensures
        r == key_views(keys@).contains((key.0@, key.1@)),
{
    let n = keys.len();
    let mut i: usize = 0;
    while i < n
        invariant
            0 <= i <= n,
            n == keys@.len(),
            forall|j: int| 0 <= j < i ==> key_views(keys@)[j] != (key.0@, key.1@),
        decreases n - i,
    {
        if keys[i].0 == key.0 && keys[i].1 == key.1 {
            assert(key_views(keys@)[i as int] == (key.0@, key.1@));
            return true;
        }
        proof {
            if keys@[i as int].1@ == key.1@ {
                YearMonth::lemma_view_injective(keys@[i as int].1, key.1);
            }
        }
        i += 1;
    }
    false
}

/// Gathers the buckets that the pages of one or more listings name into one
/// list that holds each bucket once.
pub fn existing_months_positions(pages: &Vec<Vec<(String, YearMonth)>>) -> (r: Vec<
    (String, YearMonth),
>)
    ensures
        key_views(r@) == distinct(joined(page_views(pages@))),
{
    let ghost all = page_views(pages@);
    let mut keys: Vec<(String, YearMonth)> = Vec::new();
    let n = pages.len();
    let mut p: usize = 0;
    assert(all.take(0) =~= Seq::<Seq<(Seq<char>, (int, int))>>::empty());
    assert(key_views(keys@) =~= distinct(joined(all.take(0))));
    while p < n
        invariant
            0 <= p <= n,
            n == pages@.len(),
            all == page_views(pages@),
            key_views(keys@) == distinct(joined(all.take(p as int))),
        decreases n - p,
    {
        let page = &pages[p];
        let m = page.len();
        let ghost done = joined(all.take(p as int));
        let ghost items = key_views(page@);
        assert(all[p as int] == items);
        let mut i: usize = 0;
        assert(done + items.take(0) =~= done);
        while i < m
            invariant
                0 <= i <= m,
                m == page@.len(),
                items == key_views(page@),
                key_views(keys@) == distinct(done + items.take(i as int)),
            decreases m - i,
        {
            let ghost seen = done + items.take(i as int);
            let ghost next = done + items.take(i + 1);
            assert(next.drop_last() =~= seen);
            assert(next.last() == items[i as int]);
            let ghost held = keys@;
            if !holds_key(&keys, &page[i]) {
                let key = (page[i].0.clone(), page[i].1);
                keys.push(key);
                assert(key_views(keys@) =~= key_views(held).push(items[i as int]));
            }
            i += 1;
        }
        proof {
            assert(items.take(m as int) =~= items);
            assert(all.take(p + 1).drop_last() =~= all.take(p as int));
            assert(all.take(p + 1).last() == items);
        }
        p += 1;
    }
    assert(all.take(n as int) =~= all);
    keys
}

} // verus!
