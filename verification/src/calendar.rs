use vstd::prelude::*;

verus! {

/// A calendar day, identified by its Julian day number.
pub type Day = i32;

/// The Julian day number of the first day that the calendar holds.
pub const MIN_DAY: Day = -1_930_999;

/// The Julian day number of the last day that the calendar holds.
pub const MAX_DAY: Day = 5_373_484;

/// The first year that the calendar holds.
pub const MIN_YEAR: i32 = -9999;

/// The last year that the calendar holds.
pub const MAX_YEAR: i32 = 9999;

/// The year and the month (1 to 12) of the calendar date with the given
/// Julian day number.
pub uninterp spec fn civil_month(day: int) -> (int, int);

/// The Julian day number of the first day of the given month.
pub uninterp spec fn month_start(year: int, month: int) -> int;

/// Whether `(year, month)` names a month of the calendar.
pub open spec fn is_month(year: int, month: int) -> bool {
    MIN_YEAR <= year <= MAX_YEAR && 1 <= month <= 12
}

/// The month after `(year, month)`.
pub open spec fn following(year: int, month: int) -> (int, int) {
    if month == 12 {
        (year + 1, 1)
    } else {
        (year, month + 1)
    }
}

/// A calendar month of a given year.
#[derive(Clone, Copy, Debug, PartialEq, Eq, Structural)]
pub struct YearMonth {
    year: i32,
    month: u8,
}

impl View for YearMonth {
    type V = (int, int);

    closed spec fn view(&self) -> (int, int) {
        (self.year as int, self.month as int)
    }
}

/// `time::Date::from_julian_day` followed by `Date::to_calendar_date`: the
/// year and the month of the date are what `civil_month` names. The year of a
/// `Date` lies between `MIN_YEAR` and `MAX_YEAR`, and a `time::Month` has the
/// numbers 1 to 12. The call fails outside `MIN_DAY..=MAX_DAY`, which the
/// precondition leaves out.
#[verifier::external_body]
fn calendar_month(day: Day) -> (r: (i32, u8))
    requires
        MIN_DAY <= day <= MAX_DAY,
    ensures
        (r.0 as int, r.1 as int) == civil_month(day as int),
        is_month(r.0 as int, r.1 as int),
{
    let (year, month, _) = time::Date::from_julian_day(day).unwrap().to_calendar_date();
    (year, u8::from(month))
}

/// `time::Date::from_calendar_date` with day 1, followed by
/// `Date::to_julian_day`: the result is what `month_start` names. With a
/// year between `MIN_YEAR` and `MAX_YEAR` and a month between 1 and 12 the
/// date exists.
#[verifier::external_body]
fn first_julian_day(year: i32, month: u8) -> (r: Day)
    requires
        is_month(year as int, month as int),
    ensures
        r as int == month_start(year as int, month as int),
{
    let month = time::Month::try_from(month).unwrap();
    time::Date::from_calendar_date(year, month, 1).unwrap().to_julian_day()
}

impl YearMonth {
    #[verifier::type_invariant]
    spec fn well_formed(self) -> bool {
        is_month(self.year as int, self.month as int)
    }

    /// Two months with the same year and number are the same month.
    pub proof fn lemma_view_injective(a: YearMonth, b: YearMonth)
        requires
            a@ == b@,
        ensures
            a == b,
    {
    }

    /// The month `(year, month)`, if the calendar holds it.
    pub fn new(year: i32, month: u8) -> (r: Option<YearMonth>)
        ensures
            r is Some <==> is_month(year as int, month as int),
            r matches Some(m) ==> m@ == (year as int, month as int),
    {
        if MIN_YEAR <= year && year <= MAX_YEAR && 1 <= month && month <= 12 {
            Some(YearMonth { year, month })
        } else {
            None
        }
    }

    /// The year of the month.
    pub fn year(&self) -> (r: i32)
        ensures
            r == self@.0,
            MIN_YEAR <= r <= MAX_YEAR,
    {
        proof {
            use_type_invariant(self);
        }
        self.year
    }

    /// The number of the month, from 1 for January to 12 for December.
    pub fn month(&self) -> (r: u8)
        ensures
            r == self@.1,
            1 <= r <= 12,
    {
        proof {
            use_type_invariant(self);
        }
        self.month
    }

    /// The month that holds the given day.
    pub fn of_day(day: Day) -> (r: YearMonth)
        requires
            MIN_DAY <= day <= MAX_DAY,
        ensures
            r@ == civil_month(day as int),
            is_month(r@.0, r@.1),
    {
        let (year, month) = calendar_month(day);
        YearMonth { year, month }
    }

    /// Whether this is the last month of the calendar, which has no next.
    pub fn is_last(&self) -> (r: bool)
        ensures
            r == (self@ == (MAX_YEAR as int, 12int)),
    {
        self.year == MAX_YEAR && self.month == 12
    }

    /// The month after this one: January of the next year after December.
    pub fn following_month(&self) -> (r: YearMonth)
        requires
            self@ != (MAX_YEAR as int, 12int),
        ensures
            r@ == following(self@.0, self@.1),
    {
        proof {
            use_type_invariant(self);
        }
        if self.month == 12 {
            YearMonth { year: self.year + 1, month: 1 }
        } else {
            YearMonth { year: self.year, month: self.month + 1 }
        }
    }

    /// The month after this one; none after the last month of the calendar.
    pub fn next(&self) -> (r: Option<YearMonth>)
        ensures
            r is Some <==> !(self@ == (MAX_YEAR as int, 12int)),
            r matches Some(m) ==> m@ == following(self@.0, self@.1),
    {
        if self.is_last() {
            None
        } else {
            Some(self.following_month())
        }
    }

    /// The first day of the month.
    pub fn first_day(&self) -> (r: Day)
        ensures
            r as int == month_start(self@.0, self@.1),
    {
        proof {
            use_type_invariant(self);
        }
        first_julian_day(self.year, self.month)
    }
}

/// The days of a month as a half-open range: its first day, and the first
/// day of the month after it.
pub fn get_month(current: &YearMonth) -> (r: (Day, Day))
    requires
        current@ != (MAX_YEAR as int, 12int),
    ensures
        r.0 as int == month_start(current@.0, current@.1),
        r.1 as int == month_start(
            following(current@.0, current@.1).0,
            following(current@.0, current@.1).1,
        ),
{
    (current.first_day(), current.following_month().first_day())
}

} // verus!
