use crate::calendar::{is_month, YearMonth};
use vstd::prelude::*;
use vstd::string::*;

verus! {

/// Whether a character is one of the ten decimal digits.
pub open spec fn is_digit(c: char) -> bool {
    '0' <= c <= '9'
}

/// The character of a digit from 0 to 9.
pub open spec fn digit(d: int) -> char {
    ('0' as int + d) as char
}

/// The number that a digit character stands for.
pub open spec fn digit_value(c: char) -> int {
    c as int - '0' as int
}

/// A natural number in decimal, without leading zeros.
pub open spec fn decimal(n: nat) -> Seq<char>
    decreases n,
{
    if n < 10 {
        seq![digit(n as int)]
    } else {
        decimal(n / 10).push(digit((n % 10) as int))
    }
}

/// A year as it stands in a key: in decimal, with a minus sign before a
/// negative one.
pub open spec fn year_text(year: int) -> Seq<char> {
    if year < 0 {
        seq!['-'] + decimal((-year) as nat)
    } else {
        decimal(year as nat)
    }
}

/// The number of a month in two digits.
pub open spec fn two_digits(month: int) -> Seq<char> {
    seq![digit(month / 10), digit(month % 10)]
}

/// The prefix that the keys of all buckets of one month share.
pub open spec fn month_prefix_of(year: int, month: int) -> Seq<char> {
    "database/globe_history/"@ + year_text(year) + seq!['-'] + two_digits(month)
}

/// The storage key of the bucket of one aircraft and one month.
pub open spec fn blob_name(icao: Seq<char>, year: int, month: int) -> Seq<char> {
    month_prefix_of(year, month) + "/trace_full_"@ + icao + ".json"@
}

/// The aircraft and the month that a storage key names, if it is the key of
/// a bucket.
pub open spec fn key_of(blob: Seq<char>) -> Option<(Seq<char>, (int, int))> {
    if exists|icao: Seq<char>, year: int, month: int|
        is_month(year, month) && blob == #[trigger] blob_name(icao, year, month) {
        let (icao, year, month) = choose|icao: Seq<char>, year: int, month: int|
            is_month(year, month) && blob == #[trigger] blob_name(icao, year, month);
        Some((icao, (year, month)))
    } else {
        None
    }
}

/// What a decoded key holds.
pub open spec fn key_view(key: Option<(String, YearMonth)>) -> Option<(Seq<char>, (int, int))> {
    match key {
        Some((icao, month)) => Some((icao@, month@)),
        None => None,
    }
}

/// Whether `part` stands in `s` at index `at`.
spec fn has_at(s: Seq<char>, at: int, part: Seq<char>) -> bool {
    0 <= at && at + part.len() <= s.len() && s.subrange(at, at + part.len()) == part
}

/// The number of digits that stand in `s` from index `from` on, up to the
/// first character that is none.
spec fn digit_run(s: Seq<char>, from: int) -> int
    decreases s.len() - from,
{
    if 0 <= from < s.len() && is_digit(s[from]) {
        1 + digit_run(s, from + 1)
    } else {
        0
    }
}

/// The number that a sequence of digits denotes.
spec fn number(s: Seq<char>) -> int
    decreases s.len(),
{
    if s.len() == 0 {
        0
    } else {
        number(s.drop_last()) * 10 + digit_value(s.last())
    }
}

/// Reads a key from the left: the year, the month, and the index at which
/// the aircraft's name starts. It accepts every key of a bucket, and some
/// strings that are none.
spec fn scan(s: Seq<char>) -> Option<(int, int, int)> {
    let head = "database/globe_history/"@;
    let mid = "/trace_full_"@;
    let tail = ".json"@;
    let a = head.len() as int;
    let negative = a < s.len() && s[a] == '-';
    let b = if negative {
        a + 1
    } else {
        a
    };
    let k = digit_run(s, b);
    let c = b + k;
    let e = c + 3 + mid.len();
    if has_at(s, 0, head) && 1 <= k <= 4 && c + 3 <= s.len() && s[c] == '-' && is_digit(s[c + 1])
        && is_digit(s[c + 2]) && has_at(s, c + 3, mid) && e + tail.len() <= s.len() && has_at(
        s,
        s.len() - tail.len(),
        tail,
    ) {
        let magnitude = number(s.subrange(b, c));
        Some(
            (
                if negative {
                    -magnitude
                } else {
                    magnitude
                },
                digit_value(s[c + 1]) * 10 + digit_value(s[c + 2]),
                e,
            ),
        )
    } else {
        None
    }
}

proof fn lemma_decimal(n: nat)
    ensures
        decimal(n).len() >= 1,
        n < 10 ==> decimal(n).len() == 1,
        10 <= n < 100 ==> decimal(n).len() == 2,
        100 <= n < 1000 ==> decimal(n).len() == 3,
        1000 <= n < 10000 ==> decimal(n).len() == 4,
        forall|i: int| 0 <= i < decimal(n).len() ==> is_digit(#[trigger] decimal(n)[i]),
        number(decimal(n)) == n,
    decreases n,
{
    if n < 10 {
        assert(decimal(n).drop_last() =~= Seq::<char>::empty());
        assert(number(decimal(n).drop_last()) == 0);
    } else {
        lemma_decimal(n / 10);
        assert(decimal(n).drop_last() =~= decimal(n / 10));
    }
}

proof fn lemma_digit_run(s: Seq<char>, from: int, upto: int)
    requires
        0 <= from <= upto <= s.len(),
        forall|j: int| from <= j < upto ==> is_digit(#[trigger] s[j]),
    ensures
        digit_run(s, from) == (upto - from) + digit_run(s, upto),
    decreases upto - from,
{
    if from < upto {
        lemma_digit_run(s, from + 1, upto);
    }
}

/// `scan` reads from the key of a bucket what the key was made of.
proof fn lemma_scan_blob_name(icao: Seq<char>, year: int, month: int)
    requires
        is_month(year, month),
    ensures
        scan(blob_name(icao, year, month)) matches Some((y, m, e)) && y == year && m == month && 0
            <= e <= blob_name(icao, year, month).len() - 5 && blob_name(icao, year, month).subrange(
            e,
            blob_name(icao, year, month).len() - 5,
        ) == icao,
{
    reveal_strlit("database/globe_history/");
    reveal_strlit("/trace_full_");
    reveal_strlit(".json");
    let head = "database/globe_history/"@;
    let mid = "/trace_full_"@;
    let tail = ".json"@;
    let s = blob_name(icao, year, month);
    let magnitude: nat = if year < 0 {
        (-year) as nat
    } else {
        year as nat
    };
    let digits = decimal(magnitude);
    lemma_decimal(magnitude);
    let a = head.len() as int;
    let b = if year < 0 {
        a + 1
    } else {
        a
    };
    let c = b + digits.len();
    let e = c + 3 + mid.len();
    assert(s.len() == e + icao.len() + tail.len());
    assert(s.subrange(0, a) =~= head);
    assert(forall|j: int| 0 <= j < digits.len() ==> s[b + j] == digits[j]);
    assert(is_digit(digits[0]));
    assert(year < 0 ==> s[a] == '-');
    assert(year >= 0 ==> s[a] == digits[0]);
    assert(s[c] == '-');
    assert forall|j: int| b <= j < c implies is_digit(#[trigger] s[j]) by {
        assert(s[j] == digits[j - b]);
    }
    lemma_digit_run(s, b, c);
    assert(digit_run(s, c) == 0);
    assert(s.subrange(b, c) =~= digits);
    assert(s[c + 1] == digit(month / 10));
    assert(s[c + 2] == digit(month % 10));
    assert(s.subrange(c + 3, c + 3 + mid.len()) =~= mid);
    assert(s.subrange(s.len() - tail.len(), s.len() as int) =~= tail);
    assert(s.subrange(e, s.len() - 5) =~= icao);
}

/// Decoding the key of a bucket gives back the aircraft and the month that
/// the key was made of.
pub proof fn lemma_key_round_trip(icao: Seq<char>, year: int, month: int)
    requires
        is_month(year, month),
    ensures
        key_of(blob_name(icao, year, month)) == Some((icao, (year, month))),
{
    let blob = blob_name(icao, year, month);
    let (i, y, m) = choose|i: Seq<char>, y: int, m: int|
        is_month(y, m) && blob == #[trigger] blob_name(i, y, m);
    lemma_scan_blob_name(icao, year, month);
    lemma_scan_blob_name(i, y, m);
}

/// No two buckets share a key.
pub proof fn lemma_blob_name_injective(
    icao: Seq<char>,
    year: int,
    month: int,
    other_icao: Seq<char>,
    other_year: int,
    other_month: int,
)
    requires
        is_month(year, month),
        is_month(other_year, other_month),
        blob_name(icao, year, month) == blob_name(other_icao, other_year, other_month),
    ensures
        icao == other_icao,
        year == other_year,
        month == other_month,
{
    lemma_scan_blob_name(icao, year, month);
    lemma_scan_blob_name(other_icao, other_year, other_month);
}

/// The key of every bucket of a month starts with the prefix of that month.
pub proof fn lemma_blob_name_has_prefix(icao: Seq<char>, year: int, month: int)
    ensures
        month_prefix_of(year, month).is_prefix_of(blob_name(icao, year, month)),
{
    let prefix = month_prefix_of(year, month);
    assert(blob_name(icao, year, month).subrange(0, prefix.len() as int) =~= prefix);
}

fn digit_str(d: u8) -> (r: &'static str)
    requires
        d <= 9,
    ensures
        r@ == seq![digit(d as int)],
{
    proof {
        reveal_strlit("0");
        reveal_strlit("1");
        reveal_strlit("2");
        reveal_strlit("3");
        reveal_strlit("4");
        reveal_strlit("5");
        reveal_strlit("6");
        reveal_strlit("7");
        reveal_strlit("8");
        reveal_strlit("9");
    }
    let r = match d {
        0 => "0",
        1 => "1",
        2 => "2",
        3 => "3",
        4 => "4",
        5 => "5",
        6 => "6",
        7 => "7",
        8 => "8",
        _ => "9",
    };
    assert(r@ =~= seq![digit(d as int)]);
    r
}

fn append_decimal(text: &mut String, n: u32)
    ensures
        final(text)@ == old(text)@ + decimal(n as nat),
    decreases n,
{
    if n >= 10 {
        append_decimal(text, n / 10);
    }
    text.append(digit_str((n % 10) as u8));
    assert(text@ =~= old(text)@ + decimal(n as nat));
}

/// The prefix under which the storage lists the buckets of a month.
pub fn month_prefix(month: &YearMonth) -> (r: String)
    ensures
        r@ == month_prefix_of(month@.0, month@.1),
{
    let mut text = String::from_str("database/globe_history/");
    let year = month.year();
    if year < 0 {
        proof {
            reveal_strlit("-");
        }
        text.append("-");
        append_decimal(&mut text, (-year) as u32);
    } else {
        append_decimal(&mut text, year as u32);
    }
    proof {
        reveal_strlit("-");
    }
    text.append("-");
    let number = month.month();
    text.append(digit_str(number / 10));
    text.append(digit_str(number % 10));
    assert(text@ =~= month_prefix_of(month@.0, month@.1));
    text
}

/// The storage key of the bucket of one aircraft and one month.
pub fn pk_to_blob_name(icao: &str, month: &YearMonth) -> (r: String)
    ensures
        r@ == blob_name(icao@, month@.0, month@.1),
{
    let mut name = month_prefix(month);
    name.append("/trace_full_");
    name.append(icao);
    name.append(".json");
    name
}

fn chars_of(text: &str) -> (r: Vec<char>)
    ensures
        r@ == text@,
{
    let mut chars: Vec<char> = Vec::new();
    for c in it: text.chars()
        invariant
            chars@ == it.seq().take(it.index() as int),
            it.seq() == text@,
    {
        chars.push(c);
    }
    chars
}

fn stands_at(chars: &Vec<char>, at: usize, part: &Vec<char>) -> (r: bool)
    ensures
        r == has_at(chars@, at as int, part@),
{
    let n = chars.len();
    let m = part.len();
    if at > n || m > n - at {
        return false;
    }
    let mut j: usize = 0;
    while j < m
        invariant
            0 <= j <= m,
            m == part@.len(),
            n == chars@.len(),
            at + m <= n,
            forall|i: int| 0 <= i < j ==> chars@[at + i] == part@[i],
        decreases m - j,
    {
        if chars[at + j] != part[j] {
            assert(chars@.subrange(at as int, at + m)[j as int] != part@[j as int]);
            return false;
        }
        j += 1;
    }
    assert(chars@.subrange(at as int, at + m) =~= part@);
    true
}

fn is_digit_char(c: char) -> (r: bool)
    ensures
        r == is_digit(c),
{
    c >= '0' && c <= '9'
}

fn value_of_digit(c: char) -> (r: u8)
    requires
        is_digit(c),
    ensures
        r == digit_value(c),
{
    (c as u32 - '0' as u32) as u8
}

fn scan_chars(chars: &Vec<char>) -> (r: Option<(i32, u8, usize)>)
    ensures
        match r {
            Some((year, month, start)) => scan(chars@) == Some(
                (year as int, month as int, start as int),
            ),
            None => scan(chars@) is None,
        },
{
    proof {
        reveal_strlit("database/globe_history/");
        reveal_strlit("/trace_full_");
        reveal_strlit(".json");
    }
    let n = chars.len();
    let head = chars_of("database/globe_history/");
    let mid = chars_of("/trace_full_");
    let tail = chars_of(".json");
    if !stands_at(chars, 0, &head) {
        return None;
    }
    let a = head.len();
    let negative = a < n && chars[a] == '-';
    let b = if negative {
        a + 1
    } else {
        a
    };
    let mut c = b;
    let mut magnitude: u32 = 0;
    while c < n && c - b < 4 && is_digit_char(chars[c])
        invariant
            b <= c <= n,
            n == chars@.len(),
            c - b <= 4,
            forall|j: int| b <= j < c ==> is_digit(#[trigger] chars@[j]),
            magnitude == number(chars@.subrange(b as int, c as int)),
            c - b == 0 ==> magnitude == 0,
            c - b == 1 ==> magnitude < 10,
            c - b == 2 ==> magnitude < 100,
            c - b == 3 ==> magnitude < 1000,
            c - b == 4 ==> magnitude < 10000,
        decreases n - c,
    {
        assert(chars@.subrange(b as int, c + 1).drop_last() =~= chars@.subrange(b as int, c as int));
        magnitude = magnitude * 10 + value_of_digit(chars[c]) as u32;
        c += 1;
    }
    proof {
        lemma_digit_run(chars@, b as int, c as int);
    }
    if c == b || (c < n && is_digit_char(chars[c])) {
        return None;
    }
    if n - c < 3 || chars[c] != '-' || !is_digit_char(chars[c + 1]) || !is_digit_char(chars[c + 2]) {
        return None;
    }
    if !stands_at(chars, c + 3, &mid) {
        return None;
    }
    let e = c + 3 + mid.len();
    if n - e < tail.len() || !stands_at(chars, n - tail.len(), &tail) {
        return None;
    }
    let year: i32 = if negative {
        -(magnitude as i32)
    } else {
        magnitude as i32
    };
    let month = value_of_digit(chars[c + 1]) * 10 + value_of_digit(chars[c + 2]);
    Some((year, month, e))
}

/// A string that `scan` refuses is the key of no bucket.
proof fn lemma_unscanned_is_no_key(blob: Seq<char>)
    requires
        scan(blob) is None,
    ensures
        key_of(blob) is None,
{
    assert forall|icao: Seq<char>, year: int, month: int|
        is_month(year, month) implies blob != #[trigger] blob_name(icao, year, month) by {
        lemma_scan_blob_name(icao, year, month);
    }
}

/// A string from which `scan` reads something other than what it is made of
/// is the key of no bucket.
proof fn lemma_misread_is_no_key(blob: Seq<char>, year: int, month: int, start: int)
    requires
        scan(blob) == Some((year, month, start)),
        !is_month(year, month) || blob != blob_name(
            blob.subrange(start, blob.len() - 5),
            year,
            month,
        ),
    ensures
        key_of(blob) is None,
{
    assert forall|i: Seq<char>, y: int, m: int| is_month(y, m) implies blob != #[trigger] blob_name(
        i,
        y,
        m,
    ) by {
        lemma_scan_blob_name(i, y, m);
    }
}

/// Reads the aircraft and the month out of a storage key.
///
/// A string is the key of a bucket exactly if `pk_to_blob_name` makes it from
/// some aircraft and month; any other string gives `None`.
pub fn blob_name_to_pk(blob: &str) -> (r: Option<(String, YearMonth)>)
    ensures
        key_view(r) == key_of(blob@),
        r matches Some((icao, month)) ==> blob@ == blob_name(icao@, month@.0, month@.1),
{
    let chars = chars_of(blob);
    let n = chars.len();
    let (year, number, start) = match scan_chars(&chars) {
        Some(candidate) => candidate,
        None => {
            proof {
                lemma_unscanned_is_no_key(blob@);
            }
            return None;
        },
    };
    let month = match YearMonth::new(year, number) {
        Some(month) => month,
        None => {
            proof {
                lemma_misread_is_no_key(blob@, year as int, number as int, start as int);
            }
            return None;
        },
    };
    proof {
        reveal_strlit("database/globe_history/");
        reveal_strlit("/trace_full_");
        reveal_strlit(".json");
    }
    let icao = String::from_str(blob.substring_char(start, n - 5));
    let name = pk_to_blob_name(icao.as_str(), &month);
    if name == String::from_str(blob) {
        proof {
            lemma_key_round_trip(icao@, month@.0, month@.1);
        }
        Some((icao, month))
    } else {
        proof {
            lemma_misread_is_no_key(blob@, year as int, number as int, start as int);
        }
        None
    }
}

} // verus!
