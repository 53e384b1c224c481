//! Names that carry the time at which a session ended.

use crate::text;
use vstd::prelude::*;

verus! {

/// A minute of the local clock.
pub struct Minute {
    pub year: i32,
    pub month: u32,
    pub day: u32,
    pub hour: u32,
    pub minute: u32,
}

/// A leap year of the Gregorian calendar.
pub open spec fn is_leap_year(year: int) -> bool {
    year % 4 == 0 && (year % 100 != 0 || year % 400 == 0)
}

/// The number of days of a month.
pub open spec fn days_in_month(year: int, month: int) -> int {
    if month == 2 {
        if is_leap_year(year) {
            29
        } else {
            28
        }
    } else if month == 4 || month == 6 || month == 9 || month == 11 {
        30
    } else {
        31
    }
}

impl Minute {
    /// True for a minute that exists, in a year that `chrono` has.
    pub open spec fn exists_on_calendar(self) -> bool {
        &&& -262143 <= self.year <= 262142
        &&& 1 <= self.month <= 12
        &&& 1 <= self.day <= days_in_month(self.year as int, self.month as int)
        &&& self.hour < 24
        &&& self.minute < 60
    }

    /// The minute in digits: year, month, day, hour and minute.
    pub open spec fn digits(self) -> Seq<char> {
        year_digits(self.year as int) + two_digits(self.month as nat) + two_digits(self.day as nat)
            + two_digits(self.hour as nat) + two_digits(self.minute as nat)
    }
}

/// The last two digits of `n`.
pub open spec fn two_digits(n: nat) -> Seq<char> {
    seq![text::digit(n / 10), text::digit(n)]
}

/// A year in at least four digits, with a sign if it is before 0 or after 9999.
pub open spec fn year_digits(year: int) -> Seq<char> {
    let n = if year < 0 {
        -year as nat
    } else {
        year as nat
    };
    let digits = if n <= 9999 {
        two_digits(n / 100) + two_digits(n % 100)
    } else {
        text::decimal(n)
    };
    if year < 0 {
        seq!['-'] + digits
    } else if year > 9999 {
        seq!['+'] + digits
    } else {
        digits
    }
}

/// The pattern of a stamp: the fields of a minute, and then text that stands for itself.
pub open spec fn is_stamp_pattern(pattern: Seq<char>) -> bool {
    &&& pattern.len() >= 10
    &&& pattern.take(10) == "%Y%m%d%H%M"@
    &&& !pattern.skip(10).contains('%')
}

/// `chrono::NaiveDateTime::format` with the date and the time that `NaiveDate::from_ymd_opt` and
/// `NaiveDate::and_hms_opt` make of the fields, the second being 0.
///
/// There is no such date and time exactly when the minute does not exist. Otherwise the fields
/// that the pattern names are written in digits, padded with zeros, and the text that follows
/// them is copied. A pattern that `chrono` cannot read would make it panic, and is left out.
#[verifier::external_body]
fn format_minute(minute: &Minute, pattern: &str) -> (r: Option<String>)
    requires
        is_stamp_pattern(pattern@),
    ensures
        r is Some <==> minute.exists_on_calendar(),
        r matches Some(stamp) ==> stamp@ == minute.digits() + pattern@.skip(10),
{
    let date = chrono::NaiveDate::from_ymd_opt(minute.year, minute.month, minute.day)?;
    let time = date.and_hms_opt(minute.hour, minute.minute, 0)?;
    Some(time.format(pattern).to_string())
}

/// Returns the minute in digits, or `None` if there is no such minute.
pub fn timestamp(minute: &Minute) -> (r: Option<String>)
    ensures
        r is Some <==> minute.exists_on_calendar(),
        r matches Some(stamp) ==> stamp@ == minute.digits(),
{
    proof {
        reveal_strlit("%Y%m%d%H%M");
        assert("%Y%m%d%H%M"@.take(10) =~= "%Y%m%d%H%M"@);
        assert(minute.digits() + "%Y%m%d%H%M"@.skip(10) =~= minute.digits());
    }
    format_minute(minute, "%Y%m%d%H%M")
}

/// Returns the name of the file for the announcements, or `None` if there is no such minute.
pub fn koukoku_file_name(minute: &Minute) -> (r: Option<String>)
    ensures
        r is Some <==> minute.exists_on_calendar(),
        r matches Some(name) ==> name@ == minute.digits() + "koukoku.txt"@,
{
    proof {
        reveal_strlit("%Y%m%d%H%M");
        reveal_strlit("koukoku.txt");
        reveal_strlit("%Y%m%d%H%Mkoukoku.txt");
        assert("%Y%m%d%H%Mkoukoku.txt"@.take(10) =~= "%Y%m%d%H%M"@);
        assert("%Y%m%d%H%Mkoukoku.txt"@.skip(10) =~= "koukoku.txt"@);
    }
    format_minute(minute, "%Y%m%d%H%Mkoukoku.txt")
}

/// Returns the name of the file for the chat, or `None` if there is no such minute.
pub fn chat_file_name(minute: &Minute) -> (r: Option<String>)
    ensures
        r is Some <==> minute.exists_on_calendar(),
        r matches Some(name) ==> name@ == minute.digits() + "chat.txt"@,
{
    proof {
        reveal_strlit("%Y%m%d%H%M");
        reveal_strlit("chat.txt");
        reveal_strlit("%Y%m%d%H%Mchat.txt");
        assert("%Y%m%d%H%Mchat.txt"@.take(10) =~= "%Y%m%d%H%M"@);
        assert("%Y%m%d%H%Mchat.txt"@.skip(10) =~= "chat.txt"@);
    }
    format_minute(minute, "%Y%m%d%H%Mchat.txt")
}

/// A minute of the years 0 to 9999 is twelve digits.
pub proof fn law_stamp_is_twelve_digits(minute: Minute)
    requires
        0 <= minute.year <= 9999,
    ensures
        minute.digits().len() == 12,
        forall|i: int| 0 <= i < 12 ==> text::is_digit(#[trigger] minute.digits()[i]),
{
}

proof fn lemma_two_digits(a: nat, b: nat)
    requires
        a < 100,
        b < 100,
        two_digits(a) == two_digits(b),
    ensures
        a == b,
{
    assert(two_digits(a)[0] == two_digits(b)[0]);
    assert(two_digits(a)[1] == two_digits(b)[1]);
}

/// A year without its sign.
spec fn plain_digits(n: nat) -> Seq<char> {
    if n <= 9999 {
        two_digits(n / 100) + two_digits(n % 100)
    } else {
        text::decimal(n)
    }
}

proof fn lemma_plain_digits(a: nat, b: nat)
    requires
        plain_digits(a) == plain_digits(b),
    ensures
        a == b,
{
    if a <= 9999 && b <= 9999 {
        assert(plain_digits(a).take(2) =~= two_digits(a / 100));
        assert(plain_digits(b).take(2) =~= two_digits(b / 100));
        assert(plain_digits(a).skip(2) =~= two_digits(a % 100));
        assert(plain_digits(b).skip(2) =~= two_digits(b % 100));
        lemma_two_digits(a / 100, b / 100);
        lemma_two_digits(a % 100, b % 100);
    } else if a > 9999 && b > 9999 {
        text::law_decimal_is_read_back(a);
        text::law_decimal_is_read_back(b);
    } else {
        lemma_decimal_len(if a > 9999 { a } else { b });
    }
}

proof fn lemma_decimal_len(n: nat)
    requires
        n > 9999,
    ensures
        text::decimal(n).len() > 4,
{
    reveal_with_fuel(text::decimal, 6);
}

proof fn lemma_plain_digits_start(n: nat)
    ensures
        plain_digits(n).len() >= 4,
        text::is_digit(plain_digits(n)[0]),
{
    if n > 9999 {
        lemma_decimal_len(n);
        text::law_decimal_is_read_back(n);
        assert(text::is_digit(text::decimal(n)[0]));
    }
}

proof fn lemma_year_digits(a: int, b: int)
    requires
        year_digits(a) == year_digits(b),
    ensures
        a == b,
{
    let m = if a < 0 { -a as nat } else { a as nat };
    let n = if b < 0 { -b as nat } else { b as nat };
    lemma_plain_digits_start(m);
    lemma_plain_digits_start(n);
    assert(year_digits(a)[0] == year_digits(b)[0]);
    assert(a < 0 ==> year_digits(a)[0] == '-');
    assert(b < 0 ==> year_digits(b)[0] == '-');
    assert(a > 9999 ==> year_digits(a)[0] == '+');
    assert(b > 9999 ==> year_digits(b)[0] == '+');
    assert(0 <= a <= 9999 ==> year_digits(a) == plain_digits(m));
    assert(0 <= b <= 9999 ==> year_digits(b) == plain_digits(n));
    if 0 <= a <= 9999 {
        assert(0 <= b <= 9999);
    } else {
        assert(year_digits(a).skip(1) =~= plain_digits(m));
        assert(year_digits(b).skip(1) =~= plain_digits(n));
    }
    lemma_plain_digits(m, n);
}

/// Sessions that end in different minutes have different stamps.
pub proof fn law_stamps_differ(a: Minute, b: Minute)
    requires
        a.exists_on_calendar(),
        b.exists_on_calendar(),
        a.digits() == b.digits(),
    ensures
        a == b,
{
    let s = a.digits();
    let t = b.digits();
    let k = year_digits(a.year as int).len() as int;
    assert(s.len() == k + 8);
    assert(t.len() == year_digits(b.year as int).len() + 8);
    assert(s.take(k) =~= year_digits(a.year as int));
    assert(t.take(k) =~= year_digits(b.year as int));
    lemma_year_digits(a.year as int, b.year as int);
    assert(s.subrange(k, k + 2) =~= two_digits(a.month as nat));
    assert(t.subrange(k, k + 2) =~= two_digits(b.month as nat));
    lemma_two_digits(a.month as nat, b.month as nat);
    assert(s.subrange(k + 2, k + 4) =~= two_digits(a.day as nat));
    assert(t.subrange(k + 2, k + 4) =~= two_digits(b.day as nat));
    lemma_two_digits(a.day as nat, b.day as nat);
    assert(s.subrange(k + 4, k + 6) =~= two_digits(a.hour as nat));
    assert(t.subrange(k + 4, k + 6) =~= two_digits(b.hour as nat));
    lemma_two_digits(a.hour as nat, b.hour as nat);
    assert(s.subrange(k + 6, k + 8) =~= two_digits(a.minute as nat));
    assert(t.subrange(k + 6, k + 8) =~= two_digits(b.minute as nat));
    lemma_two_digits(a.minute as nat, b.minute as nat);
}

/// A minute is written in order: behind the year, two digits each for the month, the day, the hour
/// and the minute. The year has at least four digits, and a sign if it is before 0 or after 9999.
pub proof fn law_stamp_is_read_back(minute: Minute)
    requires
        minute.exists_on_calendar(),
    ensures
        ({
            let s = minute.digits();
            let k = s.len() - 8;
            let year = s.take(k);
            &&& if minute.year < 0 {
                year[0] == '-' && k >= 5 && text::decimal_value(year.skip(1)) == -minute.year && (
                minute.year >= -9999 ==> k == 5) && (minute.year < -9999 ==> year[1] != '0')
            } else if minute.year <= 9999 {
                k == 4 && text::decimal_value(year) == minute.year
            } else {
                year[0] == '+' && k >= 6 && text::decimal_value(year.skip(1)) == minute.year
                    && year[1] != '0'
            }
            &&& text::decimal_value(s.subrange(k, k + 2)) == minute.month
            &&& text::decimal_value(s.subrange(k + 2, k + 4)) == minute.day
            &&& text::decimal_value(s.subrange(k + 4, k + 6)) == minute.hour
            &&& text::decimal_value(s.subrange(k + 6, k + 8)) == minute.minute
            &&& forall|i: int|
                0 < i < s.len() || (i == 0 && 0 <= minute.year <= 9999) ==> 48 <= (
                #[trigger] s[i]) as nat <= 57
        }),
{
    let s = minute.digits();
    let y = year_digits(minute.year as int);
    let k = y.len() as int;
    let n = if minute.year < 0 { -minute.year as nat } else { minute.year as nat };
    let plain = plain_digits(n);
    lemma_plain_digits_start(n);
    lemma_plain_digits_value(n);
    assert(s.take(k) =~= y);
    assert(s.subrange(k, k + 2) =~= two_digits(minute.month as nat));
    assert(s.subrange(k + 2, k + 4) =~= two_digits(minute.day as nat));
    assert(s.subrange(k + 4, k + 6) =~= two_digits(minute.hour as nat));
    assert(s.subrange(k + 6, k + 8) =~= two_digits(minute.minute as nat));
    lemma_two_digits_value(minute.month as nat);
    lemma_two_digits_value(minute.day as nat);
    lemma_two_digits_value(minute.hour as nat);
    lemma_two_digits_value(minute.minute as nat);
    if minute.year < 0 || minute.year > 9999 {
        assert(y.skip(1) =~= plain);
        assert(y[1] == plain[0]);
    } else {
        assert(y =~= plain);
    }
    assert forall|i: int|
        0 < i < s.len() || (i == 0 && 0 <= minute.year <= 9999) implies 48 <= (
    #[trigger] s[i]) as nat <= 57 by {
        if i < k {
            if minute.year < 0 || minute.year > 9999 {
                assert(s[i] == plain[i - 1]);
            } else {
                assert(s[i] == plain[i]);
            }
        }
    }
}

proof fn lemma_two_digits_value(n: nat)
    requires
        n < 100,
    ensures
        text::decimal_value(two_digits(n)) == n,
{
    let s = two_digits(n);
    reveal_with_fuel(text::decimal_value, 3);
    assert(s.drop_last().last() == s[0]);
}

proof fn lemma_plain_digits_value(n: nat)
    ensures
        text::decimal_value(plain_digits(n)) == n,
        forall|i: int|
            0 <= i < plain_digits(n).len() ==> text::is_digit(#[trigger] plain_digits(n)[i]),
        n <= 9999 ==> plain_digits(n).len() == 4,
        n > 9999 ==> plain_digits(n)[0] != '0' && plain_digits(n).len() >= 5,
    decreases n,
{
    let s = plain_digits(n);
    if n > 9999 {
        text::law_decimal_is_read_back(n);
        lemma_decimal_len(n);
        lemma_decimal_start(n);
    } else {
        reveal_with_fuel(text::decimal_value, 5);
        assert(s.drop_last().last() == s[2]);
        assert(s.drop_last().drop_last().last() == s[1]);
        assert(s.drop_last().drop_last().drop_last().last() == s[0]);
        assert(n == 1000 * (n / 100 / 10) + 100 * (n / 100 % 10) + 10 * (n % 100 / 10) + n % 100
            % 10);
    }
}

proof fn lemma_decimal_start(n: nat)
    requires
        n > 0,
    ensures
        text::decimal(n)[0] != '0',
    decreases n,
{
    if n >= 10 {
        lemma_decimal_start(n / 10);
        text::law_decimal_is_read_back(n / 10);
    }
}

/// The minutes that exist: 24 hours of 60 minutes on every day of a month, and the twelve months
/// with their days, of which February has one more in a leap year.
pub proof fn law_calendar(minute: Minute)
    ensures
        ({
            let leap = minute.year % 400 == 0 || (minute.year % 4 == 0 && minute.year % 100 != 0);
            let days = seq![
                31int,
                if leap {
                    29
                } else {
                    28
                },
                31,
                30,
                31,
                30,
                31,
                31,
                30,
                31,
                30,
                31,
            ];
            minute.exists_on_calendar() <==> {
                &&& -262143 <= minute.year <= 262142
                &&& 1 <= minute.month <= 12
                &&& 1 <= minute.day <= days[minute.month - 1]
                &&& 0 <= minute.hour <= 23
                &&& 0 <= minute.minute <= 59
            }
        }),
{
}

} // verus!
