//! Maps a wall-clock instant to the storage layout `root/YYYY-MM-DD/HH-MM.wav`.

use vstd::prelude::*;

verus! {

/// The decimal digit `d` (which must be below ten) as a character.
pub open spec fn digit_char(d: nat) -> char {
    if d == 0 { '0' }
    else if d == 1 { '1' }
    else if d == 2 { '2' }
    else if d == 3 { '3' }
    else if d == 4 { '4' }
    else if d == 5 { '5' }
    else if d == 6 { '6' }
    else if d == 7 { '7' }
    else if d == 8 { '8' }
    else { '9' }
}

/// `n` written with exactly two digits, zero-padded.
pub open spec fn two_digits(n: nat) -> Seq<char> {
    seq![digit_char((n / 10) % 10), digit_char(n % 10)]
}

/// `n` written with exactly four digits, zero-padded.
pub open spec fn four_digits(n: nat) -> Seq<char> {
    two_digits(n / 100) + two_digits(n % 100)
}

/// `a` is a later minute than `b`.
pub open spec fn later(a: Stamp, b: Stamp) -> bool {
    a.year > b.year || (a.year == b.year && (a.month > b.month || (a.month == b.month && (a.day
        > b.day || (a.day == b.day && (a.hour > b.hour || (a.hour == b.hour && a.minute
        > b.minute)))))))
}

/// A local wall-clock instant at minute precision.
#[derive(Clone, Copy, Debug, PartialEq, Eq)]
pub struct Stamp {
    pub year: u32,
    pub month: u32,
    pub day: u32,
    pub hour: u32,
    pub minute: u32,
}

impl Stamp {
    /// Every field is within its calendar range and the year has four digits.
    pub open spec fn wf(&self) -> bool {
        &&& self.year <= 9999
        &&& 1 <= self.month <= 12
        &&& 1 <= self.day <= 31
        &&& self.hour < 24
        &&& self.minute < 60
    }

    /// The name of the date bucket: `YYYY-MM-DD`.
    pub open spec fn bucket_text(&self) -> Seq<char> {
        four_digits(self.year as nat) + seq!['-'] + two_digits(self.month as nat) + seq!['-']
            + two_digits(self.day as nat)
    }

    /// The name of the segment file inside its bucket: `HH-MM.wav`.
    pub open spec fn file_text(&self) -> Seq<char> {
        two_digits(self.hour as nat) + seq!['-'] + two_digits(self.minute as nat) + seq![
            '.',
            'w',
            'a',
            'v',
        ]
    }

    /// The path of the segment below the storage root: `YYYY-MM-DD/HH-MM.wav`.
    pub open spec fn relative_text(&self) -> Seq<char> {
        self.bucket_text() + seq!['/'] + self.file_text()
    }

    /// Builds a stamp from calendar fields; `None` when a field is out of range
    /// or the year does not have four digits.
    pub fn new(year: i32, month: u32, day: u32, hour: u32, minute: u32) -> (r: Option<Stamp>)
        ensures
            r is Some <==> (0 <= year <= 9999 && 1 <= month <= 12 && 1 <= day <= 31 && hour < 24
                && minute < 60),
            r matches Some(s) ==> s.wf() && s.year == year && s.month == month && s.day == day
                && s.hour == hour && s.minute == minute,
    {
        if 0 <= year && year <= 9999 && 1 <= month && month <= 12 && 1 <= day && day <= 31 && hour
            < 24 && minute < 60 {
            Some(Stamp { year: year as u32, month, day, hour, minute })
        } else {
            None
        }
    }

    /// Whether `self` is a later minute than `other`.
    pub fn is_later_than(&self, other: &Stamp) -> (r: bool)
        ensures
            r == later(*self, *other),
    {
        if self.year != other.year {
            self.year > other.year
        } else if self.month != other.month {
            self.month > other.month
        } else if self.day != other.day {
            self.day > other.day
        } else if self.hour != other.hour {
            self.hour > other.hour
        } else {
            self.minute > other.minute
        }
    }

    /// The current local time, when the clock's year has four digits.
    pub fn now() -> (r: Option<Stamp>)
        ensures
            r matches Some(s) ==> s.wf(),
    {
        let (year, month, day, hour, minute) = local_clock();
        Stamp::new(year, month, day, hour, minute)
    }

    /// The date bucket's directory name, `YYYY-MM-DD`.
    pub fn bucket_name(&self) -> (r: String)
        requires
            self.wf(),
        ensures
            r@ == self.bucket_text(),
    {
        let mut r = String::new();
        push_four_digits(&mut r, self.year);
        push_dash(&mut r);
        push_two_digits(&mut r, self.month);
        push_dash(&mut r);
        push_two_digits(&mut r, self.day);
        r
    }

    /// The segment's file name, `HH-MM.wav`.
    pub fn file_name(&self) -> (r: String)
        requires
            self.wf(),
        ensures
            r@ == self.file_text(),
    {
        let mut r = String::new();
        push_two_digits(&mut r, self.hour);
        push_dash(&mut r);
        push_two_digits(&mut r, self.minute);
        let ext = ".wav";
        proof {
            reveal_strlit(".wav");
        }
        r.append(ext);
        proof {
            assert(seq!['.', 'w', 'a', 'v'] =~= ext@);
        }
        r
    }

    /// The segment's path below the storage root, `YYYY-MM-DD/HH-MM.wav`.
    pub fn relative_path(&self) -> (r: String)
        requires
            self.wf(),
        ensures
            r@ == self.relative_text(),
    {
        let mut r = self.bucket_name();
        let sep = "/";
        proof {
            reveal_strlit("/");
        }
        r.append(sep);
        let f = self.file_name();
        r.append(f.as_str());
        r
    }
}

/// Relies on chrono's `From<SystemTime> for DateTime<Local>` applied to the
/// system clock, with `Datelike` and `Timelike`: reads the local clock as
/// (year, month, day, hour, minute); the accessors document the ranges month
/// 1..=12, day 1..=31, hour 0..=23 and minute 0..=59. This conversion accepts
/// clock readings before 1970. It still panics where chrono cannot determine
/// the local offset from the time-zone data, or for a reading outside chrono's
/// range of some 262,000 years around year 0; neither is a state of an argument
/// that a precondition could exclude.
#[verifier::external_body]
fn local_clock() -> (r: (i32, u32, u32, u32, u32))
    ensures
        1 <= r.1 <= 12,
        1 <= r.2 <= 31,
        r.3 <= 23,
        r.4 <= 59,
{
    let now = chrono::DateTime::<chrono::Local>::from(std::time::SystemTime::now());
    (
        chrono::Datelike::year(&now),
        chrono::Datelike::month(&now),
        chrono::Datelike::day(&now),
        chrono::Timelike::hour(&now),
        chrono::Timelike::minute(&now),
    )
}

fn digit_str(d: u32) -> (r: &'static str)
    requires
        d < 10,
    ensures
        r@ == seq![digit_char(d as nat)],
{
    proof {
        reveal_strlit("0");
        reveal_strlit("1");
        reveal_strlit("2");
        reveal_strlit("3");
        reveal_strlit("4");
        reveal_strlit("5");
        reveal_strlit("6");
        reveal_strlit("7");
        reveal_strlit("8");
        reveal_strlit("9");
    }
    let r = if d == 0 { "0" }
    else if d == 1 { "1" }
    else if d == 2 { "2" }
    else if d == 3 { "3" }
    else if d == 4 { "4" }
    else if d == 5 { "5" }
    else if d == 6 { "6" }
    else if d == 7 { "7" }
    else if d == 8 { "8" }
    else { "9" };
    proof {
        assert(r@ =~= seq![digit_char(d as nat)]);
    }
    r
}

fn push_dash(s: &mut String)
    ensures
        final(s)@ == old(s)@ + seq!['-'],
{
    let dash = "-";
    proof {
        reveal_strlit("-");
        assert(dash@ =~= seq!['-']);
    }
    s.append(dash);
}

fn push_two_digits(s: &mut String, n: u32)
    ensures
        final(s)@ == old(s)@ + two_digits(n as nat),
{
    let hi = digit_str((n / 10) % 10);
    let lo = digit_str(n % 10);
    s.append(hi);
    s.append(lo);
    proof {
        assert(final(s)@ =~= old(s)@ + two_digits(n as nat));
    }
}

fn push_four_digits(s: &mut String, n: u32)
    ensures
        final(s)@ == old(s)@ + four_digits(n as nat),
{
    push_two_digits(s, n / 100);
    push_two_digits(s, n % 100);
    proof {
        assert(final(s)@ =~= old(s)@ + four_digits(n as nat));
    }
}

} // verus!
