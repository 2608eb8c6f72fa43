//! Recurring schedules: which occurrence is due on a given day, and the due
//! date of each occurrence.

use vstd::prelude::*;
use vstd::string::StringSliceAdditionalSpecFns;

use crate::date::{Date, SECONDS_PER_DAY};

verus! {

/// Whole seconds of the longest duration that chrono's `Duration` holds
/// (`i64::MAX` milliseconds).
pub const MAX_DURATION_SECONDS: u64 = 9_223_372_036_854_775;

/// Sub-second nanoseconds allowed on top of `MAX_DURATION_SECONDS`.
pub const MAX_DURATION_EXTRA_NANOS: u32 = 807_000_000;

/// What humantime's duration parser gives for a text: whole seconds and the
/// nanoseconds below one second, or `None` where the text is no duration.
pub uninterp spec fn humantime_of(s: Seq<char>) -> Option<(u64, u32)>;

/// A length of time in whole seconds.
#[derive(Debug, Clone, Copy, PartialEq, Eq, Hash, Structural)]
pub struct Duration {
    /// The number of seconds.
    pub seconds: u64,
}

/// Why a duration text was not accepted.
#[derive(Debug, Clone, Copy, PartialEq, Eq, Structural)]
pub enum DurationError {
    /// The text is not a duration that humantime understands.
    Invalid,
    /// The duration is longer than chrono's `Duration` can hold.
    OutOfRange,
    /// The text holds more than `MAX_DURATION_DIGITS` digits.
    TooManyDigits,
}

/// Whether a parsed duration fits chrono's `Duration`.
pub open spec fn fits_chrono(secs: u64, nanos: u32) -> bool {
    secs < MAX_DURATION_SECONDS || (secs == MAX_DURATION_SECONDS && nanos
        <= MAX_DURATION_EXTRA_NANOS)
}

/// Most ASCII digits that a duration text may hold. Every term of humantime's
/// grammar begins with a digit, and no unit is longer than a year of
/// 31_557_600 seconds, so with at most eleven digits the parsed seconds stay
/// below 32 * 10^17, far from `u64::MAX`, whatever the units and fractions.
pub const MAX_DURATION_DIGITS: usize = 11;

/// The number of ASCII digits among the bytes `b`.
pub open spec fn digit_count(b: Seq<u8>) -> nat
    decreases b.len(),
{
    if b.len() == 0 {
        0
    } else {
        digit_count(b.drop_last()) + if 48 <= b.last() <= 57 {
            1nat
        } else {
            0nat
        }
    }
}

/// The duration that a text such as "1week" or "3days 4h" denotes, rounded
/// down to whole seconds.
pub open spec fn parsed_duration(s: &str) -> Result<Duration, DurationError> {
    if digit_count(s.spec_bytes()) > MAX_DURATION_DIGITS {
        Err(DurationError::TooManyDigits)
    } else {
        match humantime_of(s@) {
            None => Err(DurationError::Invalid),
            Some((secs, nanos)) => if fits_chrono(secs, nanos) {
                Ok(Duration { seconds: secs })
            } else {
                Err(DurationError::OutOfRange)
            },
        }
    }
}

/// Relies on `humantime::parse_duration`: the parsed length of time as
/// seconds and sub-second nanoseconds; an empty text is no duration. The
/// parser panics where its seconds reach `u64::MAX` and a carry of
/// nanoseconds follows; the bound on digits keeps the seconds far below that.
#[verifier::external_body]
fn humantime_parse(s: &str) -> (r: Option<(u64, u32)>)
    requires
        digit_count(s.spec_bytes()) <= MAX_DURATION_DIGITS,
    ensures
        r == humantime_of(s@),
        s@.len() == 0 ==> r.is_none(),
        r matches Some((_, nanos)) ==> nanos < 1_000_000_000,
{
    humantime::parse_duration(s).ok().map(|d| (d.as_secs(), d.subsec_nanos()))
}

/// The number of ASCII digits in `s`.
fn count_digits(s: &str) -> (r: usize)
    ensures
        r == digit_count(s.spec_bytes()),
{
    let bytes = s.as_bytes();
    let mut count: usize = 0;
    let mut i: usize = 0;
    while i < bytes.len()
        invariant
            0 <= i <= bytes.len(),
            bytes@ == s.spec_bytes(),
            count == digit_count(bytes@.subrange(0, i as int)),
            count <= i,
        decreases bytes.len() - i,
    {
        proof {
            assert(bytes@.subrange(0, i + 1).drop_last() =~= bytes@.subrange(0, i as int));
        }
        if 48 <= bytes[i] && bytes[i] <= 57 {
            count = count + 1;
        }
        i = i + 1;
    }
    proof {
        assert(bytes@.subrange(0, i as int) =~= bytes@);
    }
    count
}

/// Parses a human-readable duration ("1week", "2days", "36h") into whole
/// seconds; a text with more than `MAX_DURATION_DIGITS` digits is refused.
pub fn parse_humantime_duration(s: &str) -> (r: Result<Duration, DurationError>)
    ensures
        r == parsed_duration(s),
        r matches Ok(d) ==> d.seconds <= MAX_DURATION_SECONDS,
{
    if count_digits(s) > MAX_DURATION_DIGITS {
        return Err(DurationError::TooManyDigits);
    }
    match humantime_parse(s) {
        None => Err(DurationError::Invalid),
        Some((secs, nanos)) => {
            if secs < MAX_DURATION_SECONDS || (secs == MAX_DURATION_SECONDS && nanos
                <= MAX_DURATION_EXTRA_NANOS) {
                Ok(Duration { seconds: secs })
            } else {
                Err(DurationError::OutOfRange)
            }
        },
    }
}

/// Why a schedule was not accepted.
#[derive(Debug, Clone, Copy, PartialEq, Eq, Structural)]
pub enum ScheduleError {
    /// The period between occurrences is zero.
    ZeroTempo,
    /// The period or the notice is longer than chrono's `Duration` can hold.
    DurationOutOfRange,
}

/// One recurring issue: occurrence `n` is due on `start + n * tempo`, and
/// becomes actionable `notice` before that.
#[derive(Debug)]
pub struct Issue {
    /// Path of the project the issues are created in.
    pub project: String,
    /// Reference date of occurrence 0.
    pub start: Date,
    /// Optional last day on which occurrences can still fall due.
    pub end: Option<Date>,
    /// Period between consecutive occurrences.
    pub tempo: Duration,
    /// Lead time before an occurrence's due date at which it becomes due.
    pub notice: Duration,
    /// Name of the template that renders an occurrence's description.
    pub template: String,
    /// Labels given to each created issue.
    pub labels: Vec<String>,
    /// Arguments for the template, as the text of a JSON object.
    pub template_args: String,
}

impl Issue {
    /// A schedule has a nonzero period, and both durations fit chrono's
    /// `Duration`.
    pub open spec fn wf(&self) -> bool {
        &&& self.tempo.seconds > 0
        &&& self.tempo.seconds <= MAX_DURATION_SECONDS
        &&& self.notice.seconds <= MAX_DURATION_SECONDS
    }

    /// The day on which evaluation stops: `today`, or `end` where that is
    /// earlier.
    pub open spec fn effective_end(&self, today: Date) -> int {
        match self.end {
            Some(e) => if e.day < today.day {
                e.day as int
            } else {
                today.day as int
            },
            None => today.day as int,
        }
    }

    /// Seconds from `start` to the effective end, plus the notice.
    pub open spec fn elapsed_with_notice(&self, today: Date) -> int {
        (self.effective_end(today) - self.start.day) * SECONDS_PER_DAY + self.notice.seconds
    }

    /// The index of the most recent occurrence due on `today`: none while the
    /// elapsed time with notice is negative, or where the index does not fit
    /// 32 bits.
    pub open spec fn due_index(&self, today: Date) -> Option<u32> {
        let e = self.elapsed_with_notice(today);
        if e < 0 {
            None
        } else {
            let q = e / (self.tempo.seconds as int);
            if q <= u32::MAX {
                Some(q as u32)
            } else {
                None
            }
        }
    }

    /// Day number of the due date of occurrence `n`: `start + tempo * n`,
    /// with the partial day dropped.
    pub open spec fn due_day(&self, n: u32) -> int {
        self.start.day + (self.tempo.seconds * n) / (SECONDS_PER_DAY as int)
    }

    /// Whether the due date of occurrence `n` is a representable date.
    pub open spec fn due_fits(&self, n: u32) -> bool {
        i32::MIN <= self.due_day(n) <= i32::MAX
    }

    /// A schedule from its parts; refused where the period is zero or a
    /// duration is out of chrono's range.
    pub fn new(
        project: String,
        start: Date,
        end: Option<Date>,
        tempo: Duration,
        notice: Duration,
        template: String,
        labels: Vec<String>,
        template_args: String,
    ) -> (r: Result<Issue, ScheduleError>)
        ensures
            tempo.seconds == 0 ==> r == Err::<Issue, ScheduleError>(ScheduleError::ZeroTempo),
            tempo.seconds > 0 && (tempo.seconds > MAX_DURATION_SECONDS || notice.seconds
                > MAX_DURATION_SECONDS) ==> r == Err::<Issue, ScheduleError>(
                ScheduleError::DurationOutOfRange,
            ),
            r is Ok <==> (tempo.seconds > 0 && tempo.seconds <= MAX_DURATION_SECONDS
                && notice.seconds <= MAX_DURATION_SECONDS),
            r matches Ok(i) ==> (i.wf() && i.project == project && i.start == start && i.end
                == end && i.tempo == tempo && i.notice == notice && i.template == template
                && i.labels == labels && i.template_args == template_args),
    {
        if tempo.seconds == 0 {
            Err(ScheduleError::ZeroTempo)
        } else if tempo.seconds > MAX_DURATION_SECONDS || notice.seconds > MAX_DURATION_SECONDS {
            Err(ScheduleError::DurationOutOfRange)
        } else {
            Ok(Issue { project, start, end, tempo, notice, template, labels, template_args })
        }
    }

    /// Name of the template that renders this schedule's descriptions.
    pub fn template(&self) -> (r: &String)
        ensures
            r == &self.template,
    {
        &self.template
    }

    /// The most recent occurrence that should already have been created on
    /// `today`, or `None` if no occurrence is due yet.
    pub fn most_recent_issue(&self, today: Date) -> (r: Option<u32>)
        requires
            self.wf(),
        ensures
            r == self.due_index(today),
            self.elapsed_with_notice(today) < 0 ==> r.is_none(),
    {
        let end: i32 = match self.end {
            Some(e) => if e.day < today.day {
                e.day
            } else {
                today.day
            },
            None => today.day,
        };
        let days: i128 = end as i128 - self.start.day as i128;
        assert(-0x1_0000_0000 <= days <= 0x1_0000_0000);
        assert(-0x1_0000_0000 * 86400 <= days * 86400 <= 0x1_0000_0000 * 86400) by (nonlinear_arith)
            requires
                -0x1_0000_0000 <= days <= 0x1_0000_0000,
        ;
        let elapsed: i128 = days * (SECONDS_PER_DAY as i128) + self.notice.seconds as i128;
        if elapsed < 0 {
            None
        } else {
            let periods: u128 = (elapsed as u128) / (self.tempo.seconds as u128);
            if periods <= u32::MAX as u128 {
                Some(periods as u32)
            } else {
                None
            }
        }
    }

    /// The due date of occurrence `number`: `start + tempo * number`, with
    /// the partial day dropped.
    pub fn due_date(&self, number: u32) -> (r: Date)
        requires
            self.wf(),
            self.due_fits(number),
        ensures
            r.day == self.due_day(number),
    {
        let t: u128 = self.tempo.seconds as u128;
        assert(t * number <= 0x1_0000_0000_0000_0000 * 0x1_0000_0000) by (nonlinear_arith)
            requires
                t <= 0x1_0000_0000_0000_0000,
                number <= 0x1_0000_0000,
        ;
        let elapsed: u128 = t * (number as u128);
        let days: u128 = elapsed / (SECONDS_PER_DAY as u128);
        assert(days <= elapsed) by (nonlinear_arith)
            requires
                days == elapsed / 86400,
        ;
        let day: i128 = self.start.day as i128 + days as i128;
        Date { day: day as i32 }
    }
}

/// Due dates strictly increase with the occurrence index, wherever the
/// period is at least one day (a shorter period can put two occurrences on
/// the same day).
pub proof fn lemma_due_date_strictly_increasing(issue: &Issue, n: u32)
    requires
        issue.wf(),
        issue.tempo.seconds >= SECONDS_PER_DAY,
        n < u32::MAX,
    ensures
        issue.due_day(n) < issue.due_day((n + 1) as u32),
{
    let t = issue.tempo.seconds as int;
    let a = t * n;
    let b = t * ((n + 1) as u32);
    assert(b == a + t) by (nonlinear_arith)
        requires
            a == t * n,
            b == t * (n + 1),
    ;
    assert(a / 86400 < b / 86400) by (nonlinear_arith)
        requires
            b >= a + 86400,
            a >= 0,
    ;
}

} // verus!
