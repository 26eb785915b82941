//! Instants, RFC 3339 timestamps and the remaining-time text.
use vstd::prelude::*;

verus! {

/// A point in time: whole seconds since the Unix epoch, and the nanoseconds
/// past that second. A leap second carries `nanos` of one billion or more.
#[derive(Clone, Copy, Debug, PartialEq, Eq)]
pub struct Instant {
    pub secs: i64,
    pub nanos: u32,
}

pub const NANOS_PER_SEC: i128 = 1_000_000_000;

pub const NANOS_PER_MINUTE: i128 = 60_000_000_000;

pub const NANOS_PER_HOUR: i128 = 3_600_000_000_000;

pub const NANOS_PER_DAY: i128 = 86_400_000_000_000;

impl Instant {
    /// The sub-second part stays below two seconds' worth of nanoseconds.
    pub open spec fn wf(&self) -> bool {
        self.nanos < 2_000_000_000
    }

    /// Nanoseconds since the Unix epoch. A leap second counts as the last
    /// nanosecond of the second it extends, so the order of instants is kept.
    pub open spec fn total(&self) -> int {
        self.secs as int * 1_000_000_000 + if self.nanos < 1_000_000_000 {
            self.nanos as int
        } else {
            999_999_999
        }
    }

    pub fn nanos_since_epoch(&self) -> (r: i128)
        requires
            self.wf(),
        ensures
            r == self.total(),
            -10_000_000_000_000_000_000_000_000_000 < r < 10_000_000_000_000_000_000_000_000_000,
    {
        let s = self.secs as i128;
        assert(-10_000_000_000_000_000_000_000_000_000 < s * 1_000_000_000
            < 10_000_000_000_000_000_000_000_000_000 - 2_000_000_000) by (nonlinear_arith)
            requires
                -9_223_372_036_854_775_808 <= s <= 9_223_372_036_854_775_807,
        ;
        let within: u32 = if self.nanos < 1_000_000_000 {
            self.nanos
        } else {
            999_999_999
        };
        s * NANOS_PER_SEC + within as i128
    }
}

/// What chrono's RFC 3339 parser reads from a string: `Some((seconds,
/// nanoseconds))` since the Unix epoch in UTC, or `None` where it refuses it.
pub uninterp spec fn rfc3339_of(s: Seq<char>) -> Option<(i64, u32)>;

/// Relies on chrono's `DateTime::parse_from_rfc3339`, read back through
/// `timestamp` and `timestamp_subsec_nanos` (below two billion, leap second
/// included).
#[verifier::external_body]
fn parse_rfc3339(s: &str) -> (r: Option<(i64, u32)>)
    ensures
        r == rfc3339_of(s@),
        r matches Some(p) ==> p.1 < 2_000_000_000,
{
    match chrono::DateTime::parse_from_rfc3339(s) {
        Ok(dt) => Some((dt.timestamp(), dt.timestamp_subsec_nanos())),
        Err(_) => None,
    }
}

/// Relies on chrono's `Utc::now`: the wall-clock time, of which nothing is
/// known but chrono's bound on the nanoseconds.
#[verifier::external_body]
fn clock_now() -> (r: Instant)
    ensures
        r.wf(),
{
    let t = chrono::Utc::now();
    Instant { secs: t.timestamp(), nanos: t.timestamp_subsec_nanos() }
}

/// The instant that `s` names, or `fallback` where `s` is not RFC 3339.
pub open spec fn parsed_or(s: Seq<char>, fallback: Instant) -> Instant {
    match rfc3339_of(s) {
        Some(p) => Instant { secs: p.0, nanos: p.1 },
        None => fallback,
    }
}

/// Parses an RFC 3339 timestamp; a malformed one stands for `fallback`.
pub fn parse_date_or(s: &str, fallback: Instant) -> (r: Instant)
    requires
        fallback.wf(),
    ensures
        r == parsed_or(s@, fallback),
        r.wf(),
{
    match parse_rfc3339(s) {
        Some(p) => Instant { secs: p.0, nanos: p.1 },
        None => fallback,
    }
}

/// The current wall-clock time.
pub fn now() -> (r: Instant)
    ensures
        r.wf(),
{
    clock_now()
}

/// Parses an RFC 3339 timestamp; a malformed one stands for the time of the
/// call.
pub fn parse_date(s: &str) -> (r: Instant)
    ensures
        r.wf(),
        rfc3339_of(s@) matches Some(p) ==> r == (Instant { secs: p.0, nanos: p.1 }),
{
    match parse_rfc3339(s) {
        Some(p) => Instant { secs: p.0, nanos: p.1 },
        None => clock_now(),
    }
}

/// The digit character for `d < 10`.
pub open spec fn digit_char(d: int) -> char {
    if d == 0 { '0' }
    else if d == 1 { '1' }
    else if d == 2 { '2' }
    else if d == 3 { '3' }
    else if d == 4 { '4' }
    else if d == 5 { '5' }
    else if d == 6 { '6' }
    else if d == 7 { '7' }
    else if d == 8 { '8' }
    else { '9' }
}

/// `n` in base ten, without leading zeros.
pub open spec fn decimal_of(n: nat) -> Seq<char>
    decreases n,
{
    if n < 10 {
        seq![digit_char(n as int)]
    } else {
        decimal_of(n / 10).push(digit_char((n % 10) as int))
    }
}

/// The digit character for `d < 10`, as text.
fn digit_text(d: u64) -> (r: String)
    requires
        d < 10,
    ensures
        r@ == seq![digit_char(d as int)],
{
    proof {
        reveal_strlit("0");
        reveal_strlit("1");
        reveal_strlit("2");
        reveal_strlit("3");
        reveal_strlit("4");
        reveal_strlit("5");
        reveal_strlit("6");
        reveal_strlit("7");
        reveal_strlit("8");
        reveal_strlit("9");
    }
    let r = if d == 0 {
        String::from_str("0")
    } else if d == 1 {
        String::from_str("1")
    } else if d == 2 {
        String::from_str("2")
    } else if d == 3 {
        String::from_str("3")
    } else if d == 4 {
        String::from_str("4")
    } else if d == 5 {
        String::from_str("5")
    } else if d == 6 {
        String::from_str("6")
    } else if d == 7 {
        String::from_str("7")
    } else if d == 8 {
        String::from_str("8")
    } else {
        String::from_str("9")
    };
    assert(r@ =~= seq![digit_char(d as int)]);
    r
}

/// `n` in base ten.
pub fn decimal(n: u64) -> (r: String)
    ensures
        r@ == decimal_of(n as nat),
    decreases n,
{
    if n < 10 {
        digit_text(n)
    } else {
        let mut r = decimal(n / 10);
        let d = digit_text(n % 10);
        r.append(d.as_str());
        assert(r@ =~= decimal_of((n / 10) as nat).push(digit_char((n % 10) as int)));
        r
    }
}

/// Whole days, hours within the day and minutes within the hour of a span of
/// `n` nanoseconds.
pub open spec fn days_of(n: int) -> int {
    n / 86_400_000_000_000
}

pub open spec fn hours_of(n: int) -> int {
    (n / 3_600_000_000_000) % 24
}

pub open spec fn minutes_of(n: int) -> int {
    (n / 60_000_000_000) % 60
}

/// The text for a positive remaining span of `n` nanoseconds.
pub open spec fn remaining_text(n: int) -> Seq<char> {
    let d = decimal_of(days_of(n) as nat);
    let h = decimal_of(hours_of(n) as nat);
    let m = decimal_of(minutes_of(n) as nat);
    if days_of(n) > 0 {
        d + " days "@ + h + "h "@ + m + "m left"@
    } else if hours_of(n) > 0 {
        h + "h "@ + m + "m left"@
    } else {
        m + "m left"@
    }
}

/// Renders a non-negative span of `nanos` nanoseconds as days, hours and
/// minutes left, truncating; leading zero units are left out, and no time
/// left at all reads `"Ended"`.
pub fn format_remaining(nanos: i128) -> (r: String)
    requires
        0 <= nanos < 20_000_000_000_000_000_000_000_000_000,
    ensures
        r@ == if nanos == 0 {
            "Ended"@
        } else {
            remaining_text(nanos as int)
        },
{
    if nanos == 0 {
        return String::from_str("Ended");
    }
    let days = nanos / NANOS_PER_DAY;
    let hours = (nanos / NANOS_PER_HOUR) % 24;
    let minutes = (nanos / NANOS_PER_MINUTE) % 60;
    assert(days < 1_000_000_000_000_000) by (nonlinear_arith)
        requires
            days == nanos / 86_400_000_000_000,
            0 <= nanos < 20_000_000_000_000_000_000_000_000_000,
    ;
    let mut r = String::new();
    if days > 0 {
        let d = decimal(days as u64);
        r.append(d.as_str());
        r.append(" days ");
    }
    if days > 0 || hours > 0 {
        let h = decimal(hours as u64);
        r.append(h.as_str());
        r.append("h ");
    }
    let m = decimal(minutes as u64);
    r.append(m.as_str());
    r.append("m left");
    r
}

/// The time left until `end`, seen at `now`: `"Ended"` once `end` is reached.
pub open spec fn time_left_text(end: Instant, now: Instant) -> Seq<char> {
    if end.total() <= now.total() {
        "Ended"@
    } else {
        remaining_text(end.total() - now.total())
    }
}

/// The time left until `end`, seen at `now`.
pub fn time_left(end: Instant, now: Instant) -> (r: String)
    requires
        end.wf(),
        now.wf(),
    ensures
        r@ == time_left_text(end, now),
{
    let e = end.nanos_since_epoch();
    let n = now.nanos_since_epoch();
    if e <= n {
        format_remaining(0)
    } else {
        format_remaining(e - n)
    }
}

} // verus!
