//! Time newtypes: [`SecondOfDay`] (a timestamp), [`Duration`] (a length of
//! time) and [`Transfers`] (a trip cap). Arithmetic across the two time
//! types saturates; parsing and rendering use the `HH:MM[:SS]` form.

use vstd::prelude::*;

verus! {

/// A point in time, in seconds since midnight of the service date. Hours
/// past 23 are allowed (GTFS writes late trips as `25:30:00`).
#[derive(Copy, Clone, Debug, PartialEq, Eq, PartialOrd, Ord, Hash, Default, Structural)]
pub struct SecondOfDay(pub u32);

/// A length of time, in seconds: a walk offset, a transfer time, a dwell.
#[derive(Copy, Clone, Debug, PartialEq, Eq, PartialOrd, Ord, Hash, Default, Structural)]
pub struct Duration(pub u32);

/// A cap on the number of trips a journey may ride.
#[derive(Copy, Clone, Debug, PartialEq, Eq, PartialOrd, Ord, Hash, Default, Structural)]
pub struct Transfers(pub u8);

/// Errors from parsing a string into a [`SecondOfDay`].
#[derive(Debug, PartialEq, Eq)]
pub enum ParseSecondOfDayError {
    /// The input did not have the shape `HH:MM` or `HH:MM:SS`.
    BadFormat(String),
    /// A colon-separated component was not a base-10 `u32`, or the hour
    /// makes the total number of seconds overflow `u32`.
    BadField(String),
    /// Minutes or seconds outside `0..=59`.
    OutOfRange(u32),
}

/// Errors from narrowing a signed whole-second count into a [`Duration`].
#[derive(Debug, Clone, Copy, PartialEq, Eq, Structural)]
pub enum TryFromSignedDurationError {
    /// The source duration was negative.
    Negative,
    /// The whole-second part of the source exceeded `u32::MAX`.
    Overflow,
}

// ---------------------------------------------------------------------
// Decimal rendering
// ---------------------------------------------------------------------

/// The ASCII digit for `d` (`d < 10`).
pub open spec fn digit_char(d: nat) -> char {
    (48 + d) as char
}

/// Shortest base-10 rendering of `n`.
pub open spec fn decimal(n: nat) -> Seq<char>
    decreases n,
{
    if n < 10 {
        seq![digit_char(n)]
    } else {
        decimal(n / 10).push(digit_char(n % 10))
    }
}

/// Base-10 rendering of `n`, zero-padded to at least two digits.
pub open spec fn pad2(n: nat) -> Seq<char> {
    if n < 10 {
        seq!['0', digit_char(n)]
    } else {
        decimal(n)
    }
}

/// `HH:MM:SS` rendering of a second count; hours may exceed 23.
pub open spec fn hms_text(secs: nat) -> Seq<char> {
    pad2(secs / 3600) + seq![':'] + pad2((secs / 60) % 60) + seq![':'] + pad2(secs % 60)
}

/// Builds a `String` holding exactly the given characters.
#[verifier::external_body]
pub(crate) fn string_from_chars(v: &Vec<char>) -> (r: String)
    ensures
        r@ == v@,
{
    v.iter().collect()
}

/// Appends the decimal digits of `n` to `out`.
fn push_decimal(out: &mut Vec<char>, n: u32)
    ensures
        final(out)@ == old(out)@ + decimal(n as nat),
    decreases n,
{
    if n < 10 {
        let c = digit_of(n);
        out.push(c);
        assert(decimal(n as nat) == seq![digit_char(n as nat)]);
    } else {
        push_decimal(out, n / 10);
        let c = digit_of(n % 10);
        out.push(c);
        proof {
            let a = old(out)@;
            assert(decimal(n as nat) == decimal((n / 10) as nat).push(digit_char((n % 10) as nat)));
            assert(a + decimal((n / 10) as nat).push(digit_char((n % 10) as nat)) =~= (a + decimal(
                (n / 10) as nat,
            )).push(digit_char((n % 10) as nat)));
        }
    }
}

fn digit_of(d: u32) -> (c: char)
    requires
        d < 10,
    ensures
        c == digit_char(d as nat),
{
    if d == 0 {
        '0'
    } else if d == 1 {
        '1'
    } else if d == 2 {
        '2'
    } else if d == 3 {
        '3'
    } else if d == 4 {
        '4'
    } else if d == 5 {
        '5'
    } else if d == 6 {
        '6'
    } else if d == 7 {
        '7'
    } else if d == 8 {
        '8'
    } else {
        '9'
    }
}

/// Base-10 rendering of a `u32`.
pub fn u32_to_string(n: u32) -> (r: String)
    ensures
        r@ == decimal(n as nat),
{
    let mut v: Vec<char> = Vec::new();
    push_decimal(&mut v, n);
    assert(v@ =~= decimal(n as nat));
    string_from_chars(&v)
}

fn push_pad2(out: &mut Vec<char>, n: u32)
    ensures
        final(out)@ == old(out)@ + pad2(n as nat),
{
    if n < 10 {
        out.push('0');
        let c = digit_of(n);
        out.push(c);
        assert(old(out)@.push('0').push(c) =~= old(out)@ + seq!['0', digit_char(n as nat)]);
    } else {
        push_decimal(out, n);
    }
}

// ---------------------------------------------------------------------
// Parsing
// ---------------------------------------------------------------------

/// `c` is an ASCII decimal digit.
pub open spec fn is_digit(c: char) -> bool {
    '0' <= c && c <= '9'
}

/// The value of a non-empty run of ASCII digits.
pub open spec fn digits_value(s: Seq<char>) -> nat
    decreases s.len(),
{
    if s.len() == 0 {
        0
    } else {
        digits_value(s.drop_last()) * 10 + ((s.last() as nat) - 48) as nat
    }
}

/// The digits of a `u32` field, after the optional leading `+` that
/// `u32::from_str` accepts.
pub open spec fn field_digits(s: Seq<char>) -> Seq<char> {
    if s.len() > 0 && s[0] == '+' {
        s.drop_first()
    } else {
        s
    }
}

/// The outcome of `u32::from_str` on `s`: an optional `+`, then one or more
/// ASCII digits whose value fits in `u32`.
pub open spec fn parse_u32_spec(s: Seq<char>) -> Option<u32> {
    let d = field_digits(s);
    if d.len() > 0 && (forall|i: int| 0 <= i < d.len() ==> is_digit(#[trigger] d[i]))
        && digits_value(d) <= u32::MAX {
        Some(digits_value(d) as u32)
    } else {
        None
    }
}

/// The pieces of `s` between `:` separators, as `str::split(':')` yields
/// them (always at least one piece).
pub open spec fn split_colon(s: Seq<char>) -> Seq<Seq<char>>
    decreases s.len(),
{
    if s.len() == 0 {
        seq![Seq::<char>::empty()]
    } else {
        let p = split_colon(s.drop_last());
        if s.last() == ':' {
            p.push(Seq::<char>::empty())
        } else {
            p.update(p.len() - 1, p.last().push(s.last()))
        }
    }
}

proof fn lemma_split_colon_nonempty(s: Seq<char>)
    ensures
        split_colon(s).len() >= 1,
    decreases s.len(),
{
    if s.len() > 0 {
        lemma_split_colon_nonempty(s.drop_last());
    }
}

/// Outcome of parsing `HH:MM` or `HH:MM:SS` (hours unbounded, minutes and
/// seconds `0..=59`), with the error that the first failing check reports.
pub open spec fn parse_spec(s: Seq<char>) -> Result<u32, ParseErrorKind> {
    let parts = split_colon(s);
    if parts.len() < 2 || parts.len() > 3 {
        Err(ParseErrorKind::BadFormat(s))
    } else if parse_u32_spec(parts[0]) is None {
        Err(ParseErrorKind::BadField(parts[0]))
    } else if parse_u32_spec(parts[1]) is None {
        Err(ParseErrorKind::BadField(parts[1]))
    } else if parse_u32_spec(parts[1])->0 > 59 {
        Err(ParseErrorKind::OutOfRange(parse_u32_spec(parts[1])->0))
    } else if parts.len() == 3 && parse_u32_spec(parts[2]) is None {
        Err(ParseErrorKind::BadField(parts[2]))
    } else if parts.len() == 3 && parse_u32_spec(parts[2])->0 > 59 {
        Err(ParseErrorKind::OutOfRange(parse_u32_spec(parts[2])->0))
    } else {
        let h = parse_u32_spec(parts[0])->0 as int;
        let m = parse_u32_spec(parts[1])->0 as int;
        let sec = if parts.len() == 3 {
            parse_u32_spec(parts[2])->0 as int
        } else {
            0
        };
        if h * 3600 + m * 60 + sec > u32::MAX {
            Err(ParseErrorKind::BadField(parts[0]))
        } else {
            Ok((h * 3600 + m * 60 + sec) as u32)
        }
    }
}

/// The mathematical content of a [`ParseSecondOfDayError`].
pub enum ParseErrorKind {
    BadFormat(Seq<char>),
    BadField(Seq<char>),
    OutOfRange(u32),
}

impl ParseSecondOfDayError {
    /// The error with its text payload taken by view.
    pub open spec fn kind(&self) -> ParseErrorKind {
        match self {
            ParseSecondOfDayError::BadFormat(s) => ParseErrorKind::BadFormat(s@),
            ParseSecondOfDayError::BadField(s) => ParseErrorKind::BadField(s@),
            ParseSecondOfDayError::OutOfRange(v) => ParseErrorKind::OutOfRange(*v),
        }
    }
}

proof fn lemma_digits_value_push(s: Seq<char>, c: char)
    ensures
        digits_value(s.push(c)) == digits_value(s) * 10 + ((c as nat) - 48) as nat,
{
    assert(s.push(c).drop_last() =~= s);
}

/// `u32::from_str` on a slice of characters.
fn parse_u32_chars(s: &Vec<char>) -> (r: Option<u32>)
    ensures
        r == parse_u32_spec(s@),
{
    let n = s.len();
    let mut start: usize = 0;
    if n > 0 && s[0] == '+' {
        start = 1;
    }
    proof {
        let d = field_digits(s@);
        assert(d =~= s@.subrange(start as int, n as int));
    }
    if start >= n {
        return None;
    }
    let ghost d = s@.subrange(start as int, n as int);
    let mut acc: u64 = 0;
    let mut i: usize = start;
    while i < n
        invariant
            start <= i <= n,
            n == s@.len(),
            field_digits(s@) == d,
            d == s@.subrange(start as int, n as int),
            forall|j: int| start <= j < i ==> is_digit(#[trigger] s@[j]),
            acc == digits_value(s@.subrange(start as int, i as int)),
            acc <= u32::MAX,
        decreases n - i,
    {
        let c = s[i];
        if !('0' <= c && c <= '9') {
            proof {
                assert(field_digits(s@) =~= d);
                assert(d[i - start] == c);
                assert(!is_digit(d[i - start]));
            }
            return None;
        }
        let dv: u64 = (c as u64) - 48;
        proof {
            assert(s@.subrange(start as int, i + 1) =~= s@.subrange(start as int, i as int).push(c));
            lemma_digits_value_push(s@.subrange(start as int, i as int), c);
        }
        if acc > 429496729 || (acc == 429496729 && dv > 5) {
            // The value no longer fits in a `u32`; it only grows from here
            // if the remaining characters are digits.
            proof {
                assert(acc * 10 + dv > u32::MAX) by (nonlinear_arith)
                    requires acc > 429496729 || (acc == 429496729 && dv > 5);
            }
            let ok = all_digits_from(s, i + 1);
            proof {
                assert(field_digits(s@) =~= d);
                assert(digits_value(s@.subrange(start as int, i + 1)) == acc * 10 + dv);
                if ok {
                    assert(d =~= s@.subrange(start as int, n as int));
                    lemma_digits_value_grows(s@, start as int, i + 1, n as int);
                    assert(forall|j: int| 0 <= j < d.len() ==> is_digit(#[trigger] d[j])) by {
                        assert forall|j: int| 0 <= j < d.len() implies is_digit(#[trigger] d[j]) by {
                            assert(d[j] == s@[start + j]);
                        }
                    }
                } else {
                    let j = choose|j: int| i + 1 <= j < n && !is_digit(s@[j]);
                    assert(d[j - start] == s@[j]);
                }
            }
            return None;
        }
        acc = acc * 10 + dv;
        i = i + 1;
    }
    proof {
        assert(s@.subrange(start as int, n as int) =~= d);
        assert forall|j: int| 0 <= j < d.len() implies is_digit(#[trigger] d[j]) by {
            assert(d[j] == s@[start + j]);
        }
    }
    Some(acc as u32)
}

/// `digits_value` never decreases as more digits are appended.
proof fn lemma_digits_value_grows(s: Seq<char>, a: int, b: int, c: int)
    requires
        0 <= a <= b <= c <= s.len(),
        forall|j: int| b <= j < c ==> is_digit(#[trigger] s[j]),
    ensures
        digits_value(s.subrange(a, c)) >= digits_value(s.subrange(a, b)),
    decreases c - b,
{
    if c > b {
        lemma_digits_value_grows(s, a, b, c - 1);
        assert(s.subrange(a, c) =~= s.subrange(a, c - 1).push(s[c - 1]));
        lemma_digits_value_push(s.subrange(a, c - 1), s[c - 1]);
    }
}

fn all_digits_from(s: &Vec<char>, from: usize) -> (r: bool)
    requires
        from <= s@.len() + 1,
    ensures
        r <==> forall|j: int| from <= j < s@.len() ==> is_digit(#[trigger] s@[j]),
{
    let mut i = from;
    while i < s.len()
        invariant
            from <= i,
            forall|j: int| from <= j < i && j < s@.len() ==> is_digit(#[trigger] s@[j]),
        decreases s@.len() - i,
    {
        if !('0' <= s[i] && s[i] <= '9') {
            return false;
        }
        i = i + 1;
    }
    true
}

/// Splits the characters of `s` at every `:`.
fn split_colon_exec(s: &str) -> (parts: Vec<Vec<char>>)
    ensures
        parts@.len() == split_colon(s@).len(),
        forall|i: int| 0 <= i < parts@.len() ==> (#[trigger] parts@[i])@ == split_colon(s@)[i],
{
    let mut parts: Vec<Vec<char>> = Vec::new();
    parts.push(Vec::new());
    let ghost mut seen: Seq<char> = Seq::empty();
    assert(split_colon(seen) =~= seq![Seq::<char>::empty()]);
    for c in it: s.chars()
        invariant
            it.seq() == s@,
            seen == s@.take(it.index() as int),
            parts@.len() == split_colon(seen).len(),
            parts@.len() >= 1,
            forall|i: int| 0 <= i < parts@.len() ==> (#[trigger] parts@[i])@ == split_colon(seen)[i],
    {
        proof {
            assert(s@.take(it.index() as int + 1) =~= seen.push(c));
            assert(seen.push(c).drop_last() =~= seen);
        }
        if c == ':' {
            parts.push(Vec::new());
        } else {
            let last = parts.len() - 1;
            let mut piece = parts.pop().unwrap();
            piece.push(c);
            parts.push(piece);
            proof {
                assert(last == parts@.len() - 1);
            }
        }
        proof {
            seen = seen.push(c);
        }
    }
    proof {
        assert(seen =~= s@);
    }
    parts
}

/// Parse `HH:MM:SS` or `HH:MM` (seconds default to zero). Hours have no
/// upper bound beyond `u32` range; minutes and seconds must be `0..=59`.
pub fn parse_second_of_day(s: &str) -> (r: Result<SecondOfDay, ParseSecondOfDayError>)
    ensures
        match parse_spec(s@) {
            Ok(v) => r matches Ok(t) && t.0 == v,
            Err(k) => r matches Err(e) && e.kind() == k,
        },
{
    let parts = split_colon_exec(s);
    proof {
        lemma_split_colon_nonempty(s@);
    }
    if parts.len() < 2 || parts.len() > 3 {
        return Err(ParseSecondOfDayError::BadFormat(copy_str(s)));
    }
    let h = match parse_u32_chars(&parts[0]) {
        Some(v) => v,
        None => return Err(ParseSecondOfDayError::BadField(string_from_chars(&parts[0]))),
    };
    let m = match parse_u32_chars(&parts[1]) {
        Some(v) => v,
        None => return Err(ParseSecondOfDayError::BadField(string_from_chars(&parts[1]))),
    };
    if m > 59 {
        return Err(ParseSecondOfDayError::OutOfRange(m));
    }
    let sec: u32 = if parts.len() == 3 {
        match parse_u32_chars(&parts[2]) {
            Some(v) => {
                if v > 59 {
                    return Err(ParseSecondOfDayError::OutOfRange(v));
                }
                v
            },
            None => return Err(ParseSecondOfDayError::BadField(string_from_chars(&parts[2]))),
        }
    } else {
        0
    };
    if h > 1193046 || (h == 1193046 && m * 60 + sec > 1695) {
        proof {
            assert(h * 3600 + m * 60 + sec > u32::MAX) by (nonlinear_arith)
                requires h > 1193046 || (h == 1193046 && m * 60 + sec > 1695);
        }
        return Err(ParseSecondOfDayError::BadField(string_from_chars(&parts[0])));
    }
    proof {
        assert(h * 3600 + m * 60 + sec <= u32::MAX) by (nonlinear_arith)
            requires h <= 1193046, h == 1193046 ==> m * 60 + sec <= 1695, m <= 59, sec <= 59;
    }
    Ok(SecondOfDay(h * 3600 + m * 60 + sec))
}

impl std::str::FromStr for SecondOfDay {
    type Err = ParseSecondOfDayError;

    /// See [`parse_second_of_day`].
    fn from_str(s: &str) -> (r: Result<SecondOfDay, ParseSecondOfDayError>)
        ensures
            match parse_spec(s@) {
                Ok(v) => r matches Ok(t) && t.0 == v,
                Err(k) => r matches Err(e) && e.kind() == k,
            },
    {
        parse_second_of_day(s)
    }
}

/// Copies a string slice into an owned `String`.
fn copy_str(s: &str) -> (r: String)
    ensures
        r@ == s@,
{
    s.to_owned()
}

// ---------------------------------------------------------------------
// SecondOfDay
// ---------------------------------------------------------------------

impl SecondOfDay {
    /// Midnight.
    pub fn zero() -> (r: SecondOfDay)
        ensures
            r.0 == 0,
    {
        SecondOfDay(0)
    }

    /// Sentinel for "unreached": the latest representable time.
    pub fn max_value() -> (r: SecondOfDay)
        ensures
            r.0 == u32::MAX,
    {
        SecondOfDay(u32::MAX)
    }

    /// Construct from a raw seconds-since-midnight count.
    pub fn from_secs(s: u32) -> (r: Self)
        ensures
            r.0 == s,
    {
        SecondOfDay(s)
    }

    /// Construct from `(hours, minutes, seconds)`.
    pub fn hms(h: u32, m: u32, s: u32) -> (r: Self)
        requires
            h * 3600 + m * 60 + s <= u32::MAX,
        ensures
            r.0 == h * 3600 + m * 60 + s,
    {
        SecondOfDay(h * 3600 + m * 60 + s)
    }

    /// The underlying seconds-since-midnight count.
    pub fn as_secs(self) -> (r: u32)
        ensures
            r == self.0,
    {
        self.0
    }

    /// `(hours, minutes, seconds)` decomposition.
    pub fn as_hms(self) -> (r: (u32, u32, u32))
        ensures
            r.0 == self.0 / 3600,
            r.1 == (self.0 / 60) % 60,
            r.2 == self.0 % 60,
            r.1 < 60,
            r.2 < 60,
    {
        (self.0 / 3600, (self.0 / 60) % 60, self.0 % 60)
    }

    /// Departure times from `start` (inclusive) to `end` (exclusive) every
    /// `step` seconds; a `step` of zero counts as one.
    pub fn every(start: SecondOfDay, end: SecondOfDay, step: u32) -> (r: Vec<SecondOfDay>)
        ensures
            forall|i: int|
                0 <= i < r@.len() ==> (#[trigger] r@[i]).0 == start.0 + i * step_of(step),
            forall|i: int| 0 <= i < r@.len() ==> (#[trigger] r@[i]).0 < end.0,
            start.0 + r@.len() * step_of(step) >= end.0,
    {
        let st: u32 = if step == 0 {
            1
        } else {
            step
        };
        let mut out: Vec<SecondOfDay> = Vec::new();
        let mut cur: u64 = start.0 as u64;
        assert(out@.len() * st == 0) by (nonlinear_arith)
            requires
                out@.len() == 0,
        ;
        while cur < end.0 as u64
            invariant
                st == step_of(step),
                st >= 1,
                cur == start.0 + out@.len() * st,
                forall|i: int| 0 <= i < out@.len() ==> (#[trigger] out@[i]).0 == start.0 + i * st,
                forall|i: int| 0 <= i < out@.len() ==> (#[trigger] out@[i]).0 < end.0,
            decreases end.0 as int - cur as int + st as int,
        {
            out.push(SecondOfDay(cur as u32));
            proof {
                assert(cur + st == start.0 + (out@.len() - 1) * st + st);
                assert(start.0 + (out@.len() - 1) * st + st == start.0 + out@.len() * st)
                    by (nonlinear_arith);
            }
            let ghost old_cur = cur;
            cur = cur + (st as u64);
            assert(cur > old_cur);
        }
        out
    }

    /// `self + d`, saturating at [`SecondOfDay::MAX`].
    pub fn plus(self, d: Duration) -> (r: SecondOfDay)
        ensures
            r.0 == sat_add(self.0, d.0),
    {
        SecondOfDay(self.0.saturating_add(d.0))
    }

    /// `self - d`, saturating at midnight.
    pub fn minus(self, d: Duration) -> (r: SecondOfDay)
        ensures
            r.0 == if self.0 >= d.0 { self.0 - d.0 } else { 0 },
    {
        SecondOfDay(self.0.saturating_sub(d.0))
    }

    /// The [`Duration`] from `other` to `self`, zero if `self < other`.
    pub fn since(self, other: SecondOfDay) -> (r: Duration)
        ensures
            r.0 == if self.0 >= other.0 { self.0 - other.0 } else { 0 },
    {
        Duration(self.0.saturating_sub(other.0))
    }

    /// `HH:MM:SS`, zero-padded to two digits per field; hours may exceed 23.
    pub fn to_string(&self) -> (r: String)
        ensures
            r@ == hms_text(self.0 as nat),
    {
        let (h, m, s) = self.as_hms();
        let mut v: Vec<char> = Vec::new();
        push_pad2(&mut v, h);
        v.push(':');
        push_pad2(&mut v, m);
        v.push(':');
        push_pad2(&mut v, s);
        assert(v@ =~= hms_text(self.0 as nat));
        string_from_chars(&v)
    }

    /// Parse `HH:MM:SS` or `HH:MM`. See [`parse_second_of_day`].
    pub fn parse(s: &str) -> (r: Result<SecondOfDay, ParseSecondOfDayError>)
        ensures
            match parse_spec(s@) {
                Ok(v) => r matches Ok(t) && t.0 == v,
                Err(k) => r matches Err(e) && e.kind() == k,
            },
    {
        parse_second_of_day(s)
    }
}

/// `a + b` saturating at `u32::MAX`.
pub open spec fn sat_add(a: u32, b: u32) -> u32 {
    if a + b > u32::MAX {
        u32::MAX
    } else {
        (a + b) as u32
    }
}

/// The effective step of [`SecondOfDay::every`].
pub open spec fn step_of(step: u32) -> u32 {
    if step == 0 {
        1
    } else {
        step
    }
}

// ---------------------------------------------------------------------
// Duration, Transfers
// ---------------------------------------------------------------------

impl Duration {
    /// Zero seconds.
    pub fn zero() -> (r: Duration)
        ensures
            r.0 == 0,
    {
        Duration(0)
    }

    /// The longest representable duration.
    pub fn max_value() -> (r: Duration)
        ensures
            r.0 == u32::MAX,
    {
        Duration(u32::MAX)
    }

    /// Construct from a raw seconds count.
    pub fn from_secs(s: u32) -> (r: Self)
        ensures
            r.0 == s,
    {
        Duration(s)
    }

    /// The underlying seconds count.
    pub fn as_secs(self) -> (r: u32)
        ensures
            r == self.0,
    {
        self.0
    }

    /// `self + other`, saturating at [`Duration::MAX`].
    pub fn plus(self, other: Duration) -> (r: Duration)
        ensures
            r.0 == sat_add(self.0, other.0),
    {
        Duration(self.0.saturating_add(other.0))
    }

    /// Narrow a signed whole-second count: negative counts and counts past
    /// `u32::MAX` are refused.
    pub fn from_whole_secs(secs: i64) -> (r: Result<Duration, TryFromSignedDurationError>)
        ensures
            secs < 0 ==> r == Err::<Duration, _>(TryFromSignedDurationError::Negative),
            secs > u32::MAX ==> r == Err::<Duration, _>(TryFromSignedDurationError::Overflow),
            0 <= secs <= u32::MAX ==> r == Ok::<_, TryFromSignedDurationError>(
                Duration(secs as u32),
            ),
    {
        if secs < 0 {
            Err(TryFromSignedDurationError::Negative)
        } else if secs > 4294967295i64 {
            Err(TryFromSignedDurationError::Overflow)
        } else {
            Ok(Duration(secs as u32))
        }
    }

    /// The decimal number of seconds.
    pub fn to_string(&self) -> (r: String)
        ensures
            r@ == decimal(self.0 as nat),
    {
        u32_to_string(self.0)
    }
}

impl Transfers {
    /// No transfers allowed.
    pub fn zero() -> (r: Transfers)
        ensures
            r.0 == 0,
    {
        Transfers(0)
    }

    /// The largest representable cap.
    pub fn max_value() -> (r: Transfers)
        ensures
            r.0 == u8::MAX,
    {
        Transfers(u8::MAX)
    }

    /// Construct from a raw `u8`.
    pub fn new(n: u8) -> (r: Self)
        ensures
            r.0 == n,
    {
        Transfers(n)
    }

    /// The underlying `u8`.
    pub fn get(self) -> (r: u8)
        ensures
            r == self.0,
    {
        self.0
    }

    /// The decimal cap.
    pub fn to_string(&self) -> (r: String)
        ensures
            r@ == decimal(self.0 as nat),
    {
        u32_to_string(self.0 as u32)
    }
}


// ---------------------------------------------------------------------
// Display and parsing agree
// ---------------------------------------------------------------------

/// `s` is a run of ASCII digits.
pub open spec fn all_digits(s: Seq<char>) -> bool {
    forall|i: int| 0 <= i < s.len() ==> is_digit(#[trigger] s[i])
}

proof fn lemma_decimal_digits(n: nat)
    ensures
        all_digits(decimal(n)),
        decimal(n).len() >= 1,
        digits_value(decimal(n)) == n,
    decreases n,
{
    if n < 10 {
        assert(decimal(n) == seq![digit_char(n)]);
        assert(decimal(n).drop_last() =~= Seq::<char>::empty());
        assert(digit_char(n) as nat == 48 + n);
        assert(digits_value(decimal(n)) == digits_value(decimal(n).drop_last()) * 10 + ((decimal(n).last() as nat) - 48) as nat);
    } else {
        lemma_decimal_digits(n / 10);
        assert(digit_char(n % 10) as nat == 48 + n % 10);
        let d = decimal(n / 10);
        assert(decimal(n) == d.push(digit_char(n % 10)));
        lemma_digits_value_push(d, digit_char(n % 10));
        assert forall|i: int| 0 <= i < decimal(n).len() implies is_digit(#[trigger] decimal(n)[i]) by {
            if i < d.len() {
                assert(decimal(n)[i] == d[i]);
            }
        }
    }
}

proof fn lemma_pad2_digits(n: nat)
    ensures
        all_digits(pad2(n)),
        pad2(n).len() >= 1,
        digits_value(pad2(n)) == n,
{
    if n < 10 {
        let p = seq!['0', digit_char(n)];
        assert(p.drop_last() =~= seq!['0']);
        assert(seq!['0'].drop_last() =~= Seq::<char>::empty());
        assert('0' as nat == 48);
        assert(digits_value(seq!['0']) == digits_value(Seq::<char>::empty()) * 10 + (('0' as nat) - 48) as nat);
        assert(digits_value(seq!['0']) == 0);
        assert(digit_char(n) as nat == 48 + n);
    } else {
        lemma_decimal_digits(n);
    }
}

/// A run of digits is one `u32` field when its value fits.
proof fn lemma_parse_digits(s: Seq<char>)
    requires
        all_digits(s),
        s.len() >= 1,
        digits_value(s) <= u32::MAX,
    ensures
        parse_u32_spec(s) == Some(digits_value(s) as u32),
{
    assert(is_digit(s[0]));
    assert(field_digits(s) == s);
}

/// With no `:` in `b`, the split of `a + b` is the split of `a` with `b`
/// appended to its last piece.
proof fn lemma_split_append(a: Seq<char>, b: Seq<char>)
    requires
        forall|i: int| 0 <= i < b.len() ==> b[i] != ':',
    ensures
        split_colon(a + b) == split_colon(a).update(split_colon(a).len() - 1, split_colon(a).last() + b),
    decreases b.len(),
{
    lemma_split_colon_nonempty(a);
    if b.len() == 0 {
        assert(a + b =~= a);
        assert(split_colon(a).last() + b =~= split_colon(a).last());
        assert(split_colon(a).update(split_colon(a).len() - 1, split_colon(a).last()) =~= split_colon(a));
    } else {
        let b0 = b.drop_last();
        lemma_split_append(a, b0);
        assert((a + b).drop_last() =~= a + b0);
        assert((a + b).last() == b.last());
        let p = split_colon(a + b0);
        lemma_split_colon_nonempty(a + b0);
        assert(split_colon(a + b) == p.update(p.len() - 1, p.last().push(b.last())));
        assert(p.last() == split_colon(a).last() + b0);
        assert((split_colon(a).last() + b0).push(b.last()) =~= split_colon(a).last() + b);
        assert(split_colon(a + b) =~= split_colon(a).update(split_colon(a).len() - 1, split_colon(a).last() + b));
    }
}

/// The split of `a` followed by `:`.
proof fn lemma_split_colon_sep(a: Seq<char>)
    ensures
        split_colon(a.push(':')) == split_colon(a).push(Seq::<char>::empty()),
{
    assert(a.push(':').drop_last() =~= a);
}

proof fn lemma_no_colon(s: Seq<char>)
    requires
        all_digits(s),
    ensures
        forall|i: int| 0 <= i < s.len() ==> s[i] != ':',
{
    assert forall|i: int| 0 <= i < s.len() implies s[i] != ':' by {
        assert(is_digit(s[i]));
    }
}

/// Splitting `x:y:z` with colon-free pieces gives the three pieces.
proof fn lemma_split_three(x: Seq<char>, y: Seq<char>, z: Seq<char>)
    requires
        all_digits(x),
        all_digits(y),
        all_digits(z),
    ensures
        split_colon(x + seq![':'] + y + seq![':'] + z) == seq![x, y, z],
{
    lemma_no_colon(x);
    lemma_no_colon(y);
    lemma_no_colon(z);
    let e = Seq::<char>::empty();
    lemma_split_append(e, x);
    assert(e + x =~= x);
    assert(split_colon(e) == seq![e]);
    assert(split_colon(x) =~= seq![x]);
    lemma_split_colon_sep(x);
    assert(x + seq![':'] =~= x.push(':'));
    assert(split_colon(x + seq![':']) =~= seq![x, e]);
    lemma_split_append(x + seq![':'], y);
    let xy = x + seq![':'] + y;
    assert(split_colon(xy) =~= seq![x, y]);
    lemma_split_colon_sep(xy);
    assert(xy + seq![':'] =~= xy.push(':'));
    assert(split_colon(xy + seq![':']) =~= seq![x, y, e]);
    lemma_split_append(xy + seq![':'], z);
    assert(split_colon(xy + seq![':'] + z) =~= seq![x, y, z]);
}

/// Rendering a time of day and parsing the text back gives the same time:
/// `HH:MM:SS` as [`SecondOfDay::to_string`] writes it is always accepted by
/// [`SecondOfDay::parse`], and yields the value that was rendered.
pub proof fn lemma_display_parse_round_trip(t: u32)
    ensures
        parse_spec(hms_text(t as nat)) == Ok::<u32, ParseErrorKind>(t),
{
    let n = t as nat;
    let h = n / 3600;
    let m = (n / 60) % 60;
    let sec = n % 60;
    lemma_pad2_digits(h);
    lemma_pad2_digits(m);
    lemma_pad2_digits(sec);
    lemma_split_three(pad2(h), pad2(m), pad2(sec));
    assert(n == h * 3600 + m * 60 + sec) by (nonlinear_arith)
        requires
            h == n / 3600,
            m == (n / 60) % 60,
            sec == n % 60,
    {
    }
    assert(h <= u32::MAX);
    lemma_parse_digits(pad2(h));
    lemma_parse_digits(pad2(m));
    lemma_parse_digits(pad2(sec));
    let parts = split_colon(hms_text(n));
    assert(parts == seq![pad2(h), pad2(m), pad2(sec)]);
}

/// Building a time from `(hours, minutes, seconds)` with minutes and
/// seconds below 60 and taking it apart again gives the same three fields:
/// [`SecondOfDay::as_hms`] undoes [`SecondOfDay::hms`].
pub proof fn lemma_hms_round_trip(h: nat, m: nat, s: nat)
    requires
        m < 60,
        s < 60,
    ensures
        (h * 3600 + m * 60 + s) / 3600 == h,
        ((h * 3600 + m * 60 + s) / 60) % 60 == m,
        (h * 3600 + m * 60 + s) % 60 == s,
{
    let t = h * 3600 + m * 60 + s;
    assert(t / 3600 == h) by (nonlinear_arith)
        requires
            t == h * 3600 + m * 60 + s,
            m < 60,
            s < 60,
    {
    }
    assert(t / 60 == h * 60 + m) by (nonlinear_arith)
        requires
            t == h * 3600 + m * 60 + s,
            s < 60,
    {
    }
    assert((h * 60 + m) % 60 == m) by (nonlinear_arith)
        requires
            m < 60,
    {
    }
    assert(t % 60 == s) by (nonlinear_arith)
        requires
            t == h * 3600 + m * 60 + s,
            s < 60,
    {
    }
}


/// `jiff::civil::Time`, a wall-clock time of day.
#[verifier::external_type_specification]
#[verifier::external_body]
pub struct ExCivilTime(jiff::civil::Time);

/// `jiff::SignedDuration`, a signed length of time.
#[verifier::external_type_specification]
#[verifier::external_body]
pub struct ExSignedDuration(jiff::SignedDuration);

/// `jiff::Error`, jiff's error type.
#[verifier::external_type_specification]
#[verifier::external_body]
pub struct ExJiffError(jiff::Error);

/// The hour of a wall-clock time, as `jiff::civil::Time::hour` reports it.
pub uninterp spec fn civil_hour_of(t: jiff::civil::Time) -> i8;

/// The minute of a wall-clock time, as `jiff::civil::Time::minute` reports it.
pub uninterp spec fn civil_minute_of(t: jiff::civil::Time) -> i8;

/// The second of a wall-clock time, as `jiff::civil::Time::second` reports it.
pub uninterp spec fn civil_second_of(t: jiff::civil::Time) -> i8;

/// The whole seconds of a signed duration, as
/// `jiff::SignedDuration::as_secs` reports them.
pub uninterp spec fn signed_secs_of(d: jiff::SignedDuration) -> i64;

/// The sub-second nanoseconds of a signed duration, as
/// `jiff::SignedDuration::subsec_nanos` reports them.
pub uninterp spec fn signed_nanos_of(d: jiff::SignedDuration) -> i32;

/// `jiff::civil::Time::hour`, which jiff documents to lie in `0..=23`.
#[verifier::external_body]
fn civil_hour(t: &jiff::civil::Time) -> (r: i8)
    ensures
        r == civil_hour_of(*t),
        0 <= r <= 23,
{
    t.hour()
}

/// `jiff::civil::Time::minute`, which jiff documents to lie in `0..=59`.
#[verifier::external_body]
fn civil_minute(t: &jiff::civil::Time) -> (r: i8)
    ensures
        r == civil_minute_of(*t),
        0 <= r <= 59,
{
    t.minute()
}

/// `jiff::civil::Time::second`, which jiff documents to lie in `0..=59`.
#[verifier::external_body]
fn civil_second(t: &jiff::civil::Time) -> (r: i8)
    ensures
        r == civil_second_of(*t),
        0 <= r <= 59,
{
    t.second()
}

/// `jiff::civil::Time::new` with no sub-second part: jiff returns a time
/// exactly when the hour is in `0..=23` and the minute and second in
/// `0..=59`, an error otherwise; the time it returns has the given hour,
/// minute and second.
#[verifier::external_body]
fn civil_time_new(hour: i8, minute: i8, second: i8) -> (r: Result<jiff::civil::Time, jiff::Error>)
    ensures
        r is Ok <==> (0 <= hour <= 23 && 0 <= minute <= 59 && 0 <= second <= 59),
        r matches Ok(t) ==> civil_hour_of(t) == hour && civil_minute_of(t) == minute && civil_second_of(t) == second,
{
    jiff::civil::Time::new(hour, minute, second, 0)
}

/// `jiff::SignedDuration::as_secs`: the whole seconds of `d`.
#[verifier::external_body]
fn signed_whole_secs(d: &jiff::SignedDuration) -> (r: i64)
    ensures
        r == signed_secs_of(*d),
{
    d.as_secs()
}

/// `jiff::SignedDuration::is_negative`: jiff's source answers whether the
/// whole seconds or the sub-second nanoseconds are negative.
#[verifier::external_body]
fn signed_is_negative(d: &jiff::SignedDuration) -> (r: bool)
    ensures
        r == (signed_secs_of(*d) < 0 || signed_nanos_of(*d) < 0),
{
    d.is_negative()
}

/// `jiff::SignedDuration::from_secs`: a duration of `secs` whole seconds
/// and no sub-second part.
#[verifier::external_body]
fn signed_from_secs(secs: i64) -> (r: jiff::SignedDuration)
    ensures
        signed_secs_of(r) == secs,
        signed_nanos_of(r) == 0,
{
    jiff::SignedDuration::from_secs(secs)
}

/// The second of the day at `h:m:s`.
pub open spec fn clock_seconds(h: int, m: int, s: int) -> int {
    h * 3600 + m * 60 + s
}

impl SecondOfDay {
    /// The second of the day of a wall-clock time: `hour * 3600 + minute *
    /// 60 + second`, sub-seconds dropped.
    pub fn from_civil_time(t: jiff::civil::Time) -> (r: SecondOfDay)
        ensures
            r.0 == clock_seconds(civil_hour_of(t) as int, civil_minute_of(t) as int, civil_second_of(t) as int),
            r.0 < 86400,
    {
        let h = civil_hour(&t);
        let m = civil_minute(&t);
        let s = civil_second(&t);
        let r = SecondOfDay((h as u32) * 3600 + (m as u32) * 60 + (s as u32));
        assert(r.0 == clock_seconds(h as int, m as int, s as int));
        r
    }

    /// The wall-clock time of this second of the day, through `jiff`: the
    /// hour count `self / 3600`, narrowed to `i8` as the bits fall, must
    /// land in `0..=23`, so `24:00:00` and later fail as jiff refuses them.
    pub fn to_civil_time(self) -> (r: Result<jiff::civil::Time, jiff::Error>)
        ensures
            r is Ok <==> 0 <= ((self.0 / 3600) as i8) <= 23,
            r matches Ok(t) ==> civil_hour_of(t) == ((self.0 / 3600) as i8) && civil_minute_of(t) == ((self.0 / 60) % 60) as i8
                && civil_second_of(t) == (self.0 % 60) as i8,
    {
        let (h, m, s) = self.as_hms();
        civil_time_new(h as i8, m as i8, s as i8)
    }
}

/// What [`Duration::from_whole_secs`] gives for `secs`.
pub open spec fn whole_secs_result(secs: int) -> Result<Duration, TryFromSignedDurationError> {
    if secs < 0 {
        Err(TryFromSignedDurationError::Negative)
    } else if secs > u32::MAX {
        Err(TryFromSignedDurationError::Overflow)
    } else {
        Ok(Duration(secs as u32))
    }
}

/// What [`Duration::from_signed`] gives for a duration of `secs` whole
/// seconds and `nanos` sub-second nanoseconds: refused as negative when
/// either part is negative, else as [`whole_secs_result`] says.
pub open spec fn signed_result(secs: int, nanos: int) -> Result<Duration, TryFromSignedDurationError> {
    if secs < 0 || nanos < 0 {
        Err(TryFromSignedDurationError::Negative)
    } else {
        whole_secs_result(secs)
    }
}

impl Duration {
    /// Narrows a `jiff` duration: a negative duration (even one of less
    /// than a second) is refused, and otherwise its whole seconds go
    /// through [`Duration::from_whole_secs`], so values past `u32::MAX`
    /// seconds are refused and sub-seconds dropped.
    pub fn from_signed(d: jiff::SignedDuration) -> (r: Result<Duration, TryFromSignedDurationError>)
        ensures
            r == signed_result(signed_secs_of(d) as int, signed_nanos_of(d) as int),
    {
        if signed_is_negative(&d) {
            return Err(TryFromSignedDurationError::Negative);
        }
        let secs = signed_whole_secs(&d);
        Duration::from_whole_secs(secs)
    }

    /// This length as a `jiff` duration of the same whole seconds and no
    /// sub-second part.
    pub fn to_signed(self) -> (r: jiff::SignedDuration)
        ensures
            signed_secs_of(r) == self.0 as i64,
            signed_nanos_of(r) == 0,
    {
        signed_from_secs(self.0 as i64)
    }
}


// ---------------------------------------------------------------------
// Conversions and operators
// ---------------------------------------------------------------------

impl From<u32> for SecondOfDay {
    fn from(s: u32) -> (r: SecondOfDay) {
        SecondOfDay(s)
    }
}

impl vstd::std_specs::convert::FromSpecImpl<u32> for SecondOfDay {
    open spec fn obeys_from_spec() -> bool {
        true
    }

    open spec fn from_spec(v: u32) -> SecondOfDay {
        SecondOfDay(v)
    }
}

impl From<u32> for Duration {
    fn from(s: u32) -> (r: Duration) {
        Duration(s)
    }
}

impl vstd::std_specs::convert::FromSpecImpl<u32> for Duration {
    open spec fn obeys_from_spec() -> bool {
        true
    }

    open spec fn from_spec(v: u32) -> Duration {
        Duration(v)
    }
}

impl From<u8> for Transfers {
    fn from(n: u8) -> (r: Transfers) {
        Transfers(n)
    }
}

impl vstd::std_specs::convert::FromSpecImpl<u8> for Transfers {
    open spec fn obeys_from_spec() -> bool {
        true
    }

    open spec fn from_spec(v: u8) -> Transfers {
        Transfers(v)
    }
}

/// `SecondOfDay + Duration` advances the timestamp, saturating.
impl std::ops::Add<Duration> for SecondOfDay {
    type Output = SecondOfDay;

    fn add(self, d: Duration) -> (r: SecondOfDay) {
        self.plus(d)
    }
}

impl vstd::std_specs::ops::AddSpecImpl<Duration> for SecondOfDay {
    open spec fn obeys_add_spec() -> bool {
        true
    }

    open spec fn add_req(self, rhs: Duration) -> bool {
        true
    }

    open spec fn add_spec(self, rhs: Duration) -> SecondOfDay {
        SecondOfDay(sat_add(self.0, rhs.0))
    }
}

/// `SecondOfDay - SecondOfDay` is the [`Duration`] between them, zero when
/// `self` is the earlier one.
impl std::ops::Sub<SecondOfDay> for SecondOfDay {
    type Output = Duration;

    fn sub(self, other: SecondOfDay) -> (r: Duration) {
        self.since(other)
    }
}

impl vstd::std_specs::ops::SubSpecImpl<SecondOfDay> for SecondOfDay {
    open spec fn obeys_sub_spec() -> bool {
        true
    }

    open spec fn sub_req(self, rhs: SecondOfDay) -> bool {
        true
    }

    open spec fn sub_spec(self, rhs: SecondOfDay) -> Duration {
        Duration(if self.0 >= rhs.0 { (self.0 - rhs.0) as u32 } else { 0 })
    }
}

/// `SecondOfDay - Duration` rewinds the timestamp, saturating at midnight.
impl std::ops::Sub<Duration> for SecondOfDay {
    type Output = SecondOfDay;

    fn sub(self, d: Duration) -> (r: SecondOfDay) {
        self.minus(d)
    }
}

impl vstd::std_specs::ops::SubSpecImpl<Duration> for SecondOfDay {
    open spec fn obeys_sub_spec() -> bool {
        true
    }

    open spec fn sub_req(self, rhs: Duration) -> bool {
        true
    }

    open spec fn sub_spec(self, rhs: Duration) -> SecondOfDay {
        SecondOfDay(if self.0 >= rhs.0 { (self.0 - rhs.0) as u32 } else { 0 })
    }
}

/// `Duration + Duration`, saturating.
impl std::ops::Add<Duration> for Duration {
    type Output = Duration;

    fn add(self, o: Duration) -> (r: Duration) {
        self.plus(o)
    }
}

impl vstd::std_specs::ops::AddSpecImpl<Duration> for Duration {
    open spec fn obeys_add_spec() -> bool {
        true
    }

    open spec fn add_req(self, rhs: Duration) -> bool {
        true
    }

    open spec fn add_spec(self, rhs: Duration) -> Duration {
        Duration(sat_add(self.0, rhs.0))
    }
}

/// The second of the day of a wall-clock time; see
/// [`SecondOfDay::from_civil_time`].
impl From<jiff::civil::Time> for SecondOfDay {
    fn from(t: jiff::civil::Time) -> (r: SecondOfDay) {
        SecondOfDay::from_civil_time(t)
    }
}

impl vstd::std_specs::convert::FromSpecImpl<jiff::civil::Time> for SecondOfDay {
    open spec fn obeys_from_spec() -> bool {
        true
    }

    open spec fn from_spec(v: jiff::civil::Time) -> SecondOfDay {
        SecondOfDay(
            clock_seconds(
                civil_hour_of(v) as int,
                civil_minute_of(v) as int,
                civil_second_of(v) as int,
            ) as u32,
        )
    }
}

/// Narrowing a `jiff` duration; see [`Duration::from_signed`].
impl TryFrom<jiff::SignedDuration> for Duration {
    type Error = TryFromSignedDurationError;

    fn try_from(d: jiff::SignedDuration) -> (r: Result<Duration, TryFromSignedDurationError>) {
        Duration::from_signed(d)
    }
}

impl vstd::std_specs::convert::TryFromSpecImpl<jiff::SignedDuration> for Duration {
    open spec fn obeys_try_from_spec() -> bool {
        true
    }

    open spec fn try_from_spec(v: jiff::SignedDuration) -> Result<Duration, TryFromSignedDurationError> {
        signed_result(signed_secs_of(v) as int, signed_nanos_of(v) as int)
    }
}

} // verus!
