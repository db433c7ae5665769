//! Canonical text form of a wall-clock time.
//!
//! The grammar is `HH:MM:SS` or `HH:MM:SS.FFFFFF`: two zero-padded digits
//! for each clock component and, only when the microsecond fraction is not
//! zero, a `.` followed by exactly six zero-padded digits of microseconds.
//! Parsing accepts both forms, with fields of any digit count, and checks
//! that every field is in range for a wall clock.

use vstd::prelude::*;

use crate::WallClockTime;

verus! {

/// Why a string failed to parse as a wall-clock time.
#[derive(Clone, Copy, PartialEq, Eq, Structural, Debug)]
pub enum ParseError {
    /// More than one `.` in the input.
    TooManySeparators,
    /// The fractional segment is not a digit run naming under a second of
    /// microseconds.
    InvalidMicroseconds,
    /// The clock segment does not split on `:` into exactly three fields.
    InvalidHms,
    /// The hours field is not a digit run naming an hour under 24.
    InvalidHours,
    /// The minutes field is not a digit run naming a minute under 60.
    InvalidMinutes,
    /// The seconds field is not a digit run naming a second under 60.
    InvalidSeconds,
}

impl ParseError {
    /// The human-readable reason carried by this error.
    pub open spec fn spec_message(self) -> Seq<char> {
        match self {
            ParseError::TooManySeparators => "Only one `.` allowed in wall-clock times"@,
            ParseError::InvalidMicroseconds => "Invalid microseconds"@,
            ParseError::InvalidHms => "Invalid HH:MM:SS specified"@,
            ParseError::InvalidHours => "Invalid HH"@,
            ParseError::InvalidMinutes => "Invalid MM"@,
            ParseError::InvalidSeconds => "Invalid SS"@,
        }
    }

    /// A human-readable description of the parse failure.
    pub fn message(&self) -> (r: &'static str)
        ensures
            r@ == self.spec_message(),
    {
        match self {
            ParseError::TooManySeparators => "Only one `.` allowed in wall-clock times",
            ParseError::InvalidMicroseconds => "Invalid microseconds",
            ParseError::InvalidHms => "Invalid HH:MM:SS specified",
            ParseError::InvalidHours => "Invalid HH",
            ParseError::InvalidMinutes => "Invalid MM",
            ParseError::InvalidSeconds => "Invalid SS",
        }
    }
}

/// Whether `c` is a decimal digit.
pub open spec fn is_digit(c: char) -> bool {
    '0' as int <= c as int <= '9' as int
}

/// The value of the decimal digit `c`.
pub open spec fn digit_val(c: char) -> int {
    c as int - '0' as int
}

/// Whether every character of `s` is a decimal digit.
pub open spec fn all_digits(s: Seq<char>) -> bool {
    forall|i: int| 0 <= i < s.len() ==> #[trigger] is_digit(s[i])
}

/// The number named by the digit run `s`, read in base ten.
pub open spec fn dec_val(s: Seq<char>) -> int
    decreases s.len(),
{
    if s.len() == 0 {
        0
    } else {
        10 * dec_val(s.drop_last()) + digit_val(s.last())
    }
}

/// The index of the first occurrence of `c` in `s`, or `s.len()` if `c`
/// does not occur.
pub open spec fn find_first(s: Seq<char>, c: char) -> int
    decreases s.len(),
{
    if s.len() == 0 {
        0
    } else if s[0] == c {
        0
    } else {
        1 + find_first(s.subrange(1, s.len() as int), c)
    }
}

/// Whether `c` occurs anywhere in `s`.
pub open spec fn has_char(s: Seq<char>, c: char) -> bool {
    find_first(s, c) < s.len()
}

/// Whether `s` is a well-formed field: a nonempty digit run whose value is
/// under `bound`.
pub open spec fn field_ok(s: Seq<char>, bound: int) -> bool {
    s.len() > 0 && all_digits(s) && dec_val(s) < bound
}

/// What parsing a clock segment (the part before any `.`) yields, given the
/// already-parsed microsecond fraction `us`: either the seconds-since-midnight
/// and microsecond pair, or the reason the segment is rejected.
pub open spec fn hms_outcome(h: Seq<char>, us: int) -> Result<(int, int), ParseError> {
    let m = h.len() as int;
    let c1 = find_first(h, ':');
    let c2 = c1 + 1 + find_first(h.subrange(c1 + 1, m), ':');
    if c1 == m || c2 == m || has_char(h.subrange(c2 + 1, m), ':') {
        Err(ParseError::InvalidHms)
    } else if !field_ok(h.subrange(0, c1), 24) {
        Err(ParseError::InvalidHours)
    } else if !field_ok(h.subrange(c1 + 1, c2), 60) {
        Err(ParseError::InvalidMinutes)
    } else if !field_ok(h.subrange(c2 + 1, m), 60) {
        Err(ParseError::InvalidSeconds)
    } else {
        Ok(
            (
                dec_val(h.subrange(0, c1)) * 3600 + dec_val(h.subrange(c1 + 1, c2)) * 60 + dec_val(
                    h.subrange(c2 + 1, m),
                ),
                us,
            ),
        )
    }
}

/// What parsing `s` yields: the seconds-since-midnight and microsecond pair
/// of the time it names, or the reason it is rejected. The input splits at
/// its only `.` (if any) into a clock segment and a microsecond fraction.
pub open spec fn parse_outcome(s: Seq<char>) -> Result<(int, int), ParseError> {
    let n = s.len() as int;
    let dot = find_first(s, '.');
    if dot < n && has_char(s.subrange(dot + 1, n), '.') {
        Err(ParseError::TooManySeparators)
    } else if dot < n && !field_ok(s.subrange(dot + 1, n), 1_000_000) {
        Err(ParseError::InvalidMicroseconds)
    } else {
        hms_outcome(
            s.subrange(0, dot),
            if dot < n {
                dec_val(s.subrange(dot + 1, n))
            } else {
                0
            },
        )
    }
}

/// `find_first` returns exactly the index of the first occurrence.
proof fn lemma_find_first_is(s: Seq<char>, c: char, i: int)
    requires
        0 <= i <= s.len(),
        forall|j: int| 0 <= j < i ==> s[j] != c,
        i < s.len() ==> s[i] == c,
    ensures
        find_first(s, c) == i,
    decreases s.len(),
{
    if s.len() == 0 {
    } else if s[0] == c {
        assert(i == 0);
    } else {
        let t = s.subrange(1, s.len() as int);
        assert(forall|j: int| 0 <= j < i - 1 ==> t[j] != c);
        lemma_find_first_is(t, c, i - 1);
    }
}

/// Scan `s` between `from` and `to` for the first occurrence of `c`.
fn scan_char(s: &str, from: usize, to: usize, c: char) -> (r: usize)
    requires
        from <= to <= s@.len(),
    ensures
        from <= r <= to,
        r - from == find_first(s@.subrange(from as int, to as int), c),
        r < to ==> s@[r as int] == c,
        forall|j: int| from <= j < r ==> s@[j] != c,
{
    let mut i: usize = from;
    loop
        invariant
            from <= i <= to <= s@.len(),
            forall|j: int| from <= j < i ==> s@[j] != c,
        ensures
            from <= i <= to,
            forall|j: int| from <= j < i ==> s@[j] != c,
            i < to ==> s@[i as int] == c,
        decreases to - i,
    {
        if i == to {
            break ;
        }
        if s.get_char(i) == c {
            break ;
        }
        i = i + 1;
    }
    proof {
        let sub = s@.subrange(from as int, to as int);
        assert forall|j: int| 0 <= j < i - from implies sub[j] != c by {
            assert(sub[j] == s@[from + j]);
        }
        assert(i - from < sub.len() ==> sub[i - from] == c);
        lemma_find_first_is(sub, c, i - from);
    }
    i
}

/// Read the field of `s` between `from` and `to` as a decimal number under
/// `bound`: `None` exactly when the field is empty, holds a non-digit, or
/// names a value out of range.
fn parse_field(s: &str, from: usize, to: usize, bound: u32) -> (r: Option<u32>)
    requires
        from <= to <= s@.len(),
        0 < bound <= 1_000_000,
    ensures
        r is Some <==> field_ok(s@.subrange(from as int, to as int), bound as int),
        r matches Some(v) ==> v as int == dec_val(s@.subrange(from as int, to as int)) && v
            < bound,
{
    let ghost whole = s@.subrange(from as int, to as int);
    if from == to {
        return None;
    }
    let mut acc: u32 = 0;
    let mut i: usize = from;
    while i < to
        invariant
            from <= i <= to <= s@.len(),
            0 < bound <= 1_000_000,
            whole == s@.subrange(from as int, to as int),
            forall|j: int| from <= j < i ==> #[trigger] is_digit(s@[j]),
            acc as int == if dec_val(s@.subrange(from as int, i as int)) <= 1_000_000 {
                dec_val(s@.subrange(from as int, i as int))
            } else {
                1_000_001 as int
            },
        decreases to - i,
    {
        let c = s.get_char(i);
        if c < '0' || c > '9' {
            proof {
                assert(!is_digit(whole[i - from]));
            }
            return None;
        }
        let d: u32 = c as u32 - 48;
        proof {
            let pre = s@.subrange(from as int, i as int);
            let post = s@.subrange(from as int, i + 1 as int);
            assert(post.drop_last() =~= pre);
            assert(post.last() == s@[i as int]);
            lemma_dec_val_nonneg(pre);
        }
        acc = acc * 10 + d;
        if acc > 1_000_000 {
            acc = 1_000_000 + 1;
        }
        i = i + 1;
    }
    proof {
        assert(whole =~= s@.subrange(from as int, to as int));
        assert(forall|j: int| 0 <= j < whole.len() ==> #[trigger] is_digit(whole[j]));
    }
    if acc >= bound {
        None
    } else {
        Some(acc)
    }
}

/// A digit run names a number that is not negative.
proof fn lemma_dec_val_nonneg(s: Seq<char>)
    requires
        all_digits(s),
    ensures
        dec_val(s) >= 0,
    decreases s.len(),
{
    if s.len() > 0 {
        assert(is_digit(s[s.len() - 1]));
        lemma_dec_val_nonneg(s.drop_last());
    }
}

impl WallClockTime {
    /// Parse a wall-clock time from its text form, `HH:MM:SS` with an
    /// optional `.FFFFFF` fraction. Each field may have any digit count but
    /// must name an in-range component, so every parsed value is a valid
    /// time of day; a field that is unreadable or out of range is reported
    /// by the error for that field.
    pub fn parse(s: &str) -> (r: Result<Self, ParseError>)
        ensures
            (match parse_outcome(s@) {
                Ok(v) => r matches Ok(t) && t@.seconds == v.0 && t@.micros == v.1,
                Err(e) => r matches Err(a) && a == e,
            }),
    {
        let n = s.unicode_len();
        proof {
            assert(s@.subrange(0, n as int) =~= s@);
        }
        let dot = scan_char(s, 0, n, '.');
        if dot < n {
            let dot2 = scan_char(s, dot + 1, n, '.');
            if dot2 < n {
                return Err(ParseError::TooManySeparators);
            }
        }
        let micros: u32 = if dot < n {
            match parse_field(s, dot + 1, n, 1_000_000) {
                None => {
                    return Err(ParseError::InvalidMicroseconds);
                },
                Some(u) => u,
            }
        } else {
            0
        };
        let ghost hseq = s@.subrange(0, dot as int);
        let c1 = scan_char(s, 0, dot, ':');
        if c1 == dot {
            return Err(ParseError::InvalidHms);
        }
        let c2 = scan_char(s, c1 + 1, dot, ':');
        proof {
            assert(hseq.subrange(c1 + 1, hseq.len() as int) =~= s@.subrange(
                c1 + 1 as int,
                dot as int,
            ));
        }
        if c2 == dot {
            return Err(ParseError::InvalidHms);
        }
        let c3 = scan_char(s, c2 + 1, dot, ':');
        proof {
            assert(hseq.subrange(c2 + 1, hseq.len() as int) =~= s@.subrange(
                c2 + 1 as int,
                dot as int,
            ));
        }
        if c3 < dot {
            return Err(ParseError::InvalidHms);
        }
        proof {
            assert(hseq.subrange(0, c1 as int) =~= s@.subrange(0, c1 as int));
            assert(hseq.subrange(c1 + 1, c2 as int) =~= s@.subrange(c1 + 1 as int, c2 as int));
        }
        let hours: u32 = match parse_field(s, 0, c1, 24) {
            None => {
                return Err(ParseError::InvalidHours);
            },
            Some(v) => v,
        };
        let minutes: u32 = match parse_field(s, c1 + 1, c2, 60) {
            None => {
                return Err(ParseError::InvalidMinutes);
            },
            Some(v) => v,
        };
        let seconds: u32 = match parse_field(s, c2 + 1, dot, 60) {
            None => {
                return Err(ParseError::InvalidSeconds);
            },
            Some(v) => v,
        };
        Ok(Self::new_midnight_offset(hours * 3600 + minutes * 60 + seconds, micros))
    }
}

impl core::str::FromStr for WallClockTime {
    type Err = ParseError;

    fn from_str(s: &str) -> Result<Self, ParseError> {
        Self::parse(s)
    }
}

/// The digit character for the digit `v`.
pub open spec fn digit_char(v: int) -> char {
    if v == 0 {
        '0'
    } else if v == 1 {
        '1'
    } else if v == 2 {
        '2'
    } else if v == 3 {
        '3'
    } else if v == 4 {
        '4'
    } else if v == 5 {
        '5'
    } else if v == 6 {
        '6'
    } else if v == 7 {
        '7'
    } else if v == 8 {
        '8'
    } else {
        '9'
    }
}

/// The number `v` written as exactly two zero-padded digits.
pub open spec fn two_digits(v: int) -> Seq<char> {
    seq![digit_char(v / 10), digit_char(v % 10)]
}

/// The number `v` written as exactly six zero-padded digits.
pub open spec fn six_digits(v: int) -> Seq<char> {
    seq![
        digit_char(v / 100_000),
        digit_char(v / 10_000 % 10),
        digit_char(v / 1_000 % 10),
        digit_char(v / 100 % 10),
        digit_char(v / 10 % 10),
        digit_char(v % 10),
    ]
}

/// The canonical text of a time: `HH:MM:SS`, with `.FFFFFF` appended only
/// when the microsecond fraction is not zero.
pub open spec fn canonical_seq(t: WallClockTime) -> Seq<char> {
    let base = two_digits(t.spec_hour()) + seq![':'] + two_digits(t.spec_minute()) + seq![':']
        + two_digits(t.spec_second());
    if t@.micros == 0 {
        base
    } else {
        base + seq!['.'] + six_digits(t@.micros)
    }
}

/// Whatever `v` is, `digit_char(v)` is a digit and no separator.
proof fn lemma_digit_char_is_digit(v: int)
    ensures
        is_digit(digit_char(v)),
        digit_char(v) != ':',
        digit_char(v) != '.',
{
}

/// On the digits themselves, `digit_char` inverts `digit_val`.
proof fn lemma_digit_char_val(v: int)
    requires
        0 <= v < 10,
    ensures
        digit_val(digit_char(v)) == v,
{
}

/// A two-digit run reads back as the number it was written from.
proof fn lemma_two_digits_val(v: int)
    requires
        0 <= v < 100,
    ensures
        two_digits(v).len() == 2,
        all_digits(two_digits(v)),
        dec_val(two_digits(v)) == v,
{
    let s = two_digits(v);
    lemma_digit_char_val(v / 10);
    lemma_digit_char_val(v % 10);
    assert forall|i: int| 0 <= i < s.len() implies #[trigger] is_digit(s[i]) by {
        lemma_digit_char_is_digit(v / 10);
        lemma_digit_char_is_digit(v % 10);
    }
    reveal_with_fuel(dec_val, 3);
    assert(s.drop_last() =~= seq![digit_char(v / 10)]);
    assert(seq![digit_char(v / 10)].drop_last() =~= Seq::<char>::empty());
    assert(dec_val(seq![digit_char(v / 10)]) == v / 10);
    assert(dec_val(s) == 10 * (v / 10) + v % 10);
}

/// A six-digit run reads back as the number it was written from.
proof fn lemma_six_digits_val(v: int)
    requires
        0 <= v < 1_000_000,
    ensures
        six_digits(v).len() == 6,
        all_digits(six_digits(v)),
        dec_val(six_digits(v)) == v,
{
    let s = six_digits(v);
    assert forall|i: int| 0 <= i < s.len() implies #[trigger] is_digit(s[i]) by {
        lemma_digit_char_is_digit(v / 100_000);
        lemma_digit_char_is_digit(v / 10_000 % 10);
        lemma_digit_char_is_digit(v / 1_000 % 10);
        lemma_digit_char_is_digit(v / 100 % 10);
        lemma_digit_char_is_digit(v / 10 % 10);
        lemma_digit_char_is_digit(v % 10);
    }
    lemma_digit_char_val(v / 100_000);
    lemma_digit_char_val(v / 10_000 % 10);
    lemma_digit_char_val(v / 1_000 % 10);
    lemma_digit_char_val(v / 100 % 10);
    lemma_digit_char_val(v / 10 % 10);
    lemma_digit_char_val(v % 10);
    reveal_with_fuel(dec_val, 7);
    let s5 = s.drop_last();
    let s4 = s5.drop_last();
    let s3 = s4.drop_last();
    let s2 = s3.drop_last();
    let s1 = s2.drop_last();
    assert(s5 =~= seq![
        digit_char(v / 100_000),
        digit_char(v / 10_000 % 10),
        digit_char(v / 1_000 % 10),
        digit_char(v / 100 % 10),
        digit_char(v / 10 % 10),
    ]);
    assert(s4 =~= s5.drop_last());
    assert(s1 =~= seq![digit_char(v / 100_000)]);
    assert(s1.drop_last() =~= Seq::<char>::empty());
    assert(dec_val(s1) == v / 100_000);
    assert(dec_val(s2) == 10 * dec_val(s1) + v / 10_000 % 10);
    assert(dec_val(s3) == 10 * dec_val(s2) + v / 1_000 % 10);
    assert(dec_val(s4) == 10 * dec_val(s3) + v / 100 % 10);
    assert(dec_val(s5) == 10 * dec_val(s4) + v / 10 % 10);
    assert(dec_val(s) == 10 * dec_val(s5) + v % 10);
    assert(10 * (v / 100_000) + v / 10_000 % 10 == v / 10_000) by (nonlinear_arith)
        requires
            0 <= v < 1_000_000,
    ;
    assert(10 * (v / 10_000) + v / 1_000 % 10 == v / 1_000) by (nonlinear_arith)
        requires
            0 <= v < 1_000_000,
    ;
    assert(10 * (v / 1_000) + v / 100 % 10 == v / 100) by (nonlinear_arith)
        requires
            0 <= v < 1_000_000,
    ;
    assert(10 * (v / 100) + v / 10 % 10 == v / 10) by (nonlinear_arith)
        requires
            0 <= v < 1_000_000,
    ;
    assert(10 * (v / 10) + v % 10 == v) by (nonlinear_arith)
        requires
            0 <= v < 1_000_000,
    ;
}

/// The single-character text of the digit `d`.
fn digit_str(d: u32) -> (r: &'static str)
    requires
        d < 10,
    ensures
        r@ == seq![digit_char(d as int)],
{
    proof {
        reveal_strlit("0");
        reveal_strlit("1");
        reveal_strlit("2");
        reveal_strlit("3");
        reveal_strlit("4");
        reveal_strlit("5");
        reveal_strlit("6");
        reveal_strlit("7");
        reveal_strlit("8");
        reveal_strlit("9");
    }
    let r = if d == 0 {
        "0"
    } else if d == 1 {
        "1"
    } else if d == 2 {
        "2"
    } else if d == 3 {
        "3"
    } else if d == 4 {
        "4"
    } else if d == 5 {
        "5"
    } else if d == 6 {
        "6"
    } else if d == 7 {
        "7"
    } else if d == 8 {
        "8"
    } else {
        "9"
    };
    proof {
        assert(r@ =~= seq![digit_char(d as int)]);
    }
    r
}

/// Append `v` to `out` as exactly two zero-padded digits.
fn push_two_digits(out: &mut String, v: u32)
    requires
        v < 100,
    ensures
        final (out)@ == old(out)@ + two_digits(v as int),
{
    out.append(digit_str(v / 10));
    out.append(digit_str(v % 10));
    proof {
        assert(out@ =~= old(out)@ + two_digits(v as int));
    }
}

/// Append `v` to `out` as exactly six zero-padded digits.
fn push_six_digits(out: &mut String, v: u32)
    requires
        v < 1_000_000,
    ensures
        final (out)@ == old(out)@ + six_digits(v as int),
{
    out.append(digit_str(v / 100_000));
    out.append(digit_str(v / 10_000 % 10));
    out.append(digit_str(v / 1_000 % 10));
    out.append(digit_str(v / 100 % 10));
    out.append(digit_str(v / 10 % 10));
    out.append(digit_str(v % 10));
    proof {
        assert(out@ =~= old(out)@ + six_digits(v as int));
    }
}

impl WallClockTime {
    /// The canonical text of this time: `HH:MM:SS`, with the `.FFFFFF`
    /// microsecond fraction appended only when it is not zero.
    pub fn format(&self) -> (r: String)
        ensures
            r@ == canonical_seq(*self),
    {
        let mut out = String::new();
        push_two_digits(&mut out, self.hour() as u32);
        out.append(":");
        push_two_digits(&mut out, self.minute() as u32);
        out.append(":");
        push_two_digits(&mut out, self.second() as u32);
        let us = self.microsecond();
        if us != 0 {
            out.append(".");
            push_six_digits(&mut out, us);
        }
        proof {
            reveal_strlit(":");
            reveal_strlit(".");
            assert(":"@ =~= seq![':']);
            assert("."@ =~= seq!['.']);
            assert(out@ =~= canonical_seq(*self));
        }
        out
    }
}

/// Splitting an in-range second count into clock components and recombining
/// them is the identity.
proof fn lemma_clock_recompose(x: int)
    requires
        0 <= x < 86_400,
    ensures
        (x / 3600) * 3600 + ((x % 3600) / 60) * 60 + x % 60 == x,
        0 <= x / 3600 < 24,
        0 <= (x % 3600) / 60 < 60,
        0 <= x % 60 < 60,
{
    assert((x / 3600) * 3600 + ((x % 3600) / 60) * 60 + x % 60 == x && 0 <= x / 3600 < 24 && 0 <= (
    x % 3600) / 60 < 60 && 0 <= x % 60 < 60) by (nonlinear_arith)
        requires
            0 <= x < 86_400,
    ;
}

/// The canonical text of a valid time, written out character by character,
/// with the facts about its separators that parsing needs.
proof fn lemma_canonical_chars(t: WallClockTime)
    requires
        t.wf(),
    ensures
        canonical_seq(t).len() == if t@.micros == 0 {
            8int
        } else {
            15int
        },
        forall|j: int|
            0 <= j < canonical_seq(t).len() && j != 8 ==> #[trigger] canonical_seq(t)[j] != '.',
        t@.micros != 0 ==> canonical_seq(t)[8] == '.',
        canonical_seq(t)[2] == ':' && canonical_seq(t)[5] == ':',
        forall|j: int|
            0 <= j < canonical_seq(t).len() && j != 2 && j != 5 && j != 8
                ==> #[trigger] is_digit(canonical_seq(t)[j]),
{
    let s = canonical_seq(t);
    let h = t.spec_hour();
    let m = t.spec_minute();
    let sec = t.spec_second();
    let us = t@.micros;
    if us == 0 {
        assert(s =~= seq![
            digit_char(h / 10),
            digit_char(h % 10),
            ':',
            digit_char(m / 10),
            digit_char(m % 10),
            ':',
            digit_char(sec / 10),
            digit_char(sec % 10),
        ]);
    } else {
        assert(s =~= seq![
            digit_char(h / 10),
            digit_char(h % 10),
            ':',
            digit_char(m / 10),
            digit_char(m % 10),
            ':',
            digit_char(sec / 10),
            digit_char(sec % 10),
            '.',
            digit_char(us / 100_000),
            digit_char(us / 10_000 % 10),
            digit_char(us / 1_000 % 10),
            digit_char(us / 100 % 10),
            digit_char(us / 10 % 10),
            digit_char(us % 10),
        ]);
    }
    assert forall|j: int| 0 <= j < s.len() && j != 2 && j != 5 && j != 8 implies #[trigger] is_digit(
        s[j],
    ) by {
        lemma_digit_char_is_digit(h / 10);
        lemma_digit_char_is_digit(h % 10);
        lemma_digit_char_is_digit(m / 10);
        lemma_digit_char_is_digit(m % 10);
        lemma_digit_char_is_digit(sec / 10);
        lemma_digit_char_is_digit(sec % 10);
        lemma_digit_char_is_digit(us / 100_000);
        lemma_digit_char_is_digit(us / 10_000 % 10);
        lemma_digit_char_is_digit(us / 1_000 % 10);
        lemma_digit_char_is_digit(us / 100 % 10);
        lemma_digit_char_is_digit(us / 10 % 10);
        lemma_digit_char_is_digit(us % 10);
    }
    assert forall|j: int| 0 <= j < s.len() && j != 8 implies #[trigger] s[j] != '.' by {
        if j != 2 && j != 5 {
            assert(is_digit(s[j]));
        }
    }
}

/// Law: the canonical text round-trips. Parsing the canonical text of any
/// valid wall-clock time succeeds and yields exactly that time.
pub proof fn lemma_parse_canonical(t: WallClockTime)
    requires
        t.wf(),
    ensures
        parse_outcome(canonical_seq(t)) == Ok::<(int, int), ParseError>((t@.seconds, t@.micros)),
{
    let s = canonical_seq(t);
    let h = t.spec_hour();
    let m = t.spec_minute();
    let sec = t.spec_second();
    let us = t@.micros;
    lemma_canonical_chars(t);
    lemma_clock_recompose(t@.seconds);
    lemma_two_digits_val(h);
    lemma_two_digits_val(m);
    lemma_two_digits_val(sec);
    let n = s.len() as int;
    let hms = s.subrange(0, 8);
    assert(hms =~= two_digits(h) + seq![':'] + two_digits(m) + seq![':'] + two_digits(sec));
    if us == 0 {
        lemma_find_first_is(s, '.', 8);
        assert(hms =~= s);
    } else {
        lemma_find_first_is(s, '.', 8);
        let frac = s.subrange(9, 15);
        assert(frac =~= six_digits(us));
        lemma_six_digits_val(us);
        lemma_find_first_is(frac, '.', 6);
    }
    // the clock segment: colons at 2 and 5, digits elsewhere
    assert forall|j: int| 0 <= j < 8 && j != 2 && j != 5 implies #[trigger] hms[j] != ':' by {
        assert(is_digit(s[j]));
    }
    lemma_find_first_is(hms, ':', 2);
    let rest = hms.subrange(3, 8);
    lemma_find_first_is(rest, ':', 2);
    let tail = hms.subrange(6, 8);
    lemma_find_first_is(tail, ':', 2);
    assert(hms.subrange(0, 2) =~= two_digits(h));
    assert(hms.subrange(3, 5) =~= two_digits(m));
    assert(hms.subrange(6, 8) =~= two_digits(sec));
}

/// Law: the canonical text carries a fractional separator exactly when the
/// microsecond fraction is not zero.
pub proof fn lemma_fraction_iff_micros(t: WallClockTime)
    requires
        t.wf(),
    ensures
        has_char(canonical_seq(t), '.') <==> t@.micros != 0,
{
    let s = canonical_seq(t);
    lemma_canonical_chars(t);
    lemma_find_first_is(s, '.', 8);
}

} // verus!
