//! The calendar date value type: parsing from `year-month-day` text,
//! range validation, total ordering and canonical zero-padded formatting.

use vstd::prelude::*;

use crate::error::AppError;

verus! {

/// A calendar date. Fields are plain non-negative machine integers; the
/// range invariant (`1 <= month <= 12`, `1 <= day <= 31`) is enforced by
/// explicit [`Date::validate`], never by the parser.
#[derive(Debug, Clone, Copy, PartialEq, Eq, Structural)]
pub struct Date {
    pub year: usize,
    pub month: usize,
    pub day: usize,
}

/// Is `c` a decimal digit?
pub open spec fn is_digit(c: char) -> bool {
    48 <= c as int <= 57
}

/// The numeric value of a decimal digit character.
pub open spec fn digit_val(c: char) -> nat {
    (c as int - 48) as nat
}

/// Every character of `s` is a decimal digit.
pub open spec fn all_digits(s: Seq<char>) -> bool {
    forall|i: int| 0 <= i < s.len() ==> is_digit(#[trigger] s[i])
}

/// The value of a decimal digit string, most significant digit first.
pub open spec fn dec_value(s: Seq<char>) -> nat
    decreases s.len(),
{
    if s.len() == 0 {
        0
    } else {
        dec_value(s.drop_last()) * 10 + digit_val(s.last())
    }
}

/// A date field that parses as a machine-word number: non-empty, digits
/// only, and small enough to store.
pub open spec fn valid_number_text(s: Seq<char>) -> bool {
    s.len() > 0 && all_digits(s) && dec_value(s) <= usize::MAX
}

/// The first position at or after `from` holding `'-'`, or the length of
/// `s` if there is none.
pub open spec fn find_dash(s: Seq<char>, from: int) -> int
    decreases s.len() - from when from <= s.len()
{
    if from >= s.len() {
        s.len() as int
    } else if s[from] == '-' {
        from
    } else {
        find_dash(s, from + 1)
    }
}

/// Splits date text into its three `-`-separated fields, or `None` if the
/// text does not hold exactly two dashes.
pub open spec fn date_fields(s: Seq<char>) -> Option<(Seq<char>, Seq<char>, Seq<char>)> {
    let i = find_dash(s, 0);
    if i >= s.len() {
        None
    } else {
        let j = find_dash(s, i + 1);
        if j >= s.len() {
            None
        } else {
            let k = find_dash(s, j + 1);
            if k < s.len() {
                None
            } else {
                Some((s.subrange(0, i), s.subrange(i + 1, j), s.subrange(j + 1, s.len() as int)))
            }
        }
    }
}

/// What [`Date::parse`] returns for given text: field splitting may fail,
/// then each field must be a storable non-negative number.
pub open spec fn spec_parse(s: Seq<char>) -> Result<Date, AppError> {
    match date_fields(s) {
        Option::None => Err(AppError::InvalidDateFormat),
        Option::Some(f) => {
            if valid_number_text(f.0) && valid_number_text(f.1) && valid_number_text(f.2) {
                Ok(
                    (Date {
                        year: dec_value(f.0) as usize,
                        month: dec_value(f.1) as usize,
                        day: dec_value(f.2) as usize,
                    }),
                )
            } else {
                Err(AppError::InvalidDateNumber)
            }
        },
    }
}

/// The character for a decimal digit value.
pub open spec fn digit_char(d: nat) -> char {
    if d == 0 {
        '0'
    } else if d == 1 {
        '1'
    } else if d == 2 {
        '2'
    } else if d == 3 {
        '3'
    } else if d == 4 {
        '4'
    } else if d == 5 {
        '5'
    } else if d == 6 {
        '6'
    } else if d == 7 {
        '7'
    } else if d == 8 {
        '8'
    } else {
        '9'
    }
}

/// The decimal digits of `n`, most significant first, no leading zeros
/// (a single `'0'` for zero).
pub open spec fn dec_digits(n: nat) -> Seq<char>
    decreases n,
{
    if n < 10 {
        seq![digit_char(n)]
    } else {
        dec_digits(n / 10).push(digit_char(n % 10))
    }
}

/// `s` left-padded with `'0'` up to width `w`.
pub open spec fn zero_pad(s: Seq<char>, w: nat) -> Seq<char> {
    if s.len() >= w {
        s
    } else {
        Seq::new((w - s.len()) as nat, |i: int| '0') + s
    }
}

/// The canonical text of `n` at minimum width `w`.
pub open spec fn spec_format_number(n: nat, w: nat) -> Seq<char> {
    zero_pad(dec_digits(n), w)
}

/// The canonical `YYYY-MM-DD` text of a date: the year at width 4, month
/// and day at width 2, each zero-padded.
pub open spec fn spec_format_date(d: Date) -> Seq<char> {
    spec_format_number(d.year as nat, 4) + seq!['-'] + spec_format_number(d.month as nat, 2)
        + seq!['-'] + spec_format_number(d.day as nat, 2)
}

/// Peeling the least significant digit off a formatted number.
proof fn lemma_format_number_step(n: nat, w: nat)
    requires
        n >= 10 || w >= 2,
    ensures
        spec_format_number(n, w) == spec_format_number(n / 10, if w > 0 {
            (w - 1) as nat
        } else {
            0
        }).push(digit_char(n % 10)),
{
    let w2: nat = if w > 0 {
        (w - 1) as nat
    } else {
        0
    };
    if n >= 10 {
        assert(dec_digits(n) == dec_digits(n / 10).push(digit_char(n % 10)));
        let s = dec_digits(n / 10);
        assert(s.len() >= 1);
        if s.len() + 1 >= w {
            assert(zero_pad(s.push(digit_char(n % 10)), w) == s.push(digit_char(n % 10)));
            assert(zero_pad(s, w2) == s);
        } else {
            assert(zero_pad(s.push(digit_char(n % 10)), w) =~= zero_pad(s, w2).push(
                digit_char(n % 10),
            ));
        }
    } else {
        assert(n / 10 == 0);
        assert(dec_digits(0) == seq![digit_char(0)]);
        assert(dec_digits(n) == seq![digit_char(n)]);
        assert(zero_pad(seq![digit_char(n)], w) =~= zero_pad(seq![digit_char(0nat)], w2).push(
            digit_char(n % 10),
        ));
    }
}

/// The one-character text of a digit value.
fn digit_to_str(d: usize) -> (r: &'static str)
    requires
        d < 10,
    ensures
        r@ == seq![digit_char(d as nat)],
{
    if d == 0 {
        proof {
            reveal_strlit("0");
        }
        "0"
    } else if d == 1 {
        proof {
            reveal_strlit("1");
        }
        "1"
    } else if d == 2 {
        proof {
            reveal_strlit("2");
        }
        "2"
    } else if d == 3 {
        proof {
            reveal_strlit("3");
        }
        "3"
    } else if d == 4 {
        proof {
            reveal_strlit("4");
        }
        "4"
    } else if d == 5 {
        proof {
            reveal_strlit("5");
        }
        "5"
    } else if d == 6 {
        proof {
            reveal_strlit("6");
        }
        "6"
    } else if d == 7 {
        proof {
            reveal_strlit("7");
        }
        "7"
    } else if d == 8 {
        proof {
            reveal_strlit("8");
        }
        "8"
    } else {
        proof {
            reveal_strlit("9");
        }
        "9"
    }
}

/// Renders `n` in decimal, zero-padded to at least `w` characters.
fn format_number(n: usize, w: usize) -> (r: String)
    ensures
        r@ == spec_format_number(n as nat, w as nat),
    decreases n, w,
{
    if n < 10 && w <= 1 {
        let r = digit_to_str(n).to_owned();
        proof {
            assert(r@ =~= spec_format_number(n as nat, w as nat));
        }
        r
    } else {
        let w2: usize = if w > 0 {
            w - 1
        } else {
            0
        };
        let prefix = format_number(n / 10, w2);
        let r = prefix.concat(digit_to_str(n % 10));
        proof {
            lemma_format_number_step(n as nat, w as nat);
            assert(r@ =~= spec_format_number(n as nat, w as nat));
        }
        r
    }
}

/// The digits of a number are digits, and there is at least one.
proof fn lemma_dec_digits_all_digits(n: nat)
    ensures
        dec_digits(n).len() >= 1,
        all_digits(dec_digits(n)),
    decreases n,
{
    if n < 10 {
        assert(is_digit(digit_char(n)));
    } else {
        lemma_dec_digits_all_digits(n / 10);
        assert(is_digit(digit_char(n % 10)));
        assert forall|i: int| 0 <= i < dec_digits(n).len() implies is_digit(
            #[trigger] dec_digits(n)[i],
        ) by {
            if i < dec_digits(n / 10).len() {
                assert(dec_digits(n)[i] == dec_digits(n / 10)[i]);
            }
        }
    }
}

/// A zero-padded number is non-empty and all digits.
proof fn lemma_format_number_all_digits(n: nat, w: nat)
    ensures
        spec_format_number(n, w).len() >= 1,
        spec_format_number(n, w).len() >= w,
        all_digits(spec_format_number(n, w)),
{
    lemma_dec_digits_all_digits(n);
    let s = dec_digits(n);
    if s.len() < w {
        assert forall|i: int| 0 <= i < zero_pad(s, w).len() implies is_digit(
            #[trigger] zero_pad(s, w)[i],
        ) by {
            if i >= w - s.len() {
                assert(zero_pad(s, w)[i] == s[i - (w - s.len())]);
            } else {
                assert(zero_pad(s, w)[i] == '0');
            }
        }
    }
}

/// The digit characters decode to the values they encode.
proof fn lemma_digit_char_val(m: nat)
    requires
        m < 10,
    ensures
        digit_val(digit_char(m)) == m,
        is_digit(digit_char(m)),
{
}

/// Reading back the digits of `n` yields `n`.
proof fn lemma_dec_value_dec_digits(n: nat)
    ensures
        dec_value(dec_digits(n)) == n,
    decreases n,
{
    if n < 10 {
        let s = dec_digits(n);
        assert(dec_digits(n) == seq![digit_char(n)]);
        assert(s.drop_last() =~= Seq::<char>::empty());
        assert(dec_value(s.drop_last()) == 0);
        assert(s.last() == digit_char(n));
        lemma_digit_char_val(n);
        assert(dec_value(s) == dec_value(s.drop_last()) * 10 + digit_val(s.last()));
        assert(dec_value(s) == n);
    } else {
        lemma_dec_value_dec_digits(n / 10);
        lemma_digit_char_val(n % 10);
        let s = dec_digits(n / 10).push(digit_char(n % 10));
        assert(s.drop_last() =~= dec_digits(n / 10));
        vstd::arithmetic::div_mod::lemma_fundamental_div_mod(n as int, 10);
    }
}

/// A run of zero characters has value zero.
proof fn lemma_dec_value_zeros(k: nat)
    ensures
        dec_value(Seq::new(k, |i: int| '0')) == 0,
    decreases k,
{
    if k > 0 {
        let z = Seq::new(k, |i: int| '0');
        assert(z.drop_last() =~= Seq::new((k - 1) as nat, |i: int| '0'));
        lemma_dec_value_zeros((k - 1) as nat);
        assert(digit_val('0') == 0);
    }
}

/// Leading zeros do not change a number's value.
proof fn lemma_dec_value_prepend_zeros(k: nat, s: Seq<char>)
    ensures
        dec_value(Seq::new(k, |i: int| '0') + s) == dec_value(s),
    decreases s.len(),
{
    let z = Seq::new(k, |i: int| '0');
    if s.len() == 0 {
        assert(z + s =~= z);
        lemma_dec_value_zeros(k);
    } else {
        assert((z + s).drop_last() =~= z + s.drop_last());
        assert((z + s).last() == s.last());
        lemma_dec_value_prepend_zeros(k, s.drop_last());
    }
}

/// Zero padding does not change a number's value.
proof fn lemma_dec_value_zero_pad(s: Seq<char>, w: nat)
    ensures
        dec_value(zero_pad(s, w)) == dec_value(s),
{
    if s.len() < w {
        lemma_dec_value_prepend_zeros((w - s.len()) as nat, s);
    }
}

/// `find_dash` lands on the dash that closes a dash-free stretch.
proof fn lemma_find_dash_at(s: Seq<char>, from: int, p: int)
    requires
        0 <= from <= p <= s.len(),
        forall|j: int| from <= j < p ==> (#[trigger] s[j]) != '-',
        p == s.len() || s[p] == '-',
    ensures
        find_dash(s, from) == p,
    decreases p - from,
{
    if from < p {
        lemma_find_dash_at(s, from + 1, p);
    }
}

/// Digits are never dashes.
proof fn lemma_digit_not_dash(c: char)
    requires
        is_digit(c),
    ensures
        c != '-',
{
    assert('-' as int == 45);
}

/// Formatting a date and parsing the text back yields the same date,
/// for every date value: canonical form loses nothing.
pub proof fn lemma_format_then_parse(d: Date)
    ensures
        spec_parse(spec_format_date(d)) == Ok::<Date, AppError>(d),
{
    let y = spec_format_number(d.year as nat, 4);
    let mo = spec_format_number(d.month as nat, 2);
    let da = spec_format_number(d.day as nat, 2);
    let s = spec_format_date(d);
    lemma_format_number_all_digits(d.year as nat, 4);
    lemma_format_number_all_digits(d.month as nat, 2);
    lemma_format_number_all_digits(d.day as nat, 2);
    let i = y.len() as int;
    let j: int = y.len() as int + 1 + mo.len() as int;
    assert(s.len() == y.len() + 1 + mo.len() + 1 + da.len());
    assert forall|q: int| 0 <= q < i implies (#[trigger] s[q]) != '-' by {
        assert(s[q] == y[q]);
        lemma_digit_not_dash(y[q]);
    }
    assert(s[i] == '-');
    lemma_find_dash_at(s, 0, i);
    assert forall|q: int| i + 1 <= q < j implies (#[trigger] s[q]) != '-' by {
        assert(s[q] == mo[q - (i + 1)]);
        lemma_digit_not_dash(mo[q - (i + 1)]);
    }
    assert(s[j as int] == '-');
    lemma_find_dash_at(s, i + 1, j as int);
    assert forall|q: int| j + 1 <= q < s.len() implies (#[trigger] s[q]) != '-' by {
        assert(s[q] == da[q - (j + 1)]);
        lemma_digit_not_dash(da[q - (j + 1)]);
    }
    lemma_find_dash_at(s, j + 1, s.len() as int);
    assert(s.subrange(0, i) =~= y);
    assert(s.subrange(i + 1, j as int) =~= mo);
    assert(s.subrange(j + 1, s.len() as int) =~= da);
    lemma_dec_value_zero_pad(dec_digits(d.year as nat), 4);
    lemma_dec_value_zero_pad(dec_digits(d.month as nat), 2);
    lemma_dec_value_zero_pad(dec_digits(d.day as nat), 2);
    lemma_dec_value_dec_digits(d.year as nat);
    lemma_dec_value_dec_digits(d.month as nat);
    lemma_dec_value_dec_digits(d.day as nat);
    assert(dec_value(y) == d.year);
    assert(dec_value(mo) == d.month);
    assert(dec_value(da) == d.day);
}

/// A digit-string prefix never exceeds the value of the whole string.
proof fn lemma_dec_value_prefix_le(s: Seq<char>, k: int)
    requires
        0 <= k <= s.len(),
        all_digits(s),
    ensures
        dec_value(s.subrange(0, k)) <= dec_value(s),
    decreases s.len(),
{
    if k < s.len() {
        assert(s.drop_last().subrange(0, k) =~= s.subrange(0, k));
        assert(all_digits(s.drop_last()));
        lemma_dec_value_prefix_le(s.drop_last(), k);
        assert(dec_value(s.drop_last()) * 10 + digit_val(s.last()) >= dec_value(s.drop_last()));
    } else {
        assert(s.subrange(0, k) =~= s);
    }
}

/// Total order on dates: lexicographic on (year, month, day).
pub open spec fn date_lt(a: Date, b: Date) -> bool {
    ||| a.year < b.year
    ||| (a.year == b.year && a.month < b.month)
    ||| (a.year == b.year && a.month == b.month && a.day < b.day)
}

/// The range invariant checked by [`Date::validate`].
pub open spec fn date_in_range(d: Date) -> bool {
    1 <= d.month <= 12 && 1 <= d.day <= 31
}

/// What [`Date::validate`] returns: the month is checked first, then the day.
pub open spec fn spec_validate(d: Date) -> Result<(), AppError> {
    if d.month == 0 || d.month > 12 {
        Err(AppError::InvalidMonth(d.month))
    } else if d.day == 0 || d.day > 31 {
        Err(AppError::InvalidDay(d.day))
    } else {
        Ok(())
    }
}

/// Scans `s` from `from` for the first `'-'`.
fn find_dash_exec(s: &str, from: usize) -> (r: usize)
    requires
        from <= s@.len(),
    ensures
        r == find_dash(s@, from as int),
        from <= r <= s@.len(),
        r < s@.len() ==> s@[r as int] == '-',
{
    let n = s.unicode_len();
    let mut i: usize = from;
    while i < n
        invariant
            from <= i <= n,
            n == s@.len(),
            find_dash(s@, from as int) == find_dash(s@, i as int),
        decreases n - i,
    {
        if s.get_char(i) == '-' {
            return i;
        }
        i += 1;
    }
    i
}

/// Parses the digits of `s` between `from` and `to` as a non-negative
/// base-10 number.
fn parse_number(s: &str, from: usize, to: usize) -> (r: Result<usize, AppError>)
    requires
        from <= to <= s@.len(),
    ensures
        ({
            let field = s@.subrange(from as int, to as int);
            match r {
                Ok(v) => valid_number_text(field) && v == dec_value(field),
                Err(e) => !valid_number_text(field) && e == AppError::InvalidDateNumber,
            }
        }),
{
    let ghost field = s@.subrange(from as int, to as int);
    if from == to {
        return Err(AppError::InvalidDateNumber);
    }
    let mut val: usize = 0;
    let mut i: usize = from;
    while i < to
        invariant
            from <= i <= to <= s@.len(),
            field == s@.subrange(from as int, to as int),
            all_digits(s@.subrange(from as int, i as int)),
            val == dec_value(s@.subrange(from as int, i as int)),
        decreases to - i,
    {
        let c = s.get_char(i);
        let cu = c as u32;
        if cu < 48 || cu > 57 {
            proof {
                assert(field[i - from] == s@[i as int]);
                assert(!is_digit(field[i - from]));
            }
            return Err(AppError::InvalidDateNumber);
        }
        let d = (cu - 48) as usize;
        proof {
            assert(digit_val(s@[i as int]) == d);
        }
        if val > (usize::MAX - d) / 10 {
            proof {
                let m = (usize::MAX - d) as int;
                vstd::arithmetic::div_mod::lemma_fundamental_div_mod(m, 10);
                assert(0 <= m % 10 < 10) by {
                    vstd::arithmetic::div_mod::lemma_mod_bound(m, 10);
                }
                assert(val * 10 + d > usize::MAX);
                let p = s@.subrange(from as int, i + 1);
                assert(p.drop_last() =~= s@.subrange(from as int, i as int));
                assert(p.last() == s@[i as int]);
                assert(dec_value(p) == val * 10 + d);
                if all_digits(field) {
                    assert(p =~= field.subrange(0, i + 1 - from));
                    lemma_dec_value_prefix_le(field, i + 1 - from);
                }
            }
            return Err(AppError::InvalidDateNumber);
        }
        val = val * 10 + d;
        proof {
            let p = s@.subrange(from as int, i + 1);
            assert(p.drop_last() =~= s@.subrange(from as int, i as int));
            assert(p.last() == s@[i as int]);
            assert forall|j: int| 0 <= j < p.len() implies is_digit(#[trigger] p[j]) by {
                if j < p.len() - 1 {
                    assert(p[j] == s@.subrange(from as int, i as int)[j]);
                }
            }
        }
        i += 1;
    }
    proof {
        assert(field =~= s@.subrange(from as int, i as int));
    }
    Ok(val)
}

impl Date {
    /// Parses `year-month-day` text. The text must split on `-` into
    /// exactly three fields, each a non-negative base-10 number; no range
    /// check happens here (see [`Date::validate`]).
    pub fn parse(s: &str) -> (r: Result<Date, AppError>)
        ensures
            r == spec_parse(s@),
    {
        let n = s.unicode_len();
        let i = find_dash_exec(s, 0);
        if i == n {
            return Err(AppError::InvalidDateFormat);
        }
        let j = find_dash_exec(s, i + 1);
        if j == n {
            return Err(AppError::InvalidDateFormat);
        }
        let k = find_dash_exec(s, j + 1);
        if k < n {
            return Err(AppError::InvalidDateFormat);
        }
        let year = match parse_number(s, 0, i) {
            Ok(v) => v,
            Err(e) => {
                return Err(e);
            },
        };
        let month = match parse_number(s, i + 1, j) {
            Ok(v) => v,
            Err(e) => {
                return Err(e);
            },
        };
        let day = match parse_number(s, j + 1, n) {
            Ok(v) => v,
            Err(e) => {
                return Err(e);
            },
        };
        Ok(Date { year, month, day })
    }

    /// Rejects a month outside `1..=12` or a day outside `1..=31`.
    /// Day-of-month is deliberately not cross-checked against the month
    /// (day 31 of a 30-day month passes): a documented simplification.
    pub fn validate(&self) -> (r: Result<(), AppError>)
        ensures
            r == spec_validate(*self),
            r is Ok <==> date_in_range(*self),
    {
        if self.month == 0 || self.month > 12 {
            return Err(AppError::InvalidMonth(self.month));
        }
        if self.day == 0 || self.day > 31 {
            return Err(AppError::InvalidDay(self.day));
        }
        Ok(())
    }

    /// Canonical `YYYY-MM-DD` form: 4-digit year, 2-digit month and day,
    /// zero-padded (wider values keep all their digits).
    pub fn format(&self) -> (r: String)
        ensures
            r@ == spec_format_date(*self),
    {
        proof {
            reveal_strlit("-");
        }
        let mut out = format_number(self.year, 4);
        out.append("-");
        let m = format_number(self.month, 2);
        out.append(m.as_str());
        out.append("-");
        let d = format_number(self.day, 2);
        out.append(d.as_str());
        proof {
            assert(out@ =~= spec_format_date(*self));
        }
        out
    }

    /// Field-wise comparison: year first, then month, then day.
    pub fn compare(&self, other: &Date) -> (r: core::cmp::Ordering)
        ensures
            r == core::cmp::Ordering::Less <==> date_lt(*self, *other),
            r == core::cmp::Ordering::Equal <==> *self == *other,
            r == core::cmp::Ordering::Greater <==> date_lt(*other, *self),
    {
        if self.year < other.year {
            core::cmp::Ordering::Less
        } else if self.year > other.year {
            core::cmp::Ordering::Greater
        } else if self.month < other.month {
            core::cmp::Ordering::Less
        } else if self.month > other.month {
            core::cmp::Ordering::Greater
        } else if self.day < other.day {
            core::cmp::Ordering::Less
        } else if self.day > other.day {
            core::cmp::Ordering::Greater
        } else {
            core::cmp::Ordering::Equal
        }
    }

    /// Strict `date_lt` as an executable test.
    pub fn lt(&self, other: &Date) -> (r: bool)
        ensures
            r == date_lt(*self, *other),
    {
        if self.year != other.year {
            self.year < other.year
        } else if self.month != other.month {
            self.month < other.month
        } else {
            self.day < other.day
        }
    }
}

} // verus!
