//! Calendar dates as plain year/month/day values, with day-offset
//! arithmetic and the `YYYY-MM-DD` text form used by the store.
//!
//! Dates are proleptic-Gregorian and limited to years 0 through 9999,
//! which is what the four-digit text form can hold; stepping past the
//! last representable day saturates there.

use crate::text::{
    dec_rep, fmt_usize, is_digit_ch, lemma_dec_rep_digits, lemma_pad_val, lemma_split_join,
    lemma_val_dec_rep, lemma_val_nonneg, num_ok, pad, parse_usize, push_all, split, split_chars,
    val, zeros,
};
use chrono::Datelike;
use vstd::prelude::*;

verus! {

pub const MAX_YEAR: u32 = 9999;

#[derive(Debug, PartialEq, Eq, Structural, Clone, Copy)]
pub struct Date {
    pub year: u32,
    pub month: u32,
    pub day: u32,
}

pub open spec fn is_leap_year(y: int) -> bool {
    (y % 4 == 0 && y % 100 != 0) || y % 400 == 0
}

pub open spec fn days_in_month(y: int, m: int) -> int {
    if m == 2 {
        if is_leap_year(y) {
            29
        } else {
            28
        }
    } else if m == 4 || m == 6 || m == 9 || m == 11 {
        30
    } else {
        31
    }
}

pub open spec fn valid_date(y: int, m: int, d: int) -> bool {
    0 <= y <= MAX_YEAR && 1 <= m <= 12 && 1 <= d <= days_in_month(y, m)
}

impl Date {
    pub open spec fn wf(self) -> bool {
        valid_date(self.year as int, self.month as int, self.day as int)
    }

    /// The last representable day, where stepping saturates.
    pub open spec fn is_max(self) -> bool {
        self.year == MAX_YEAR && self.month == 12 && self.day == 31
    }

    /// `self` falls on `o`'s day or earlier.
    pub open spec fn le_spec(self, o: Date) -> bool {
        self.year < o.year || (self.year == o.year && (self.month < o.month || (self.month
            == o.month && self.day <= o.day)))
    }

    pub fn on_or_before(&self, o: &Date) -> (r: bool)
        ensures
            r == self.le_spec(*o),
    {
        self.year < o.year || (self.year == o.year && (self.month < o.month || (self.month
            == o.month && self.day <= o.day)))
    }
}

/// The day after `d`, staying put on the last representable day.
pub open spec fn next_day_spec(d: Date) -> Date {
    if d.is_max() {
        d
    } else if d.day < days_in_month(d.year as int, d.month as int) {
        Date { day: (d.day + 1) as u32, ..d }
    } else if d.month < 12 {
        Date { month: (d.month + 1) as u32, day: 1, ..d }
    } else {
        Date { year: (d.year + 1) as u32, month: 1, day: 1 }
    }
}

/// The day `n` days after `d` (saturating at the top of the range).
pub open spec fn plus_days(d: Date, n: nat) -> Date
    decreases n,
{
    if n == 0 {
        d
    } else {
        plus_days(next_day_spec(d), (n - 1) as nat)
    }
}

/// Stepping unfolds at the far end as well: one more day is one step
/// after the first `n`.
pub proof fn lemma_plus_days_succ(d: Date, n: nat)
    ensures
        plus_days(d, n + 1) == next_day_spec(plus_days(d, n)),
    decreases n,
{
    if n == 0 {
        assert(plus_days(d, 1) == plus_days(next_day_spec(d), 0));
        assert(plus_days(next_day_spec(d), 0) == next_day_spec(d));
        assert(plus_days(d, 0) == d);
    } else {
        lemma_plus_days_succ(next_day_spec(d), (n - 1) as nat);
        assert(plus_days(d, n + 1) == plus_days(next_day_spec(d), n));
        assert(plus_days(d, n) == plus_days(next_day_spec(d), (n - 1) as nat));
    }
}

pub proof fn lemma_plus_days_max(d: Date, n: nat)
    requires
        d.is_max(),
    ensures
        plus_days(d, n) == d,
    decreases n,
{
    if n > 0 {
        lemma_plus_days_max(d, (n - 1) as nat);
        lemma_plus_days_succ(d, (n - 1) as nat);
    }
}

pub proof fn lemma_plus_days_add(d: Date, a: nat, b: nat)
    ensures
        plus_days(d, a + b) == plus_days(plus_days(d, a), b),
    decreases a,
{
    if a > 0 {
        lemma_plus_days_add(next_day_spec(d), (a - 1) as nat, b);
    }
}

pub fn days_in_month_of(y: u32, m: u32) -> (r: u32)
    ensures
        r == days_in_month(y as int, m as int),
{
    if m == 2 {
        if (y % 4 == 0 && y % 100 != 0) || y % 400 == 0 {
            29
        } else {
            28
        }
    } else if m == 4 || m == 6 || m == 9 || m == 11 {
        30
    } else {
        31
    }
}

pub fn next_day(d: &Date) -> (r: Date)
    requires
        d.wf(),
    ensures
        r == next_day_spec(*d),
        r.wf(),
{
    if d.year == MAX_YEAR && d.month == 12 && d.day == 31 {
        *d
    } else if d.day < days_in_month_of(d.year, d.month) {
        Date { day: d.day + 1, ..*d }
    } else if d.month < 12 {
        Date { month: d.month + 1, day: 1, ..*d }
    } else {
        Date { year: d.year + 1, month: 1, day: 1 }
    }
}

/// Walk `n` days forward, stopping early once the top of the range is
/// reached (from where no further day exists).
pub fn add_days(d: &Date, n: usize) -> (r: Date)
    requires
        d.wf(),
    ensures
        r == plus_days(*d, n as nat),
        r.wf(),
{
    let mut cur: Date = *d;
    let mut k: usize = 0;
    while k < n
        invariant
            k <= n,
            cur.wf(),
            cur == plus_days(*d, k as nat),
        decreases n - k,
    {
        if cur.year == MAX_YEAR && cur.month == 12 && cur.day == 31 {
            proof {
                lemma_plus_days_add(*d, k as nat, (n - k) as nat);
                lemma_plus_days_max(cur, (n - k) as nat);
            }
            return cur;
        }
        cur = next_day(&cur);
        proof {
            lemma_plus_days_succ(*d, k as nat);
        }
        k = k + 1;
    }
    cur
}

// ---------------------------------------------------------------------
// The `YYYY-MM-DD` text form.
// ---------------------------------------------------------------------

pub open spec fn spec_render_date(d: Date) -> Seq<char> {
    pad(dec_rep(d.year as nat), 4) + seq!['-'] + pad(dec_rep(d.month as nat), 2) + seq!['-'] + pad(
        dec_rep(d.day as nat),
        2,
    )
}

/// What a date token means: exactly three dash-separated decimal
/// fields, naming a representable calendar date.
pub open spec fn spec_parse_ymd(s: Seq<char>) -> Option<Date> {
    let ps = split(s, '-');
    if ps.len() == 3 && num_ok(ps[0]) && num_ok(ps[1]) && num_ok(ps[2]) && valid_date(
        val(ps[0]),
        val(ps[1]),
        val(ps[2]),
    ) {
        Some(Date { year: val(ps[0]) as u32, month: val(ps[1]) as u32, day: val(ps[2]) as u32 })
    } else {
        None
    }
}

/// Append `n` zero-padded to at least `width` digits.
pub fn push_num(out: &mut Vec<char>, n: usize, width: usize)
    ensures
        final(out)@ == old(out)@ + pad(dec_rep(n as nat), width as nat),
{
    let digits = fmt_usize(n);
    let ghost mid = out@;
    if digits.len() < width {
        let k = width - digits.len();
        let mut j: usize = 0;
        while j < k
            invariant
                j <= k,
                out@ == mid + zeros(j as nat),
            decreases k - j,
        {
            out.push('0');
            proof {
                assert(zeros((j + 1) as nat) == zeros(j as nat).push('0'));
                assert(mid + zeros(j as nat).push('0') =~~= (mid + zeros(j as nat)).push('0'));
            }
            j = j + 1;
        }
    }
    push_all(out, digits.as_slice());
    proof {
        if digits@.len() < width {
            assert(mid + zeros((width - digits@.len()) as nat) + digits@ =~~= mid + pad(
                dec_rep(n as nat),
                width as nat,
            ));
        }
    }
}

pub fn render_date_chars(d: &Date) -> (r: Vec<char>)
    ensures
        r@ == spec_render_date(*d),
{
    let mut out: Vec<char> = Vec::new();
    push_num(&mut out, d.year as usize, 4);
    out.push('-');
    push_num(&mut out, d.month as usize, 2);
    out.push('-');
    push_num(&mut out, d.day as usize, 2);
    proof {
        assert(out@ =~~= spec_render_date(*d));
    }
    out
}

pub fn parse_ymd(s: &[char]) -> (r: Option<Date>)
    ensures
        r == spec_parse_ymd(s@),
{
    let parts = split_chars(s, '-');
    if parts.len() != 3 {
        return None;
    }
    let ghost ps = split(s@, '-');
    let ya = parse_usize(parts[0].as_slice());
    let ma = parse_usize(parts[1].as_slice());
    let da = parse_usize(parts[2].as_slice());
    proof {
        assert(parts@[0]@ == ps[0] && parts@[1]@ == ps[1] && parts@[2]@ == ps[2]);
        if num_ok(ps[0]) {
            lemma_val_nonneg(ps[0]);
        }
        if num_ok(ps[1]) {
            lemma_val_nonneg(ps[1]);
        }
        if num_ok(ps[2]) {
            lemma_val_nonneg(ps[2]);
        }
    }
    match (ya, ma, da) {
        (Some(y), Some(m), Some(dd)) => {
            if y <= MAX_YEAR as usize && 1 <= m && m <= 12 && 1 <= dd && dd
                <= days_in_month_of(y as u32, m as u32) as usize {
                Some(Date { year: y as u32, month: m as u32, day: dd as u32 })
            } else {
                None
            }
        },
        _ => None,
    }
}

/// Rendering then parsing gives the date back.
pub proof fn lemma_render_parse_date(d: Date)
    requires
        d.wf(),
    ensures
        spec_parse_ymd(spec_render_date(d)) == Some(d),
        spec_render_date(d).len() >= 10,
        forall|j: int|
            0 <= j < spec_render_date(d).len() ==> (is_digit_ch(spec_render_date(d)[j])
                || spec_render_date(d)[j] == '-'),
{
    let py = pad(dec_rep(d.year as nat), 4);
    let pm = pad(dec_rep(d.month as nat), 2);
    let pd = pad(dec_rep(d.day as nat), 2);
    lemma_dec_rep_digits(d.year as nat);
    lemma_dec_rep_digits(d.month as nat);
    lemma_dec_rep_digits(d.day as nat);
    lemma_pad_val(dec_rep(d.year as nat), 4);
    lemma_pad_val(dec_rep(d.month as nat), 2);
    lemma_pad_val(dec_rep(d.day as nat), 2);
    lemma_val_dec_rep(d.year as nat);
    lemma_val_dec_rep(d.month as nat);
    lemma_val_dec_rep(d.day as nat);
    let toks = seq![py, pm, pd];
    assert(toks.drop_first() =~~= seq![pm, pd]);
    assert(seq![pm, pd].drop_first() =~~= seq![pd]);
    assert(crate::text::join(seq![pd], '-') == pd);
    assert(crate::text::join(seq![pm, pd], '-') == pm + seq!['-'] + pd);
    assert(crate::text::join(toks, '-') == py + seq!['-'] + (pm + seq!['-'] + pd));
    assert(crate::text::join(toks, '-') =~~= spec_render_date(d));
    assert forall|i: int, j: int|
        0 <= i < toks.len() && 0 <= j < toks[i].len() implies toks[i][j] != '-' by {
        if i == 0 {
            assert(is_digit_ch(py[j]));
        } else if i == 1 {
            assert(is_digit_ch(pm[j]));
        } else {
            assert(is_digit_ch(pd[j]));
        }
    }
    lemma_split_join(toks, '-');
    let ps = split(spec_render_date(d), '-');
    assert(ps == toks);
    assert(val(ps[0]) == d.year as int && val(ps[1]) == d.month as int && val(ps[2])
        == d.day as int);
    let r = spec_render_date(d);
    let ly = py.len() as int;
    let lm = pm.len() as int;
    assert forall|j: int| 0 <= j < r.len() implies (is_digit_ch(r[j]) || r[j] == '-') by {
        if j < ly {
            assert(r[j] == py[j]);
        } else if j == ly {
            assert(r[j] == '-');
        } else if j < ly + 1 + lm {
            assert(r[j] == pm[j - ly - 1]);
        } else if j == ly + 1 + lm {
            assert(r[j] == '-');
        } else {
            assert(r[j] == pd[j - ly - 1 - lm - 1]);
        }
    }
}

// ---------------------------------------------------------------------
// The current date.
// ---------------------------------------------------------------------

/// Relies on `chrono::Utc::now` and `chrono::NaiveDate`'s `Datelike`
/// accessors: the current UTC date is a real proleptic-Gregorian
/// calendar date, so its month is 1 through 12 and its day of month
/// exists in that month of that year.
#[verifier::external_body]
fn today_ymd() -> (r: (i32, u32, u32))
    ensures
        1 <= r.1 <= 12,
        1 <= r.2 && r.2 as int <= days_in_month(r.0 as int, r.1 as int),
{
    let d = chrono::Utc::now().date_naive();
    (d.year(), d.month(), d.day())
}

/// The current UTC date, clamped into the representable year range.
pub fn today() -> (d: Date)
    ensures
        d.wf(),
{
    let (y, m, dd) = today_ymd();
    if y < 0 {
        Date { year: 0, month: 1, day: 1 }
    } else if y > MAX_YEAR as i32 {
        Date { year: MAX_YEAR, month: 12, day: 31 }
    } else {
        Date { year: y as u32, month: m, day: dd }
    }
}

} // verus!
