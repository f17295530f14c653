//! Instants, days, and the one timestamp format of the store.

use vstd::prelude::*;

use crate::error::AppError;
use crate::error::Failure;
use crate::text;
use crate::text::digit;

verus! {

broadcast use vstd::seq_lib::group_seq_properties;

/// An instant: seconds since 1970 in UTC, and nanoseconds within the second. A
/// leap second counts a second billion of them.
#[derive(Clone, Copy, PartialEq, Eq, Structural, Debug)]
pub struct Stamp {
    pub secs: i64,
    pub nanos: u32,
}

pub const FIRST_SECS: i64 = -8_334_601_228_800;

pub const LAST_SECS: i64 = 8_210_266_876_799;

/// The instants the calendar reaches: years -262143 to 262142, and leap
/// seconds only at the end of a minute.
pub open spec fn valid(t: Stamp) -> bool {
    &&& FIRST_SECS <= t.secs <= LAST_SECS
    &&& t.nanos < 2_000_000_000
    &&& t.nanos >= 1_000_000_000 ==> t.secs as int % 60 == 59
}

/// Outside a leap second.
pub open spec fn plain(t: Stamp) -> bool {
    valid(t) && t.nanos < 1_000_000_000
}

/// Nanoseconds since 1970, leap seconds aside.
pub open spec fn instant(t: Stamp) -> int {
    t.secs * 1_000_000_000 + t.nanos
}

/// `a` is before `b`.
pub open spec fn earlier(a: Stamp, b: Stamp) -> bool {
    a.secs < b.secs || (a.secs == b.secs && a.nanos < b.nanos)
}

pub fn is_earlier(a: Stamp, b: Stamp) -> (r: bool)
    ensures
        r == earlier(a, b),
{
    a.secs < b.secs || (a.secs == b.secs && a.nanos < b.nanos)
}

/// The later of two instants.
pub open spec fn latest(a: Stamp, b: Stamp) -> Stamp {
    if earlier(a, b) {
        b
    } else {
        a
    }
}

/// The earlier of two instants.
pub open spec fn earliest(a: Stamp, b: Stamp) -> Stamp {
    if earlier(b, a) {
        b
    } else {
        a
    }
}

pub fn later_of(a: Stamp, b: Stamp) -> (r: Stamp)
    ensures
        r == latest(a, b),
{
    if is_earlier(a, b) {
        b
    } else {
        a
    }
}

pub fn earlier_of(a: Stamp, b: Stamp) -> (r: Stamp)
    ensures
        r == earliest(a, b),
{
    if is_earlier(b, a) {
        b
    } else {
        a
    }
}

/// Division that drops the remainder, whatever the sign.
pub open spec fn toward_zero(n: int, d: int) -> int {
    if n >= 0 {
        n / d
    } else {
        -((-n) / d)
    }
}

// ------------------------------------------------------------- the calendar

pub open spec fn leap_year(y: int) -> bool {
    y % 4 == 0 && (y % 100 != 0 || y % 400 == 0)
}

pub open spec fn days_in(y: int, m: int) -> int {
    if m == 2 {
        if leap_year(y) {
            29
        } else {
            28
        }
    } else if m == 4 || m == 6 || m == 9 || m == 11 {
        30
    } else {
        31
    }
}

/// Days of the months of year `y` before month `m`.
pub open spec fn before_month(y: int, m: int) -> int
    decreases m,
{
    if m <= 1 {
        0
    } else {
        before_month(y, m - 1) + days_in(y, m - 1)
    }
}

/// Days of the years from 0 before year `y`.
pub open spec fn before_year(y: int) -> int {
    365 * y + (y + 3) / 4 - (y + 99) / 100 + (y + 399) / 400
}

/// A day of the years 0 to 9999.
pub open spec fn valid_day(y: int, m: int, d: int) -> bool {
    0 <= y <= 9999 && 1 <= m <= 12 && 1 <= d <= days_in(y, m)
}

/// Days since 1970-01-01.
pub open spec fn day_number(y: int, m: int, d: int) -> int {
    before_year(y) + before_month(y, m) + d - 1 - 719528
}

pub open spec fn day_before(y: int, m: int, d: int, y2: int, m2: int, d2: int) -> bool {
    y < y2 || (y == y2 && (m < m2 || (m == m2 && d < d2)))
}

proof fn lemma_months(y: int, m: int)
    requires
        1 <= m <= 12,
    ensures
        0 <= before_month(y, m),
        before_month(y, m) + days_in(y, m) <= 365 + (if leap_year(y) {
            1int
        } else {
            0
        }),
{
    reveal_with_fuel(before_month, 13);
}

proof fn lemma_months_grow(y: int, m: int, n: int)
    requires
        1 <= m < n <= 12,
    ensures
        before_month(y, m) + days_in(y, m) <= before_month(y, n),
    decreases n - m,
{
    if n > m + 1 {
        lemma_months_grow(y, m, n - 1);
    }
}

proof fn lemma_next_multiple(y: int, d: int)
    requires
        0 <= y,
        0 < d,
    ensures
        (y + 1 + d - 1) / d == (y + d - 1) / d + (if y % d == 0 {
            1int
        } else {
            0
        }),
{
    let q = y / d;
    let r = y % d;
    vstd::arithmetic::div_mod::lemma_fundamental_div_mod(y, d);
    assert(y + d == (q + 1) * d + r) by (nonlinear_arith)
        requires
            y == d * q + r,
    ;
    vstd::arithmetic::div_mod::lemma_fundamental_div_mod_converse(y + d, d, q + 1, r);
    if r == 0 {
        assert(y + d - 1 == q * d + (d - 1)) by (nonlinear_arith)
            requires
                y == d * q,
        ;
        vstd::arithmetic::div_mod::lemma_fundamental_div_mod_converse(y + d - 1, d, q, d - 1);
    } else {
        assert(y + d - 1 == (q + 1) * d + (r - 1)) by (nonlinear_arith)
            requires
                y == d * q + r,
        ;
        vstd::arithmetic::div_mod::lemma_fundamental_div_mod_converse(y + d - 1, d, q + 1, r - 1);
    }
}

proof fn lemma_next_year(y: int)
    requires
        0 <= y,
    ensures
        before_year(y + 1) == before_year(y) + 365 + (if leap_year(y) {
            1int
        } else {
            0
        }),
{
    assert((y + 4) / 4 == (y + 3) / 4 + once(y % 4 == 0)) by {
        lemma_next_multiple(y, 4);
    }
    assert((y + 100) / 100 == (y + 99) / 100 + once(y % 100 == 0)) by {
        lemma_next_multiple(y, 100);
    }
    assert((y + 400) / 400 == (y + 399) / 400 + once(y % 400 == 0)) by {
        lemma_next_multiple(y, 400);
    }
    lemma_leap_terms(y);
}

/// One where it holds.
spec fn once(p: bool) -> int {
    if p {
        1
    } else {
        0
    }
}

/// A leap year is counted once by its divisors.
proof fn lemma_leap_terms(y: int)
    requires
        0 <= y,
    ensures
        once(leap_year(y)) == once(y % 4 == 0) - once(y % 100 == 0) + once(y % 400 == 0),
{
    assert(y % 100 == 0 ==> y % 4 == 0);
    assert(y % 400 == 0 ==> y % 100 == 0);
}

proof fn lemma_years_grow(y: int, z: int)
    requires
        0 <= y < z,
    ensures
        before_year(y) + 365 + (if leap_year(y) {
            1int
        } else {
            0
        }) <= before_year(z),
    decreases z - y,
{
    if z > y + 1 {
        lemma_years_grow(y, z - 1);
        lemma_next_year(z - 1);
    } else {
        lemma_next_year(y);
    }
}

/// The numbers of days follow the calendar.
pub proof fn days_are_numbered_in_order(y: int, m: int, d: int, y2: int, m2: int, d2: int)
    requires
        valid_day(y, m, d),
        valid_day(y2, m2, d2),
    ensures
        day_before(y, m, d, y2, m2, d2) <==> day_number(y, m, d) < day_number(y2, m2, d2),
{
    lemma_months(y, m);
    lemma_months(y2, m2);
    if y < y2 {
        lemma_years_grow(y, y2);
    } else if y2 < y {
        lemma_years_grow(y2, y);
    } else if m < m2 {
        lemma_months_grow(y, m, m2);
    } else if m2 < m {
        lemma_months_grow(y, m2, m);
    }
}

// ------------------------------------------------------------------ layouts

pub open spec fn two(n: int) -> Seq<char> {
    seq![digit(n / 10), digit(n % 10)]
}

pub open spec fn four(n: int) -> Seq<char> {
    seq![digit(n / 1000), digit(n / 100 % 10), digit(n / 10 % 10), digit(n % 10)]
}

/// `YYYY-MM-DD`
pub open spec fn day_layout(y: int, m: int, d: int) -> Seq<char> {
    four(y) + seq!['-'] + two(m) + seq!['-'] + two(d)
}

/// `hh:mm:ss`
pub open spec fn clock_layout(h: int, i: int, s: int) -> Seq<char> {
    two(h) + seq![':'] + two(i) + seq![':'] + two(s)
}

/// `YYYY-MM-DDThh:mm:ss+00:00`
pub open spec fn stamp_layout(y: int, m: int, d: int, h: int, i: int, s: int) -> Seq<char> {
    day_layout(y, m, d) + seq!['T'] + clock_layout(h, i, s) + seq!['+', '0', '0', ':', '0', '0']
}

pub open spec fn spells_day(t: Seq<char>, y: int, m: int, d: int) -> bool {
    valid_day(y, m, d) && t == day_layout(y, m, d)
}

/// `t` is a day in its one canonical form.
pub open spec fn canonical_day(t: Seq<char>) -> bool {
    exists|y: int, m: int, d: int| spells_day(t, y, m, d)
}

pub open spec fn spells_fields(
    t: Seq<char>,
    secs: int,
    y: int,
    m: int,
    d: int,
    h: int,
    i: int,
    s: int,
) -> bool {
    &&& valid_day(y, m, d)
    &&& 0 <= h < 24
    &&& 0 <= i < 60
    &&& 0 <= s < 60
    &&& day_number(y, m, d) * 86400 + h * 3600 + i * 60 + s == secs
    &&& t == stamp_layout(y, m, d, h, i, s)
}

/// `t` is that second in the store's format.
pub open spec fn spells_stamp(t: Seq<char>, secs: int) -> bool {
    exists|y: int, m: int, d: int, h: int, i: int, s: int|
        spells_fields(t, secs, y, m, d, h, i, s)
}

proof fn lemma_before_parts(a: Seq<char>, b: Seq<char>, x: Seq<char>, y: Seq<char>)
    requires
        a.len() == b.len(),
    ensures
        text::before(a + x, b + y) <==> text::before(a, b) || (a == b && text::before(x, y)),
    decreases a.len(),
{
    if a.len() == 0 {
        assert(a + x =~= x);
        assert(b + y =~= y);
        assert(a =~= b);
    } else {
        assert((a + x).drop_first() =~= a.drop_first() + x);
        assert((b + y).drop_first() =~= b.drop_first() + y);
        lemma_before_parts(a.drop_first(), b.drop_first(), x, y);
        if a[0] == b[0] {
            assert(a =~= seq![a[0]] + a.drop_first());
            assert(b =~= seq![b[0]] + b.drop_first());
        }
    }
}

proof fn lemma_two(m: int, n: int)
    requires
        0 <= m <= 99,
        0 <= n <= 99,
    ensures
        text::before(two(m), two(n)) <==> m < n,
        two(m) == two(n) <==> m == n,
{
    reveal_with_fuel(text::before, 4);
    let (a, b) = (two(m), two(n));
    assert(a.drop_first() =~= seq![digit(m % 10)]);
    assert(b.drop_first() =~= seq![digit(n % 10)]);
    assert(a.drop_first().drop_first() =~= seq![]);
    assert(b.drop_first().drop_first() =~= seq![]);
    if two(m) == two(n) {
        assert(a[0] == b[0] && a[1] == b[1]);
    }
}

proof fn lemma_four_halves(m: int)
    requires
        0 <= m <= 9999,
    ensures
        four(m) == two(m / 100) + two(m % 100),
{
    assert(m / 100 / 10 == m / 1000);
    assert(m / 100 % 10 == m / 100 % 10);
    assert(m % 100 / 10 == m / 10 % 10);
    assert(m % 100 % 10 == m % 10);
    assert(four(m) =~= two(m / 100) + two(m % 100));
}

proof fn lemma_four(m: int, n: int)
    requires
        0 <= m <= 9999,
        0 <= n <= 9999,
    ensures
        text::before(four(m), four(n)) <==> m < n,
        four(m) == four(n) <==> m == n,
{
    let (a, b) = (two(m / 100), two(n / 100));
    let (x, y) = (two(m % 100), two(n % 100));
    lemma_four_halves(m);
    lemma_four_halves(n);
    assert(m / 100 < n / 100 || (m / 100 == n / 100 && m % 100 < n % 100) <==> m < n);
    lemma_before_parts(a, b, x, y);
    lemma_two(m / 100, n / 100);
    lemma_two(m % 100, n % 100);
    if four(m) == four(n) {
        assert(a =~= four(m).take(2));
        assert(b =~= four(n).take(2));
        assert(x =~= four(m).skip(2));
        assert(y =~= four(n).skip(2));
    }
}

proof fn lemma_day_layouts(y: int, m: int, d: int, y2: int, m2: int, d2: int)
    requires
        valid_day(y, m, d),
        valid_day(y2, m2, d2),
    ensures
        text::before(day_layout(y, m, d), day_layout(y2, m2, d2)) <==> day_before(
            y,
            m,
            d,
            y2,
            m2,
            d2,
        ),
        day_layout(y, m, d) == day_layout(y2, m2, d2) <==> (y == y2 && m == m2 && d == d2),
{
    let dash = seq!['-'];
    let (a, b) = (four(y), four(y2));
    lemma_four(y, y2);
    lemma_two(m, m2);
    lemma_two(d, d2);
    text::lemma_before_irreflexive(dash);
    lemma_before_parts(a, b, dash, dash);
    lemma_before_parts(a + dash, b + dash, two(m), two(m2));
    lemma_before_parts(a + dash + two(m), b + dash + two(m2), dash, dash);
    lemma_before_parts(a + dash + two(m) + dash, b + dash + two(m2) + dash, two(d), two(d2));
    let (p, q) = (day_layout(y, m, d), day_layout(y2, m2, d2));
    assert((a + dash).take(4) =~= a && (b + dash).take(4) =~= b);
    assert((a + dash + two(m)).take(5) =~= a + dash && (b + dash + two(m2)).take(5) =~= b + dash);
    assert((a + dash + two(m)).skip(5) =~= two(m) && (b + dash + two(m2)).skip(5) =~= two(m2));
    assert((a + dash + two(m) + dash).take(7) =~= a + dash + two(m));
    assert((b + dash + two(m2) + dash).take(7) =~= b + dash + two(m2));
    assert(p.take(8) =~= a + dash + two(m) + dash);
    assert(q.take(8) =~= b + dash + two(m2) + dash);
    assert(p.skip(8) =~= two(d));
    assert(q.skip(8) =~= two(d2));
}

/// For days in canonical form, the order of the strings is the order of the
/// days.
pub proof fn string_order_is_day_order(
    t: Seq<char>,
    y: int,
    m: int,
    d: int,
    t2: Seq<char>,
    y2: int,
    m2: int,
    d2: int,
)
    requires
        spells_day(t, y, m, d),
        spells_day(t2, y2, m2, d2),
    ensures
        text::before(t, t2) <==> day_number(y, m, d) < day_number(y2, m2, d2),
        t == t2 <==> day_number(y, m, d) == day_number(y2, m2, d2),
{
    lemma_day_layouts(y, m, d, y2, m2, d2);
    days_are_numbered_in_order(y, m, d, y2, m2, d2);
    days_are_numbered_in_order(y2, m2, d2, y, m, d);
}

proof fn lemma_clock_layouts(h: int, i: int, s: int, h2: int, i2: int, s2: int)
    requires
        0 <= h < 24,
        0 <= i < 60,
        0 <= s < 60,
        0 <= h2 < 24,
        0 <= i2 < 60,
        0 <= s2 < 60,
    ensures
        text::before(clock_layout(h, i, s), clock_layout(h2, i2, s2)) <==> h * 3600 + i * 60 + s
            < h2 * 3600 + i2 * 60 + s2,
        clock_layout(h, i, s) == clock_layout(h2, i2, s2) <==> h * 3600 + i * 60 + s == h2 * 3600
            + i2 * 60 + s2,
{
    let c = seq![':'];
    lemma_two(h, h2);
    lemma_two(i, i2);
    lemma_two(s, s2);
    text::lemma_before_irreflexive(c);
    let (a, b) = (two(h), two(h2));
    lemma_before_parts(a, b, c, c);
    lemma_before_parts(a + c, b + c, two(i), two(i2));
    lemma_before_parts(a + c + two(i), b + c + two(i2), c, c);
    lemma_before_parts(a + c + two(i) + c, b + c + two(i2) + c, two(s), two(s2));
    let (p, q) = (clock_layout(h, i, s), clock_layout(h2, i2, s2));
    assert((a + c).take(2) =~= a && (b + c).take(2) =~= b);
    assert((a + c + two(i)).take(3) =~= a + c && (b + c + two(i2)).take(3) =~= b + c);
    assert((a + c + two(i)).skip(3) =~= two(i) && (b + c + two(i2)).skip(3) =~= two(i2));
    assert((a + c + two(i) + c).take(5) =~= a + c + two(i));
    assert((b + c + two(i2) + c).take(5) =~= b + c + two(i2));
    assert(p.take(6) =~= a + c + two(i) + c);
    assert(q.take(6) =~= b + c + two(i2) + c);
    assert(p.skip(6) =~= two(s));
    assert(q.skip(6) =~= two(s2));
}

/// For stamps in the store's format, a string comparison is a time comparison.
pub proof fn string_order_is_time_order(t: Seq<char>, secs: int, t2: Seq<char>, secs2: int)
    requires
        spells_stamp(t, secs),
        spells_stamp(t2, secs2),
    ensures
        text::before(t, t2) <==> secs < secs2,
        t == t2 <==> secs == secs2,
{
    let (y, m, d, h, i, s) = choose|y: int, m: int, d: int, h: int, i: int, s: int|
        spells_fields(t, secs, y, m, d, h, i, s);
    let (y2, m2, d2, h2, i2, s2) = choose|y: int, m: int, d: int, h: int, i: int, s: int|
        spells_fields(t2, secs2, y, m, d, h, i, s);
    let tee = seq!['T'];
    let zone = seq!['+', '0', '0', ':', '0', '0'];
    let (a, b) = (day_layout(y, m, d), day_layout(y2, m2, d2));
    let (x, z) = (clock_layout(h, i, s), clock_layout(h2, i2, s2));
    lemma_day_layouts(y, m, d, y2, m2, d2);
    days_are_numbered_in_order(y, m, d, y2, m2, d2);
    days_are_numbered_in_order(y2, m2, d2, y, m, d);
    lemma_clock_layouts(h, i, s, h2, i2, s2);
    text::lemma_before_irreflexive(tee);
    text::lemma_before_irreflexive(zone);
    lemma_before_parts(a, b, tee, tee);
    lemma_before_parts(a + tee, b + tee, x, z);
    lemma_before_parts(a + tee + x, b + tee + z, zone, zone);
    assert((a + tee).take(10) =~= a && (b + tee).take(10) =~= b);
    assert((a + tee + x).take(11) =~= a + tee && (b + tee + z).take(11) =~= b + tee);
    assert((a + tee + x).skip(11) =~= x && (b + tee + z).skip(11) =~= z);
    assert(t.take(19) =~= a + tee + x);
    assert(t2.take(19) =~= b + tee + z);
}

// ----------------------------------------------------------------- the clock

/// What an instant reads as in the format `%Y-%m-%dT%H:%M:%S+00:00`.
pub uninterp spec fn stamp_text(t: Stamp) -> Seq<char>;

/// The instant an RFC 3339 timestamp names.
pub uninterp spec fn rfc3339(s: Seq<char>) -> Option<Stamp>;

/// The instant a timestamp of the form `%Y-%m-%dT%H:%M:%S` names, taken as UTC.
pub uninterp spec fn naive(s: Seq<char>) -> Option<Stamp>;

/// Within a leap second.
pub open spec fn leap(t: Stamp) -> bool {
    t.nanos >= 1_000_000_000
}

/// The instant `ms` milliseconds after `t`; `None` past the calendar's end.
///
/// From within a leap second, less than a second of difference may stay in it
/// or fall back into the second before; whoever leaves it forwards, by however
/// much, has that one second behind them.
pub open spec fn shifted(t: Stamp, ms: i64) -> Option<Stamp> {
    let whole = toward_zero(ms as int, 1000);
    let nanos = t.nanos + ms * 1_000_000;
    if leap(t) && whole == 0 && nanos < 2_000_000_000 {
        Some(Stamp { secs: t.secs, nanos: nanos as u32 })
    } else {
        let passed: int = if leap(t) && whole >= 0 {
            1_000_000_000
        } else {
            0
        };
        let at = instant(t) + ms * 1_000_000 - passed;
        if FIRST_SECS * 1_000_000_000 <= at < (LAST_SECS + 1) * 1_000_000_000 {
            Some(Stamp { secs: (at / 1_000_000_000) as i64, nanos: (at % 1_000_000_000) as u32 })
        } else {
            None
        }
    }
}

/// The second that lies between `b` and `a` beside their difference: one of
/// the two is in a leap second, and comes first by the time of day.
pub open spec fn leap_between(a: Stamp, b: Stamp) -> int {
    let (x, y) = (a.secs as int % 86400, b.secs as int % 86400);
    if x > y && leap(b) {
        1
    } else if x < y && leap(a) {
        -1
    } else {
        0
    }
}

/// Whole milliseconds from `b` to `a`, the rest dropped.
pub open spec fn apart(a: Stamp, b: Stamp) -> i64 {
    toward_zero(
        instant(a) - instant(b) + leap_between(a, b) * 1_000_000_000,
        1_000_000,
    ) as i64
}

/// Outside leap seconds to shift is to add, and it fails only where the sum is
/// past the calendar's end.
pub proof fn shifting_adds(t: Stamp, ms: i64)
    requires
        valid(t),
    ensures
        shifted(t, ms) is Some ==> valid(shifted(t, ms)->0),
        plain(t) ==> match shifted(t, ms) {
            Some(u) => plain(u) && instant(u) == instant(t) + ms * 1_000_000,
            None => instant(t) + ms * 1_000_000 < FIRST_SECS * 1_000_000_000 || instant(t) + ms
                * 1_000_000 >= (LAST_SECS + 1) * 1_000_000_000,
        },
{
}

/// Outside leap seconds two instants are as far apart as their difference
/// says, and no rounding is left of whole milliseconds.
pub proof fn distance_is_the_difference(a: Stamp, b: Stamp)
    requires
        plain(a),
        plain(b),
    ensures
        apart(a, b) == toward_zero(instant(a) - instant(b), 1_000_000),
        whole_ms(a) && whole_ms(b) ==> apart(a, b) * 1_000_000 == instant(a) - instant(b),
{
}

/// On a whole millisecond.
pub open spec fn whole_ms(t: Stamp) -> bool {
    t.nanos as int % 1_000_000 == 0
}

/// A day read as `%Y-%m-%d` and written in that format again.
pub uninterp spec fn rewritten_day(s: Seq<char>) -> Option<Seq<char>>;

/// `chrono::Utc::now`. Which instant it is is left to the clock.
#[verifier::external_body]
pub(crate) fn clock() -> (t: Stamp)
    ensures
        plain(t),
{
    let now = chrono::Utc::now();
    Stamp { secs: now.timestamp(), nanos: now.timestamp_subsec_nanos() }
}

/// An instant outside leap seconds in the years 0 to 9999.
pub open spec fn in_four_digits(t: Stamp) -> bool {
    plain(t) && day_number(0, 1, 1) * 86400 <= t.secs < (day_number(9999, 12, 31) + 1) * 86400
}

/// `chrono::DateTime::format` with `%Y-%m-%dT%H:%M:%S+00:00`: within the years
/// 0 to 9999 it spells the second.
#[verifier::external_body]
pub(crate) fn format_stamp(t: Stamp) -> (s: String)
    requires
        valid(t),
    ensures
        s@ == stamp_text(t),
        in_four_digits(t) ==> spells_stamp(s@, t.secs as int),
{
    chrono::DateTime::from_timestamp(t.secs, t.nanos).unwrap_or_default().format(
        "%Y-%m-%dT%H:%M:%S+00:00",
    ).to_string()
}

/// `chrono::DateTime::parse_from_rfc3339`: what spells a second in the store's
/// format is read as that second.
#[verifier::external_body]
fn parse_rfc3339(s: &str) -> (t: Option<Stamp>)
    ensures
        t == rfc3339(s@),
        t is Some ==> valid(t->0),
        forall|secs: int|
            #[trigger] spells_stamp(s@, secs) ==> t == Some(
                (Stamp { secs: secs as i64, nanos: 0 }),
            ),
{
    let at = chrono::DateTime::parse_from_rfc3339(s).ok()?;
    Some(Stamp { secs: at.timestamp(), nanos: at.timestamp_subsec_nanos() })
}

/// `chrono::NaiveDateTime::parse_from_str` with `%Y-%m-%dT%H:%M:%S`, the result
/// taken as UTC.
#[verifier::external_body]
fn parse_naive(s: &str) -> (t: Option<Stamp>)
    ensures
        t == naive(s@),
        t is Some ==> valid(t->0),
{
    let at = chrono::NaiveDateTime::parse_from_str(s, "%Y-%m-%dT%H:%M:%S").ok()?.and_utc();
    Some(Stamp { secs: at.timestamp(), nanos: at.timestamp_subsec_nanos() })
}

/// `chrono::DateTime::checked_add_signed`: adds the milliseconds, with at most
/// the one leap second that `t` may stand in.
#[verifier::external_body]
pub(crate) fn shift(t: Stamp, ms: i64) -> (r: Option<Stamp>)
    requires
        valid(t),
        ms > i64::MIN,
    ensures
        r == shifted(t, ms),
{
    let at = chrono::DateTime::from_timestamp(t.secs, t.nanos)?.checked_add_signed(
        chrono::TimeDelta::milliseconds(ms),
    )?;
    Some(Stamp { secs: at.timestamp(), nanos: at.timestamp_subsec_nanos() })
}

/// `chrono::DateTime::signed_duration_since` and
/// `TimeDelta::num_milliseconds`: the difference, with the leap second that
/// lies between the two, and the fraction of a millisecond dropped.
#[verifier::external_body]
pub(crate) fn millis_between(a: Stamp, b: Stamp) -> (ms: i64)
    requires
        valid(a),
        valid(b),
    ensures
        ms == apart(a, b),
{
    let from = chrono::DateTime::from_timestamp(b.secs, b.nanos).unwrap_or_default();
    let to = chrono::DateTime::from_timestamp(a.secs, a.nanos).unwrap_or_default();
    to.signed_duration_since(from).num_milliseconds()
}

/// `chrono::NaiveDate::parse_from_str` and `format`, both with `%Y-%m-%d`: what
/// comes out in ten characters is a day of the years 0 to 9999.
#[verifier::external_body]
fn rewrite_day(s: &str) -> (r: Option<String>)
    ensures
        text::opt_view(r) == rewritten_day(s@),
        r is Some && r->0@.len() == 10 ==> canonical_day(r->0@),
{
    let day = chrono::NaiveDate::parse_from_str(s, "%Y-%m-%d").ok()?;
    Some(day.format("%Y-%m-%d").to_string())
}

/// The store's timestamp for this moment.
pub fn now() -> (s: String)
    ensures
        exists|t: Stamp|
            {
                &&& plain(t)
                &&& s@ == #[trigger] stamp_text(t)
                &&& in_four_digits(t) ==> spells_stamp(s@, t.secs as int)
            },
{
    let t = clock();
    format_stamp(t)
}

/// The instant a timestamp names: RFC 3339, or the same without an offset,
/// which is then UTC.
pub open spec fn instant_of(s: Seq<char>) -> Option<Stamp> {
    match rfc3339(s) {
        Some(t) => Some(t),
        None => naive(s),
    }
}

/// The first reading, or else the second.
pub fn either_stamp(first: Option<Stamp>, second: Option<Stamp>, s: &str) -> (r: Result<
    Stamp,
    AppError,
>)
    ensures
        match r {
            Ok(t) => first == Some(t) || (first is None && second == Some(t)),
            Err(e) => first is None && second is None && e@ == Failure::BadTimestamp(s@),
        },
{
    match first {
        Some(t) => Ok(t),
        None => match second {
            Some(t) => Ok(t),
            None => Err(AppError::BadTimestamp(text::owned(s))),
        },
    }
}

/// Reads a timestamp. One in the store's format gives back the second that it
/// spells.
pub fn parse_ts(s: &str) -> (r: Result<Stamp, AppError>)
    ensures
        match r {
            Ok(t) => instant_of(s@) == Some(t) && valid(t),
            Err(e) => instant_of(s@) is None && e@ == Failure::BadTimestamp(s@),
        },
        forall|secs: int|
            #[trigger] spells_stamp(s@, secs) ==> instant_of(s@) == Some(
                (Stamp { secs: secs as i64, nanos: 0 }),
            ),
{
    either_stamp(parse_rfc3339(s), parse_naive(s), s)
}

/// A due date is accepted in its canonical form only: reading it and writing
/// it again gives it back.
pub open spec fn due_ok(s: Seq<char>) -> bool {
    rewritten_day(s) == Some(s)
}

/// Whether a due date is in canonical form.
pub fn is_canonical(rewritten: &Option<String>, s: &str) -> (r: bool)
    ensures
        r == (text::opt_view(*rewritten) == Some(s@)),
{
    match rewritten {
        Some(t) => text::same(t.as_str(), s),
        None => false,
    }
}

/// Whether a due date is in canonical form; one of ten characters is then a
/// day of the years 0 to 9999.
pub fn check_day(s: &str) -> (r: bool)
    ensures
        r == due_ok(s@),
        r && s@.len() == 10 ==> canonical_day(s@),
{
    let t = rewrite_day(s);
    is_canonical(&t, s)
}

} // verus!
