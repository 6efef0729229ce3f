use vstd::prelude::*;

verus! {

/// The most decimal digits a quantity field may hold.
pub const MAX_QUANTITY_DIGITS: usize = 18;

/// The most digits the whole-number part of a price field may hold.
pub const MAX_PRICE_DIGITS: usize = 15;

pub open spec fn is_digit(b: u8) -> bool {
    48 <= b <= 57
}

pub open spec fn all_digits(s: Seq<u8>) -> bool {
    forall|i: int| 0 <= i < s.len() ==> is_digit(#[trigger] s[i])
}

/// The number that a run of decimal digits spells.
pub open spec fn digits_value(s: Seq<u8>) -> int
    decreases s.len(),
{
    if s.len() == 0 {
        0
    } else {
        digits_value(s.drop_last()) * 10 + (s.last() - 48)
    }
}

pub open spec fn pow10(n: nat) -> int
    decreases n,
{
    if n == 0 {
        1
    } else {
        10 * pow10((n - 1) as nat)
    }
}

/// A quantity: one to eighteen decimal digits, nothing else.
pub open spec fn quantity_of(s: Seq<u8>) -> Option<int> {
    if 1 <= s.len() <= MAX_QUANTITY_DIGITS && all_digits(s) {
        Some(digits_value(s))
    } else {
        None
    }
}

/// A price in hundredths: a whole part of one to fifteen digits, optionally
/// followed by `.` and one or two fractional digits.
pub open spec fn price_cents_of(s: Seq<u8>) -> Option<int> {
    let n = s.len() as int;
    if 1 <= n <= MAX_PRICE_DIGITS && all_digits(s) {
        Some(digits_value(s) * 100)
    } else if 3 <= n <= MAX_PRICE_DIGITS + 2 && s[n - 2] == 46u8 && all_digits(s.subrange(0, n - 2))
        && is_digit(s[n - 1]) {
        Some(digits_value(s.subrange(0, n - 2)) * 100 + (s[n - 1] - 48) * 10)
    } else if 4 <= n <= MAX_PRICE_DIGITS + 3 && s[n - 3] == 46u8 && all_digits(
        s.subrange(0, n - 3),
    ) && all_digits(s.subrange(n - 2, n)) {
        Some(digits_value(s.subrange(0, n - 3)) * 100 + digits_value(s.subrange(n - 2, n)))
    } else {
        None
    }
}

/// A calendar date, by its parts.
#[derive(Clone, Copy, Debug, PartialEq, Eq)]
pub struct Date {
    pub year: u32,
    pub month: u32,
    pub day: u32,
}

pub open spec fn is_leap_year(y: int) -> bool {
    y % 4 == 0 && (y % 100 != 0 || y % 400 == 0)
}

pub open spec fn days_in_month(y: int, m: int) -> int {
    if m == 2 {
        if is_leap_year(y) {
            29
        } else {
            28
        }
    } else if m == 4 || m == 6 || m == 9 || m == 11 {
        30
    } else {
        31
    }
}

/// A date written `YYYY-MM-DD` that names a day of the Gregorian calendar.
pub open spec fn date_of(s: Seq<u8>) -> Option<Date> {
    if s.len() == 10 && s[4] == 45u8 && s[7] == 45u8 && all_digits(s.subrange(0, 4))
        && all_digits(s.subrange(5, 7)) && all_digits(s.subrange(8, 10)) {
        let y = digits_value(s.subrange(0, 4));
        let m = digits_value(s.subrange(5, 7));
        let d = digits_value(s.subrange(8, 10));
        if 1 <= m <= 12 && 1 <= d <= days_in_month(y, m) {
            Some(Date { year: y as u32, month: m as u32, day: d as u32 })
        } else {
            None
        }
    } else {
        None
    }
}

/// The quarter of the year that a month falls in.
pub open spec fn quarter_of(month: int) -> int {
    (month - 1) / 3 + 1
}

proof fn lemma_pow10_monotone(a: nat, b: nat)
    requires
        a <= b,
    ensures
        1 <= pow10(a) <= pow10(b),
    decreases b,
{
    if b > 0 {
        if a < b {
            lemma_pow10_monotone(a, (b - 1) as nat);
        } else {
            lemma_pow10_monotone((b - 1) as nat, (b - 1) as nat);
        }
    }
}

proof fn lemma_pow10_18()
    ensures
        pow10(18) == 1_000_000_000_000_000_000,
{
    reveal_with_fuel(pow10, 19);
}

/// Reads the digits `s[start..end]`, which all are decimal digits.
fn digits_in(s: &Vec<u8>, start: usize, end: usize) -> (r: u64)
    requires
        start <= end <= s.len(),
        end - start <= 18,
        all_digits(s@.subrange(start as int, end as int)),
    ensures
        r == digits_value(s@.subrange(start as int, end as int)),
        r < pow10((end - start) as nat),
{
    let mut v: u64 = 0;
    let mut i: usize = start;
    proof {
        lemma_pow10_18();
    }
    while i < end
        invariant
            start <= i <= end <= s.len(),
            end - start <= 18,
            all_digits(s@.subrange(start as int, end as int)),
            v == digits_value(s@.subrange(start as int, i as int)),
            v < pow10((i - start) as nat),
            pow10(18) == 1_000_000_000_000_000_000,
        decreases end - i,
    {
        let b = s[i];
        proof {
            assert(s@.subrange(start as int, end as int)[i - start] == b);
            assert(s@.subrange(start as int, i + 1).drop_last() =~= s@.subrange(
                start as int,
                i as int,
            ));
            lemma_pow10_monotone((i + 1 - start) as nat, 18);
        }
        v = v * 10 + (b - 48) as u64;
        i = i + 1;
    }
    v
}

fn all_digits_in(s: &Vec<u8>, start: usize, end: usize) -> (r: bool)
    requires
        start <= end <= s.len(),
    ensures
        r == all_digits(s@.subrange(start as int, end as int)),
{
    let mut i: usize = start;
    while i < end
        invariant
            start <= i <= end <= s.len(),
            forall|k: int| start <= k < i ==> is_digit(s@[k]),
        decreases end - i,
    {
        if s[i] < 48 || s[i] > 57 {
            assert(s@.subrange(start as int, end as int)[i - start] == s@[i as int]);
            return false;
        }
        i = i + 1;
    }
    assert forall|k: int| 0 <= k < end - start implies is_digit(
        #[trigger] s@.subrange(start as int, end as int)[k],
    ) by {
        assert(s@.subrange(start as int, end as int)[k] == s@[start + k]);
    }
    true
}

/// Reads a quantity field.
pub fn parse_quantity(s: &Vec<u8>) -> (r: Option<u64>)
    ensures
        r == match quantity_of(s@) {
            Some(v) => Some(v as u64),
            None => None::<u64>,
        },
        r matches Some(v) ==> v == quantity_of(s@).unwrap(),
{
    let n = s.len();
    if n < 1 || n > MAX_QUANTITY_DIGITS || !all_digits_in(s, 0, n) {
        proof {
            if 1 <= n <= MAX_QUANTITY_DIGITS {
                assert(s@.subrange(0, n as int) =~= s@);
            }
        }
        return None;
    }
    assert(s@.subrange(0, n as int) =~= s@);
    Some(digits_in(s, 0, n))
}

/// Reads a price field, in hundredths.
pub fn parse_price_cents(s: &Vec<u8>) -> (r: Option<u64>)
    ensures
        r == match price_cents_of(s@) {
            Some(v) => Some(v as u64),
            None => None::<u64>,
        },
        r matches Some(v) ==> v == price_cents_of(s@).unwrap(),
{
    let n = s.len();
    proof {
        lemma_pow10_18();
        lemma_pow10_monotone(15, 18);
        reveal_with_fuel(pow10, 16);
    }
    if 1 <= n && n <= MAX_PRICE_DIGITS && all_digits_in(s, 0, n) {
        assert(s@.subrange(0, n as int) =~= s@);
        let w = digits_in(s, 0, n);
        proof {
            lemma_pow10_monotone(n as nat, 15);
        }
        return Some(w * 100);
    }
    proof {
        if 1 <= n <= MAX_PRICE_DIGITS {
            assert(s@.subrange(0, n as int) =~= s@);
        }
    }
    if 3 <= n && n <= MAX_PRICE_DIGITS + 2 && s[n - 2] == 46 && all_digits_in(s, 0, n - 2)
        && 48 <= s[n - 1] && s[n - 1] <= 57 {
        let w = digits_in(s, 0, n - 2);
        proof {
            lemma_pow10_monotone((n - 2) as nat, 15);
        }
        return Some(w * 100 + (s[n - 1] - 48) as u64 * 10);
    }
    if 4 <= n && n <= MAX_PRICE_DIGITS + 3 && s[n - 3] == 46 && all_digits_in(s, 0, n - 3)
        && all_digits_in(s, n - 2, n) {
        let w = digits_in(s, 0, n - 3);
        let f = digits_in(s, n - 2, n);
        proof {
            lemma_pow10_monotone((n - 3) as nat, 15);
            reveal_with_fuel(pow10, 3);
        }
        return Some(w * 100 + f);
    }
    None
}

/// Reads a date field written `YYYY-MM-DD`.
pub fn parse_date(s: &Vec<u8>) -> (r: Option<Date>)
    ensures
        r == date_of(s@),
{
    if s.len() != 10 || s[4] != 45 || s[7] != 45 || !all_digits_in(s, 0, 4) || !all_digits_in(
        s,
        5,
        7,
    ) || !all_digits_in(s, 8, 10) {
        return None;
    }
    proof {
        reveal_with_fuel(pow10, 5);
    }
    let y = digits_in(s, 0, 4) as u32;
    let m = digits_in(s, 5, 7) as u32;
    let d = digits_in(s, 8, 10) as u32;
    if m < 1 || m > 12 || d < 1 || d > days_in_month_exec(y, m) {
        return None;
    }
    Some(Date { year: y, month: m, day: d })
}

fn days_in_month_exec(y: u32, m: u32) -> (r: u32)
    ensures
        r == days_in_month(y as int, m as int),
{
    if m == 2 {
        if y % 4 == 0 && (y % 100 != 0 || y % 400 == 0) {
            29
        } else {
            28
        }
    } else if m == 4 || m == 6 || m == 9 || m == 11 {
        30
    } else {
        31
    }
}

/// The quarter of the year that `month` falls in.
pub fn quarter(month: u32) -> (r: u32)
    requires
        1 <= month <= 12,
    ensures
        r == quarter_of(month as int),
        1 <= r <= 4,
{
    (month - 1) / 3 + 1
}

pub(crate) proof fn lemma_digits_value_bound(s: Seq<u8>)
    requires
        all_digits(s),
    ensures
        0 <= digits_value(s) < pow10(s.len()),
    decreases s.len(),
{
    if s.len() > 0 {
        assert(all_digits(s.drop_last())) by {
            assert forall|i: int| 0 <= i < s.drop_last().len() implies is_digit(
                #[trigger] s.drop_last()[i],
            ) by {
                assert(s.drop_last()[i] == s[i]);
            }
        }
        assert(is_digit(s[s.len() - 1]));
        lemma_digits_value_bound(s.drop_last());
    }
}

/// The parts of a date that reads are those of a calendar day, and a
/// quantity or price that reads fits in 64 bits.
pub(crate) proof fn lemma_read_values_fit(s: Seq<u8>)
    ensures
        date_of(s) matches Some(d) ==> 1 <= d.month <= 12 && 1 <= d.day <= days_in_month(
            d.year as int,
            d.month as int,
        ),
        quantity_of(s) matches Some(q) ==> 0 <= q <= u64::MAX,
        price_cents_of(s) matches Some(p) ==> 0 <= p <= u64::MAX,
{
    lemma_pow10_18();
    reveal_with_fuel(pow10, 5);
    if s.len() == 10 && all_digits(s.subrange(0, 4)) && all_digits(s.subrange(5, 7)) && all_digits(
        s.subrange(8, 10),
    ) {
        lemma_digits_value_bound(s.subrange(0, 4));
        lemma_digits_value_bound(s.subrange(5, 7));
        lemma_digits_value_bound(s.subrange(8, 10));
    }
    if quantity_of(s) is Some {
        lemma_digits_value_bound(s);
        lemma_pow10_monotone(s.len(), 18);
    }
    let n = s.len() as int;
    if price_cents_of(s) is Some {
        lemma_pow10_monotone(15, 18);
        reveal_with_fuel(pow10, 16);
        if 1 <= n <= MAX_PRICE_DIGITS && all_digits(s) {
            lemma_digits_value_bound(s);
            lemma_pow10_monotone(n as nat, 15);
        } else if 3 <= n <= MAX_PRICE_DIGITS + 2 && s[n - 2] == 46u8 && all_digits(
            s.subrange(0, n - 2),
        ) && is_digit(s[n - 1]) {
            lemma_digits_value_bound(s.subrange(0, n - 2));
            lemma_pow10_monotone((n - 2) as nat, 15);
        } else {
            lemma_digits_value_bound(s.subrange(0, n - 3));
            lemma_digits_value_bound(s.subrange(n - 2, n));
            lemma_pow10_monotone((n - 3) as nat, 15);
        }
    }
}

} // verus!
