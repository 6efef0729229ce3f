use vstd::prelude::*;
use crate::fields::{
    Date, date_of, parse_date, parse_price_cents, parse_quantity, price_cents_of, quantity_of,
    quarter, quarter_of,
};

verus! {

/// One input row as text; an empty field stands for a missing value.
#[derive(Debug)]
pub struct RawRecord {
    pub product_id: Vec<u8>,
    pub quantity: Vec<u8>,
    pub price: Vec<u8>,
    pub date: Vec<u8>,
}

pub ghost struct RawRow {
    pub product_id: Seq<u8>,
    pub quantity: Seq<u8>,
    pub price: Seq<u8>,
    pub date: Seq<u8>,
}

impl View for RawRecord {
    type V = RawRow;

    open spec fn view(&self) -> RawRow {
        RawRow {
            product_id: self.product_id@,
            quantity: self.quantity@,
            price: self.price@,
            date: self.date@,
        }
    }
}

/// A row that passed every filter, with its fields read.
#[derive(Debug)]
pub struct CleanRecord {
    pub product_id: Vec<u8>,
    pub quantity: u64,
    pub price_cents: u64,
    pub date: Date,
}

pub ghost struct CleanRow {
    pub product_id: Seq<u8>,
    pub quantity: u64,
    pub price_cents: u64,
    pub date: Date,
}

impl View for CleanRecord {
    type V = CleanRow;

    open spec fn view(&self) -> CleanRow {
        CleanRow {
            product_id: self.product_id@,
            quantity: self.quantity,
            price_cents: self.price_cents,
            date: self.date,
        }
    }
}

/// A clean row with its revenue (in hundredths) and calendar fields.
#[derive(Debug)]
pub struct TransformedRecord {
    pub product_id: Vec<u8>,
    pub quantity: u64,
    pub price_cents: u64,
    pub date: Date,
    pub revenue_cents: u128,
    pub year: u32,
    pub month: u32,
    pub quarter: u32,
}

pub ghost struct TransformedRow {
    pub product_id: Seq<u8>,
    pub quantity: u64,
    pub price_cents: u64,
    pub date: Date,
    pub revenue_cents: u128,
    pub year: u32,
    pub month: u32,
    pub quarter: u32,
}

impl View for TransformedRecord {
    type V = TransformedRow;

    open spec fn view(&self) -> TransformedRow {
        TransformedRow {
            product_id: self.product_id@,
            quantity: self.quantity,
            price_cents: self.price_cents,
            date: self.date,
            revenue_cents: self.revenue_cents,
            year: self.year,
            month: self.month,
            quarter: self.quarter,
        }
    }
}

/// A row is kept when its product is present, its quantity and price read
/// as positive numbers, and its date names a real day.
pub open spec fn clean_row(r: RawRow) -> Option<CleanRow> {
    if r.product_id.len() > 0 && quantity_of(r.quantity) is Some && quantity_of(r.quantity).unwrap()
        > 0 && price_cents_of(r.price) is Some && price_cents_of(r.price).unwrap() > 0 && date_of(
        r.date,
    ) is Some {
        Some(
            CleanRow {
                product_id: r.product_id,
                quantity: quantity_of(r.quantity).unwrap() as u64,
                price_cents: price_cents_of(r.price).unwrap() as u64,
                date: date_of(r.date).unwrap(),
            },
        )
    } else {
        None
    }
}

/// The kept rows, in input order.
pub open spec fn cleaned(rows: Seq<RawRow>) -> Seq<CleanRow>
    decreases rows.len(),
{
    if rows.len() == 0 {
        Seq::empty()
    } else {
        let prev = cleaned(rows.drop_last());
        match clean_row(rows.last()) {
            Some(c) => prev.push(c),
            None => prev,
        }
    }
}

pub open spec fn transformed_row(c: CleanRow) -> TransformedRow {
    TransformedRow {
        product_id: c.product_id,
        quantity: c.quantity,
        price_cents: c.price_cents,
        date: c.date,
        revenue_cents: (c.quantity * c.price_cents) as u128,
        year: c.date.year,
        month: c.date.month,
        quarter: quarter_of(c.date.month as int) as u32,
    }
}

pub open spec fn valid_month(d: Date) -> bool {
    1 <= d.month <= 12
}

pub open spec fn raw_views(rows: Seq<RawRecord>) -> Seq<RawRow> {
    rows.map_values(|r: RawRecord| r@)
}

pub open spec fn clean_views(rows: Seq<CleanRecord>) -> Seq<CleanRow> {
    rows.map_values(|r: CleanRecord| r@)
}

pub open spec fn transformed_views(rows: Seq<TransformedRecord>) -> Seq<TransformedRow> {
    rows.map_values(|r: TransformedRecord| r@)
}

pub(crate) fn copy_bytes(v: &Vec<u8>) -> (r: Vec<u8>)
    ensures
        r@ == v@,
{
    let mut r: Vec<u8> = Vec::new();
    let mut i: usize = 0;
    while i < v.len()
        invariant
            i <= v.len(),
            r@ == v@.subrange(0, i as int),
        decreases v.len() - i,
    {
        r.push(v[i]);
        i = i + 1;
        assert(r@ =~= v@.subrange(0, i as int));
    }
    assert(v@.subrange(0, v.len() as int) =~= v@);
    r
}

/// Applies the row filter to one row.
pub fn clean_record(r: &RawRecord) -> (c: Option<CleanRecord>)
    ensures
        match c {
            Some(c) => clean_row(r@) == Some(c@) && valid_month(c.date),
            None => clean_row(r@) is None,
        },
{
    if r.product_id.len() == 0 {
        return None;
    }
    let q = match parse_quantity(&r.quantity) {
        Some(q) => q,
        None => {
            return None;
        },
    };
    let p = match parse_price_cents(&r.price) {
        Some(p) => p,
        None => {
            return None;
        },
    };
    let d = match parse_date(&r.date) {
        Some(d) => d,
        None => {
            return None;
        },
    };
    if q == 0 || p == 0 {
        return None;
    }
    Some(CleanRecord { product_id: copy_bytes(&r.product_id), quantity: q, price_cents: p, date: d })
}

/// The clean stage: keeps, in order, the rows that pass the filter.
pub fn clean(rows: &Vec<RawRecord>) -> (r: Vec<CleanRecord>)
    ensures
        clean_views(r@) == cleaned(raw_views(rows@)),
        r.len() <= rows.len(),
        forall|k: int| 0 <= k < r.len() ==> valid_month(#[trigger] r@[k].date),
{
    let mut out: Vec<CleanRecord> = Vec::new();
    let mut i: usize = 0;
    while i < rows.len()
        invariant
            i <= rows.len(),
            clean_views(out@) == cleaned(raw_views(rows@).subrange(0, i as int)),
            out.len() <= i,
            forall|k: int| 0 <= k < out.len() ==> valid_month(#[trigger] out@[k].date),
        decreases rows.len() - i,
    {
        let ghost before = out@;
        let ghost v = raw_views(rows@);
        assert(v.subrange(0, i + 1).drop_last() =~= v.subrange(0, i as int));
        assert(v.subrange(0, i + 1).last() == rows@[i as int]@);
        match clean_record(&rows[i]) {
            Some(c) => {
                out.push(c);
                assert(clean_views(out@) =~= clean_views(before).push(out@.last()@));
            },
            None => {},
        }
        i = i + 1;
    }
    assert(raw_views(rows@).subrange(0, rows.len() as int) =~= raw_views(rows@));
    out
}

/// The transform stage: adds revenue and calendar fields to each row.
pub fn transform(rows: Vec<CleanRecord>) -> (r: Vec<TransformedRecord>)
    requires
        forall|k: int| 0 <= k < rows.len() ==> valid_month(#[trigger] rows@[k].date),
    ensures
        transformed_views(r@) == clean_views(rows@).map_values(|c: CleanRow| transformed_row(c)),
{
    let mut out: Vec<TransformedRecord> = Vec::new();
    let ghost orig = clean_views(rows@);
    let mut rest = rows;
    let n = rest.len();
    // Rows are taken from the back and the result is reversed at the end, so
    // that no row is copied.
    while rest.len() > 0
        invariant
            rest.len() + out.len() == n,
            n == orig.len(),
            clean_views(rest@) == orig.subrange(0, rest.len() as int),
            forall|k: int| 0 <= k < rest.len() ==> valid_month(#[trigger] rest@[k].date),
            forall|k: int|
                0 <= k < out.len() ==> #[trigger] out@[k]@ == transformed_row(
                    orig[n - 1 - k],
                ),
        decreases rest.len(),
    {
        let ghost old_rest = rest@;
        let c = rest.pop().unwrap();
        assert(valid_month(old_rest[rest.len() as int].date));
        assert(c@ == orig[rest.len() as int]) by {
            assert(clean_views(old_rest)[rest.len() as int] == c@);
        }
        assert(clean_views(rest@) =~= orig.subrange(0, rest.len() as int)) by {
            assert(rest@ =~= old_rest.drop_last());
        }
        assert(c.quantity * c.price_cents <= u128::MAX) by (nonlinear_arith)
            requires
                c.quantity <= u64::MAX,
                c.price_cents <= u64::MAX,
        ;
        let revenue = c.quantity as u128 * c.price_cents as u128;
        let qr = quarter(c.date.month);
        out.push(
            TransformedRecord {
                product_id: c.product_id,
                quantity: c.quantity,
                price_cents: c.price_cents,
                date: c.date,
                revenue_cents: revenue,
                year: c.date.year,
                month: c.date.month,
                quarter: qr,
            },
        );
    }
    let mut res: Vec<TransformedRecord> = Vec::new();
    while out.len() > 0
        invariant
            res.len() + out.len() == n,
            n == orig.len(),
            forall|k: int|
                0 <= k < out.len() ==> #[trigger] out@[k]@ == transformed_row(orig[n - 1 - k]),
            forall|k: int| 0 <= k < res.len() ==> #[trigger] res@[k]@ == transformed_row(orig[k]),
        decreases out.len(),
    {
        let ghost old_out = out@;
        let t = out.pop().unwrap();
        assert(t@ == transformed_row(orig[res.len() as int])) by {
            assert(old_out[out.len() as int] == t);
        }
        assert forall|k: int| 0 <= k < out.len() implies #[trigger] out@[k]@ == transformed_row(
            orig[n - 1 - k],
        ) by {
            assert(out@[k] == old_out[k]);
        }
        res.push(t);
    }
    assert(transformed_views(res@) =~= orig.map_values(|c: CleanRow| transformed_row(c)));
    res
}

/// How many rows the clean stage removed, and that share of the loaded rows
/// in hundredths of a percent (rounded down).
#[derive(Clone, Copy, Debug, PartialEq, Eq)]
pub struct CleanStats {
    pub removed: u64,
    pub removed_pct_centi: u64,
}

pub open spec fn removed_pct_centi_of(raw_count: int, cleaned_count: int) -> int {
    if raw_count == 0 {
        0
    } else {
        (raw_count - cleaned_count) * 10000 / raw_count
    }
}

/// The removal figures of the clean stage. With no rows loaded nothing was
/// removed, and the share is zero.
pub fn removal_stats(raw_count: u64, cleaned_count: u64) -> (r: CleanStats)
    requires
        cleaned_count <= raw_count,
    ensures
        r.removed == raw_count - cleaned_count,
        r.removed_pct_centi == removed_pct_centi_of(raw_count as int, cleaned_count as int),
        0 <= r.removed_pct_centi <= 10000,
{
    let removed = raw_count - cleaned_count;
    if raw_count == 0 {
        return CleanStats { removed: 0, removed_pct_centi: 0 };
    }
    let pct = (removed as u128 * 10000) / raw_count as u128;
    assert(pct <= 10000) by (nonlinear_arith)
        requires
            pct == (removed as int * 10000) / raw_count as int,
            0 <= removed <= raw_count,
            raw_count > 0,
    {
        vstd::arithmetic::div_mod::lemma_div_is_ordered(
            removed as int * 10000,
            raw_count as int * 10000,
            raw_count as int,
        );
        vstd::arithmetic::div_mod::lemma_div_by_multiple(10000, raw_count as int);
    }
    CleanStats { removed, removed_pct_centi: pct as u64 }
}

/// The clean stage never adds rows: at most as many come out as went in.
pub proof fn lemma_cleaned_at_most_raw(rows: Seq<RawRow>)
    ensures
        cleaned(rows).len() <= rows.len(),
    decreases rows.len(),
{
    if rows.len() > 0 {
        lemma_cleaned_at_most_raw(rows.drop_last());
    }
}

/// A cleaned row has a product, a positive quantity and price, and a date
/// of the calendar.
pub open spec fn is_clean(c: CleanRow) -> bool {
    &&& c.product_id.len() > 0
    &&& c.quantity > 0
    &&& c.price_cents > 0
    &&& 1 <= c.date.month <= 12
    &&& 1 <= c.date.day <= crate::fields::days_in_month(c.date.year as int, c.date.month as int)
}

/// Every row that leaves the clean stage satisfies the filter, and each input
/// row that fails it is left out: the output holds exactly the rows that
/// pass.
pub proof fn lemma_cleaned_rows_pass(rows: Seq<RawRow>)
    ensures
        forall|k: int| 0 <= k < cleaned(rows).len() ==> is_clean(#[trigger] cleaned(rows)[k]),
        cleaned(rows).len() == rows.filter(|r: RawRow| clean_row(r) is Some).len(),
    decreases rows.len(),
{
    if rows.len() > 0 {
        let prev = rows.drop_last();
        lemma_cleaned_rows_pass(prev);
        reveal(Seq::filter);
        let r = rows.last();
        crate::fields::lemma_read_values_fit(r.date);
        crate::fields::lemma_read_values_fit(r.quantity);
        crate::fields::lemma_read_values_fit(r.price);
    }
}

} // verus!
