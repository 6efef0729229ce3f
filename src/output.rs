use vstd::prelude::*;
use crate::aggregate::{ProductSummary, Summary, summary_views};

verus! {

/// The decimal digits of `n`, most significant first.
pub open spec fn decimal(n: nat) -> Seq<u8>
    decreases n,
{
    if n < 10 {
        seq![(48 + n) as u8]
    } else {
        decimal(n / 10).push((48 + n % 10) as u8)
    }
}

/// An amount in hundredths, written with two decimals (`1234` as `12.34`).
pub open spec fn money(cents: nat) -> Seq<u8> {
    decimal(cents / 100) + seq![46u8, (48 + (cents % 100) / 10) as u8, (48 + cents % 10) as u8]
}

pub open spec fn avg_price_of(s: Summary) -> nat {
    if s.row_count > 0 {
        (s.price_sum_cents / s.row_count) as nat
    } else {
        0
    }
}

/// One line of the result file.
pub open spec fn summary_line(s: Summary) -> Seq<u8> {
    s.product_id + seq![44u8] + decimal(s.total_quantity as nat) + seq![44u8] + money(
        s.total_revenue_cents as nat,
    ) + seq![44u8] + money(avg_price_of(s)) + seq![10u8]
}

/// `product_id,total_quantity,total_revenue,avg_price` and a newline.
pub open spec fn header_line() -> Seq<u8> {
    seq![
        112u8, 114, 111, 100, 117, 99, 116, 95, 105, 100, 44, 116, 111, 116, 97, 108, 95, 113,
        117, 97, 110, 116, 105, 116, 121, 44, 116, 111, 116, 97, 108, 95, 114, 101, 118, 101,
        110, 117, 101, 44, 97, 118, 103, 95, 112, 114, 105, 99, 101, 10,
    ]
}

pub open spec fn summary_lines(s: Seq<Summary>) -> Seq<u8>
    decreases s.len(),
{
    if s.len() == 0 {
        Seq::empty()
    } else {
        summary_lines(s.drop_last()) + summary_line(s.last())
    }
}

/// The result file: the header, then one line per summary in order.
pub open spec fn rendered(s: Seq<Summary>) -> Seq<u8> {
    header_line() + summary_lines(s)
}

fn push_decimal(out: &mut Vec<u8>, n: u128)
    ensures
        final(out)@ == old(out)@ + decimal(n as nat),
    decreases n,
{
    if n >= 10 {
        push_decimal(out, n / 10);
    }
    out.push((48 + n % 10) as u8);
    assert(n < 10 ==> (n % 10) == n);
    assert(out@ =~= old(out)@ + decimal(n as nat));
}

fn push_money(out: &mut Vec<u8>, cents: u128)
    ensures
        final(out)@ == old(out)@ + money(cents as nat),
{
    push_decimal(out, cents / 100);
    out.push(46);
    out.push((48 + (cents % 100) / 10) as u8);
    out.push((48 + cents % 10) as u8);
    assert(out@ =~= old(out)@ + money(cents as nat));
}

fn push_bytes(out: &mut Vec<u8>, b: &Vec<u8>)
    ensures
        final(out)@ == old(out)@ + b@,
{
    let mut i: usize = 0;
    while i < b.len()
        invariant
            i <= b.len(),
            out@ == old(out)@ + b@.subrange(0, i as int),
        decreases b.len() - i,
    {
        out.push(b[i]);
        i = i + 1;
        assert(out@ =~= old(out)@ + b@.subrange(0, i as int));
    }
    assert(b@.subrange(0, b.len() as int) =~= b@);
}

/// Writes the aggregate as a delimited file with a header row.
pub fn render(summaries: &Vec<ProductSummary>) -> (r: Vec<u8>)
    ensures
        r@ == rendered(summary_views(summaries@)),
{
    let mut out: Vec<u8> = vec![
        112u8, 114, 111, 100, 117, 99, 116, 95, 105, 100, 44, 116, 111, 116, 97, 108, 95, 113,
        117, 97, 110, 116, 105, 116, 121, 44, 116, 111, 116, 97, 108, 95, 114, 101, 118, 101,
        110, 117, 101, 44, 97, 118, 103, 95, 112, 114, 105, 99, 101, 10,
    ];
    assert(out@ =~= header_line());
    let ghost sv = summary_views(summaries@);
    let mut i: usize = 0;
    assert(sv.subrange(0, 0) =~= Seq::<Summary>::empty());
    while i < summaries.len()
        invariant
            i <= summaries.len() == sv.len(),
            sv == summary_views(summaries@),
            out@ == header_line() + summary_lines(sv.subrange(0, i as int)),
        decreases summaries.len() - i,
    {
        let s = &summaries[i];
        let ghost before = out@;
        push_bytes(&mut out, &s.product_id);
        out.push(44);
        push_decimal(&mut out, s.total_quantity);
        out.push(44);
        push_money(&mut out, s.total_revenue_cents);
        out.push(44);
        let avg = s.avg_price_cents();
        push_money(&mut out, avg);
        out.push(10);
        assert(sv.subrange(0, i + 1).drop_last() =~= sv.subrange(0, i as int));
        assert(sv[i as int] == s@);
        assert(out@ =~= before + summary_line(s@));
        i = i + 1;
    }
    assert(sv.subrange(0, sv.len() as int) =~= sv);
    out
}

} // verus!
