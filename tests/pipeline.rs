use rust_pipeline::aggregate::{aggregate, AggregateError, ProductSummary};
use rust_pipeline::fields::{parse_date, parse_price_cents, parse_quantity, quarter, Date};
use rust_pipeline::ingest::{find_columns, load, parse_file, split_bytes, Columns, LoadError};
use rust_pipeline::metrics::PipelineMetrics;
use rust_pipeline::output::render;
use rust_pipeline::pipeline::{run_stages, PipelineError};
use rust_pipeline::stages::{
    clean, clean_record, removal_stats, transform, CleanRecord, RawRecord, TransformedRecord,
};

fn raw(p: &str, q: &str, pr: &str, d: &str) -> RawRecord {
    RawRecord {
        product_id: p.as_bytes().to_vec(),
        quantity: q.as_bytes().to_vec(),
        price: pr.as_bytes().to_vec(),
        date: d.as_bytes().to_vec(),
    }
}

fn bytes(s: &str) -> Vec<u8> {
    s.as_bytes().to_vec()
}

#[test]
fn aggregate_two_products() {
    let rows = vec![
        raw("A", "2", "10", "2024-01-01"),
        raw("A", "3", "10", "2024-02-01"),
        raw("B", "1", "5", "2024-03-01"),
    ];
    let c = clean(&rows);
    assert_eq!(c.len(), 3);
    let t = transform(c);
    let s = aggregate(&t).unwrap();
    assert_eq!(s.len(), 2);
    assert_eq!(s[0].product_id, bytes("A"));
    assert_eq!(s[0].total_quantity, 5);
    assert_eq!(s[0].total_revenue_cents, 5000);
    assert_eq!(s[0].avg_price_cents(), 1000);
    assert_eq!(s[1].product_id, bytes("B"));
    assert_eq!(s[1].total_quantity, 1);
    assert_eq!(s[1].total_revenue_cents, 500);
    assert_eq!(s[1].avg_price_cents(), 500);
}

#[test]
fn aggregate_two_products_from_file() {
    let file = bytes("product_id,quantity,price,date\nB,1,5,2024-03-01\nA,2,10,2024-01-01\nA,3,10,2024-02-01\n");
    let rep = run_stages(&vec![file]).unwrap();
    let text = String::from_utf8(rep.output).unwrap();
    assert_eq!(
        text,
        "product_id,total_quantity,total_revenue,avg_price\nA,5,50.00,10.00\nB,1,5.00,5.00\n"
    );
    assert_eq!(rep.raw_count, 3);
    assert_eq!(rep.cleaned_count, 3);
    assert_eq!(rep.product_count, 2);
}

#[test]
fn equal_revenue_keeps_first_appearance() {
    let rows = vec![raw("X", "1", "5", "2024-01-01"), raw("Y", "5", "1", "2024-01-01")];
    let s = aggregate(&transform(clean(&rows))).unwrap();
    assert_eq!(s[0].product_id, bytes("X"));
    assert_eq!(s[1].product_id, bytes("Y"));
}

#[test]
fn filter_drops_invalid_rows() {
    let rows = vec![
        raw("A", "0", "10", "2024-01-01"),
        raw("", "1", "10", "2024-01-01"),
        raw("A", "1", "10", "not-a-date"),
        raw("A", "1", "0", "2024-01-01"),
        raw("A", "1", "0.00", "2024-01-01"),
        raw("A", "-1", "10", "2024-01-01"),
        raw("K", "4", "2.50", "2024-05-05"),
    ];
    let c = clean(&rows);
    assert_eq!(c.len(), 1);
    assert_eq!(c[0].product_id, bytes("K"));
    assert_eq!(c[0].quantity, 4);
    assert_eq!(c[0].price_cents, 250);
    assert!(clean_record(&raw("A", "0", "10", "2024-01-01")).is_none());
    assert!(clean_record(&raw("", "1", "10", "2024-01-01")).is_none());
    assert!(clean_record(&raw("A", "1", "10", "2024-02-30")).is_none());
    assert!(clean_record(&raw("A", "1", "0", "2024-01-01")).is_none());
}

#[test]
fn derived_fields_of_a_date() {
    let c = clean(&vec![raw("A", "3", "1.25", "2024-07-15")]);
    let t = transform(c);
    assert_eq!(t[0].year, 2024);
    assert_eq!(t[0].month, 7);
    assert_eq!(t[0].quarter, 3);
    assert_eq!(t[0].revenue_cents, 375);
    assert_eq!(quarter(1), 1);
    assert_eq!(quarter(3), 1);
    assert_eq!(quarter(4), 2);
    assert_eq!(quarter(12), 4);
}

#[test]
fn runs_agree_on_same_input() {
    let files = vec![
        bytes("product_id,quantity,price,date\nA,2,10,2024-01-01\nC,7,1.10,2024-04-04\n"),
        bytes("date,price,quantity,product_id\n2024-06-30,3.33,3,B\nbad line\n"),
    ];
    let a = run_stages(&files).unwrap();
    let b = run_stages(&files).unwrap();
    assert_eq!(a.output, b.output);
    assert_eq!(a.raw_count, 3);
}

#[test]
fn counts_and_removed_share() {
    let file = bytes("product_id,quantity,price,date\nA,2,10,2024-01-01\nA,0,10,2024-01-01\n,1,1,2024-01-01\nB,1,1,2024-01-01\n");
    let rep = run_stages(&vec![file]).unwrap();
    assert_eq!(rep.raw_count, 4);
    assert_eq!(rep.cleaned_count, 2);
    assert!(rep.cleaned_count <= rep.raw_count);
    assert_eq!(rep.stats.removed, 2);
    assert_eq!(rep.stats.removed_pct_centi, 5000);
    let s = removal_stats(3, 2);
    assert_eq!(s.removed, 1);
    assert_eq!(s.removed_pct_centi, 3333);
    let all = removal_stats(7, 0);
    assert_eq!(all.removed_pct_centi, 10000);
}

#[test]
fn no_rows_loaded_gives_zero_share() {
    let s = removal_stats(0, 0);
    assert_eq!(s.removed, 0);
    assert_eq!(s.removed_pct_centi, 0);
    let rep = run_stages(&vec![bytes("product_id,quantity,price,date\n")]).unwrap();
    assert_eq!(rep.raw_count, 0);
    assert_eq!(rep.stats.removed_pct_centi, 0);
    assert_eq!(
        String::from_utf8(rep.output).unwrap(),
        "product_id,total_quantity,total_revenue,avg_price\n"
    );
}

#[test]
fn no_files_is_a_load_error() {
    assert!(matches!(load(&vec![]), Err(LoadError::NoFiles)));
    assert!(matches!(run_stages(&vec![]), Err(PipelineError::Load(LoadError::NoFiles))));
}

#[test]
fn missing_column_is_a_load_error() {
    let files = vec![
        bytes("product_id,quantity,price,date\nA,1,1,2024-01-01\n"),
        bytes("product_id,quantity,date\nA,1,2024-01-01\n"),
    ];
    assert!(matches!(load(&files), Err(LoadError::MissingColumn(1))));
    assert!(matches!(
        run_stages(&files),
        Err(PipelineError::Load(LoadError::MissingColumn(1)))
    ));
    assert!(parse_file(&bytes("")).is_none());
}

#[test]
fn aggregate_overflow_is_an_error() {
    let row = |rev: u128| TransformedRecord {
        product_id: bytes("A"),
        quantity: 1,
        price_cents: 1,
        date: Date { year: 2024, month: 1, day: 1 },
        revenue_cents: rev,
        year: 2024,
        month: 1,
        quarter: 1,
    };
    let rows = vec![row(u128::MAX), row(1)];
    assert_eq!(aggregate(&rows).unwrap_err(), AggregateError::Overflow);
    let ok = vec![row(u128::MAX - 1), row(1)];
    assert_eq!(aggregate(&ok).unwrap()[0].total_revenue_cents, u128::MAX);
}

#[test]
fn peak_is_the_high_water_mark() {
    let mut m = PipelineMetrics::new();
    assert_eq!(m.peak_memory_bytes(), 0);
    m.update_memory(Some(5));
    m.update_memory(Some(10));
    m.update_memory(Some(3));
    assert_eq!(m.peak_memory_bytes(), 10);
    m.update_memory(None);
    assert_eq!(m.peak_memory_bytes(), 10);
}

#[test]
fn metrics_summary_figures() {
    let mut m = PipelineMetrics::new();
    m.update_memory(Some(3 * 1024 * 1024 * 1024 / 2));
    let s = m.summary(90_000);
    assert_eq!(s.elapsed_centiseconds, 9000);
    assert_eq!(s.elapsed_centiminutes, 150);
    assert_eq!(s.peak_memory_centi_mb, 153600);
    assert_eq!(s.peak_memory_centi_gb, 150);
}

#[test]
fn quantity_field() {
    assert_eq!(parse_quantity(&bytes("12")), Some(12));
    assert_eq!(parse_quantity(&bytes("0")), Some(0));
    assert_eq!(parse_quantity(&bytes("")), None);
    assert_eq!(parse_quantity(&bytes("-1")), None);
    assert_eq!(parse_quantity(&bytes("1.5")), None);
    assert_eq!(parse_quantity(&bytes("999999999999999999")), Some(999999999999999999));
    assert_eq!(parse_quantity(&bytes("1000000000000000000")), None);
}

#[test]
fn price_field() {
    assert_eq!(parse_price_cents(&bytes("10")), Some(1000));
    assert_eq!(parse_price_cents(&bytes("19.99")), Some(1999));
    assert_eq!(parse_price_cents(&bytes("1.5")), Some(150));
    assert_eq!(parse_price_cents(&bytes("0.05")), Some(5));
    assert_eq!(parse_price_cents(&bytes("1.234")), None);
    assert_eq!(parse_price_cents(&bytes(".5")), None);
    assert_eq!(parse_price_cents(&bytes("abc")), None);
}

#[test]
fn date_field() {
    assert_eq!(
        parse_date(&bytes("2024-07-15")),
        Some(Date { year: 2024, month: 7, day: 15 })
    );
    assert!(parse_date(&bytes("2024-02-29")).is_some());
    assert!(parse_date(&bytes("2023-02-29")).is_none());
    assert!(parse_date(&bytes("1900-02-29")).is_none());
    assert!(parse_date(&bytes("2000-02-29")).is_some());
    assert!(parse_date(&bytes("2024-13-01")).is_none());
    assert!(parse_date(&bytes("2024-04-31")).is_none());
    assert!(parse_date(&bytes("2024/07/15")).is_none());
    assert!(parse_date(&bytes("24-07-15")).is_none());
}

#[test]
fn splitting_and_columns() {
    let s = bytes("a,,b");
    let f = split_bytes(&s, 0, s.len(), b',');
    assert_eq!(f, vec![bytes("a"), bytes(""), bytes("b")]);
    let h = split_bytes(&bytes("x,date,price,quantity,product_id"), 0, 32, b',');
    assert_eq!(
        find_columns(&h),
        Some(Columns { product_id: 4, quantity: 3, price: 2, date: 1 })
    );
    assert_eq!(find_columns(&vec![bytes("product_id")]), None);
}

#[test]
fn crlf_and_malformed_lines() {
    let f = bytes("product_id,quantity,price,date\r\nA,1,2,2024-01-01\r\nA,1\r\n\r\nB,2,3,2024-01-02,extra\r\n");
    let rows = parse_file(&f).unwrap();
    assert_eq!(rows.len(), 1);
    assert_eq!(rows[0].date, bytes("2024-01-01"));
}

#[test]
fn render_exact_bytes() {
    let s = vec![ProductSummary {
        product_id: bytes("P"),
        total_quantity: 12,
        total_revenue_cents: 100005,
        price_sum_cents: 1001,
        row_count: 3,
        first_row: 0,
    }];
    assert_eq!(
        String::from_utf8(render(&s)).unwrap(),
        "product_id,total_quantity,total_revenue,avg_price\nP,12,1000.05,3.33\n"
    );
}

#[test]
fn clean_record_fields() {
    let c: CleanRecord = clean_record(&raw("Z", "7", "0.99", "2020-12-31")).unwrap();
    assert_eq!(c.quantity, 7);
    assert_eq!(c.price_cents, 99);
    assert_eq!(c.date, Date { year: 2020, month: 12, day: 31 });
}
