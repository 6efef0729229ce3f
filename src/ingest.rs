use vstd::prelude::*;
use crate::stages::{RawRecord, RawRow, copy_bytes, raw_views};

verus! {

pub const NEWLINE: u8 = 10;

pub const CARRIAGE_RETURN: u8 = 13;

pub const COMMA: u8 = 44;

/// The pieces of `s` between occurrences of `sep`; there is always at least
/// one piece.
pub open spec fn split(s: Seq<u8>, sep: u8) -> Seq<Seq<u8>>
    decreases s.len(),
{
    if s.len() == 0 {
        seq![Seq::empty()]
    } else {
        let p = split(s.drop_last(), sep);
        if s.last() == sep {
            p.push(Seq::empty())
        } else {
            p.update(p.len() - 1, p.last().push(s.last()))
        }
    }
}

proof fn lemma_split_nonempty(s: Seq<u8>, sep: u8)
    ensures
        split(s, sep).len() >= 1,
    decreases s.len(),
{
    if s.len() > 0 {
        lemma_split_nonempty(s.drop_last(), sep);
    }
}

/// A line without its carriage return, if it ends in one.
pub open spec fn strip_cr(l: Seq<u8>) -> Seq<u8> {
    if l.len() > 0 && l.last() == CARRIAGE_RETURN {
        l.drop_last()
    } else {
        l
    }
}

/// The position of the first header field equal to `name`.
pub open spec fn column_of(header: Seq<Seq<u8>>, name: Seq<u8>) -> Option<int>
    decreases header.len(),
{
    if header.len() == 0 {
        None
    } else {
        match column_of(header.drop_last(), name) {
            Some(k) => Some(k),
            None => if header.last() == name {
                Some(header.len() - 1)
            } else {
                None
            },
        }
    }
}

pub open spec fn product_id_name() -> Seq<u8> {
    seq![112u8, 114, 111, 100, 117, 99, 116, 95, 105, 100]
}

pub open spec fn quantity_name() -> Seq<u8> {
    seq![113u8, 117, 97, 110, 116, 105, 116, 121]
}

pub open spec fn price_name() -> Seq<u8> {
    seq![112u8, 114, 105, 99, 101]
}

pub open spec fn date_name() -> Seq<u8> {
    seq![100u8, 97, 116, 101]
}

/// The positions of the four columns the pipeline reads.
#[derive(Clone, Copy, Debug, PartialEq, Eq)]
pub struct Columns {
    pub product_id: usize,
    pub quantity: usize,
    pub price: usize,
    pub date: usize,
}

pub open spec fn columns_of(header: Seq<Seq<u8>>) -> Option<Columns> {
    if column_of(header, product_id_name()) is Some && column_of(header, quantity_name()) is Some
        && column_of(header, price_name()) is Some && column_of(header, date_name()) is Some {
        Some(
            Columns {
                product_id: column_of(header, product_id_name()).unwrap() as usize,
                quantity: column_of(header, quantity_name()).unwrap() as usize,
                price: column_of(header, price_name()).unwrap() as usize,
                date: column_of(header, date_name()).unwrap() as usize,
            },
        )
    } else {
        None
    }
}

/// A data line gives a row when it is not blank and has as many fields as
/// the header; any other line is malformed and is skipped.
pub open spec fn row_of(line: Seq<u8>, width: int, c: Columns) -> Option<RawRow> {
    let l = strip_cr(line);
    let f = split(l, COMMA);
    if l.len() > 0 && f.len() == width {
        Some(
            RawRow {
                product_id: f[c.product_id as int],
                quantity: f[c.quantity as int],
                price: f[c.price as int],
                date: f[c.date as int],
            },
        )
    } else {
        None
    }
}

pub open spec fn rows_of(lines: Seq<Seq<u8>>, width: int, c: Columns) -> Seq<RawRow>
    decreases lines.len(),
{
    if lines.len() == 0 {
        Seq::empty()
    } else {
        let prev = rows_of(lines.drop_last(), width, c);
        match row_of(lines.last(), width, c) {
            Some(r) => prev.push(r),
            None => prev,
        }
    }
}

pub open spec fn header_of(content: Seq<u8>) -> Seq<Seq<u8>> {
    split(strip_cr(split(content, NEWLINE)[0]), COMMA)
}

/// The rows of one delimited file, or `None` when its header lacks one of
/// the four columns.
pub open spec fn file_rows(content: Seq<u8>) -> Option<Seq<RawRow>> {
    let header = header_of(content);
    match columns_of(header) {
        Some(c) => Some(rows_of(split(content, NEWLINE).drop_first(), header.len() as int, c)),
        None => None,
    }
}

pub open spec fn byte_views(v: Seq<Vec<u8>>) -> Seq<Seq<u8>> {
    v.map_values(|x: Vec<u8>| x@)
}

/// Splits `s[start..end]` at each `sep`.
pub fn split_bytes(s: &Vec<u8>, start: usize, end: usize, sep: u8) -> (r: Vec<Vec<u8>>)
    requires
        start <= end <= s.len(),
    ensures
        byte_views(r@) == split(s@.subrange(start as int, end as int), sep),
{
    let mut out: Vec<Vec<u8>> = Vec::new();
    let mut cur: Vec<u8> = Vec::new();
    let mut i: usize = start;
    assert(s@.subrange(start as int, start as int) =~= Seq::<u8>::empty());
    assert(byte_views(out@).push(cur@) =~= seq![Seq::<u8>::empty()]);
    while i < end
        invariant
            start <= i <= end <= s.len(),
            byte_views(out@).push(cur@) == split(s@.subrange(start as int, i as int), sep),
        decreases end - i,
    {
        let ghost t = s@.subrange(start as int, i + 1);
        assert(t.drop_last() =~= s@.subrange(start as int, i as int));
        assert(t.last() == s@[i as int]);
        let b = s[i];
        if b == sep {
            out.push(cur);
            cur = Vec::new();
            assert(byte_views(out@).push(cur@) =~= split(t.drop_last(), sep).push(Seq::empty()));
        } else {
            let ghost before = byte_views(out@).push(cur@);
            cur.push(b);
            assert(byte_views(out@).push(cur@) =~= before.update(
                before.len() - 1,
                before.last().push(b),
            ));
        }
        i = i + 1;
    }
    out.push(cur);
    assert(byte_views(out@) =~= split(s@.subrange(start as int, end as int), sep));
    out
}

proof fn lemma_column_of_found(h: Seq<Seq<u8>>, name: Seq<u8>)
    ensures
        column_of(h, name) matches Some(k) ==> 0 <= k < h.len() && h[k] == name,
        column_of(h, name) is None ==> forall|k: int| 0 <= k < h.len() ==> h[k] != name,
    decreases h.len(),
{
    if h.len() > 0 {
        lemma_column_of_found(h.drop_last(), name);
        assert forall|k: int| 0 <= k < h.len() - 1 implies h[k] == h.drop_last()[k] by {}
    }
}

proof fn lemma_column_of_extends(h: Seq<Seq<u8>>, name: Seq<u8>, a: int, b: int)
    requires
        0 <= a <= b <= h.len(),
        column_of(h.subrange(0, a), name) is Some,
    ensures
        column_of(h.subrange(0, b), name) == column_of(h.subrange(0, a), name),
    decreases b - a,
{
    if a < b {
        lemma_column_of_extends(h, name, a, b - 1);
        assert(h.subrange(0, b).drop_last() =~= h.subrange(0, b - 1));
    }
}

/// Finds the first header field equal to `name`.
pub fn find_column(header: &Vec<Vec<u8>>, name: &Vec<u8>) -> (r: Option<usize>)
    ensures
        match r {
            Some(k) => column_of(byte_views(header@), name@) == Some(k as int),
            None => column_of(byte_views(header@), name@) is None,
        },
{
    let ghost h = byte_views(header@);
    let mut j: usize = 0;
    assert(h.subrange(0, 0) =~= Seq::<Seq<u8>>::empty());
    while j < header.len()
        invariant
            j <= header.len() == h.len(),
            h == byte_views(header@),
            column_of(h.subrange(0, j as int), name@) is None,
        decreases header.len() - j,
    {
        assert(h.subrange(0, j + 1).drop_last() =~= h.subrange(0, j as int));
        if crate::aggregate::bytes_eq(&header[j], name) {
            proof {
                assert(h.subrange(0, j + 1).last() == name@);
                lemma_column_of_extends(h, name@, j + 1, h.len() as int);
                assert(h.subrange(0, h.len() as int) =~= h);
            }
            return Some(j);
        }
        j = j + 1;
    }
    assert(h.subrange(0, h.len() as int) =~= h);
    None
}

fn name_bytes(which: u8) -> (r: Vec<u8>)
    requires
        which < 4,
    ensures
        which == 0 ==> r@ == product_id_name(),
        which == 1 ==> r@ == quantity_name(),
        which == 2 ==> r@ == price_name(),
        which == 3 ==> r@ == date_name(),
{
    let r: Vec<u8> = if which == 0 {
        vec![112u8, 114, 111, 100, 117, 99, 116, 95, 105, 100]
    } else if which == 1 {
        vec![113u8, 117, 97, 110, 116, 105, 116, 121]
    } else if which == 2 {
        vec![112u8, 114, 105, 99, 101]
    } else {
        vec![100u8, 97, 116, 101]
    };
    assert(which == 0 ==> r@ =~= product_id_name());
    assert(which == 1 ==> r@ =~= quantity_name());
    assert(which == 2 ==> r@ =~= price_name());
    assert(which == 3 ==> r@ =~= date_name());
    r
}

/// Finds the four columns the pipeline reads.
pub fn find_columns(header: &Vec<Vec<u8>>) -> (r: Option<Columns>)
    ensures
        r == columns_of(byte_views(header@)),
{
    let p = find_column(header, &name_bytes(0));
    let q = find_column(header, &name_bytes(1));
    let c = find_column(header, &name_bytes(2));
    let d = find_column(header, &name_bytes(3));
    match (p, q, c, d) {
        (Some(p), Some(q), Some(c), Some(d)) => Some(
            Columns { product_id: p, quantity: q, price: c, date: d },
        ),
        _ => None,
    }
}

/// The end of a line once a trailing carriage return is left out.
fn line_end(line: &Vec<u8>) -> (r: usize)
    ensures
        line@.subrange(0, r as int) == strip_cr(line@),
        r <= line.len(),
{
    let n = line.len();
    if n > 0 && line[n - 1] == CARRIAGE_RETURN {
        assert(line@.subrange(0, n - 1) =~= line@.drop_last());
        n - 1
    } else {
        assert(line@.subrange(0, n as int) =~= line@);
        n
    }
}

/// Reads one data line against a header of `width` fields.
pub fn row_from_line(line: &Vec<u8>, width: usize, c: Columns) -> (r: Option<RawRecord>)
    requires
        c.product_id < width,
        c.quantity < width,
        c.price < width,
        c.date < width,
    ensures
        match r {
            Some(x) => row_of(line@, width as int, c) == Some(x@),
            None => row_of(line@, width as int, c) is None,
        },
{
    let end = line_end(line);
    if end == 0 {
        return None;
    }
    let f = split_bytes(line, 0, end, COMMA);
    if f.len() != width {
        return None;
    }
    let ghost fv = byte_views(f@);
    assert(fv[c.product_id as int] == f@[c.product_id as int]@);
    assert(fv[c.quantity as int] == f@[c.quantity as int]@);
    assert(fv[c.price as int] == f@[c.price as int]@);
    assert(fv[c.date as int] == f@[c.date as int]@);
    Some(
        RawRecord {
            product_id: copy_bytes(&f[c.product_id]),
            quantity: copy_bytes(&f[c.quantity]),
            price: copy_bytes(&f[c.price]),
            date: copy_bytes(&f[c.date]),
        },
    )
}

/// The ways loading can fail.
#[derive(Clone, Copy, Debug, PartialEq, Eq)]
pub enum LoadError {
    /// No input file was found.
    NoFiles,
    /// The file at this position lacks one of the four columns in its header.
    MissingColumn(usize),
}

/// Reads the rows of one delimited file. It fails exactly when the header
/// lacks one of the four columns.
pub fn parse_file(content: &Vec<u8>) -> (r: Option<Vec<RawRecord>>)
    ensures
        match r {
            Some(rows) => file_rows(content@) == Some(raw_views(rows@)),
            None => file_rows(content@) is None,
        },
{
    let lines = split_bytes(content, 0, content.len(), NEWLINE);
    let ghost lv = byte_views(lines@);
    assert(content@.subrange(0, content.len() as int) =~= content@);
    proof {
        lemma_split_nonempty(content@, NEWLINE);
    }
    let hend = line_end(&lines[0]);
    let header = split_bytes(&lines[0], 0, hend, COMMA);
    assert(lv[0] == lines@[0]@);
    assert(byte_views(header@) == header_of(content@));
    let cols = match find_columns(&header) {
        Some(c) => c,
        None => {
            return None;
        },
    };
    proof {
        let h = byte_views(header@);
        lemma_column_of_found(h, product_id_name());
        lemma_column_of_found(h, quantity_name());
        lemma_column_of_found(h, price_name());
        lemma_column_of_found(h, date_name());
    }
    let width = header.len();
    let mut out: Vec<RawRecord> = Vec::new();
    let mut li: usize = 1;
    assert(lv.subrange(1, 1) =~= Seq::<Seq<u8>>::empty());
    while li < lines.len()
        invariant
            1 <= li <= lines.len() == lv.len(),
            lv == byte_views(lines@),
            cols.product_id < width && cols.quantity < width && cols.price < width && cols.date
                < width,
            raw_views(out@) == rows_of(lv.subrange(1, li as int), width as int, cols),
        decreases lines.len() - li,
    {
        assert(lv.subrange(1, li + 1).drop_last() =~= lv.subrange(1, li as int));
        assert(lv.subrange(1, li + 1).last() == lines@[li as int]@);
        let ghost before = raw_views(out@);
        match row_from_line(&lines[li], width, cols) {
            Some(x) => {
                out.push(x);
                assert(raw_views(out@) =~= before.push(out@.last()@));
            },
            None => {},
        }
        li = li + 1;
    }
    assert(lv.subrange(1, lv.len() as int) =~= lv.drop_first());
    Some(out)
}

/// The rows of all files, in file order, or `None` if some file's header
/// lacks one of the four columns.
pub open spec fn all_rows(files: Seq<Seq<u8>>) -> Option<Seq<RawRow>>
    decreases files.len(),
{
    if files.len() == 0 {
        Some(Seq::empty())
    } else {
        match (all_rows(files.drop_last()), file_rows(files.last())) {
            (Some(a), Some(b)) => Some(a + b),
            _ => None,
        }
    }
}

/// The load stage: the union of the rows of every file. It fails when
/// there is no file, and otherwise exactly when some file's header lacks one
/// of the four columns, naming the first such file.
pub fn load(files: &Vec<Vec<u8>>) -> (r: Result<Vec<RawRecord>, LoadError>)
    ensures
        files.len() == 0 ==> r == Err::<Vec<RawRecord>, LoadError>(LoadError::NoFiles),
        files.len() > 0 ==> match r {
            Ok(rows) => all_rows(byte_views(files@)) == Some(raw_views(rows@)),
            Err(LoadError::MissingColumn(k)) => all_rows(byte_views(files@)) is None && k
                < files.len() && file_rows(files@[k as int]@) is None && forall|j: int|
                0 <= j < k ==> file_rows(#[trigger] files@[j]@) is Some,
            Err(LoadError::NoFiles) => false,
        },
{
    if files.len() == 0 {
        return Err(LoadError::NoFiles);
    }
    let ghost fv = byte_views(files@);
    let mut out: Vec<RawRecord> = Vec::new();
    let mut i: usize = 0;
    assert(fv.subrange(0, 0) =~= Seq::<Seq<u8>>::empty());
    while i < files.len()
        invariant
            i <= files.len() == fv.len(),
            fv == byte_views(files@),
            all_rows(fv.subrange(0, i as int)) == Some(raw_views(out@)),
            forall|j: int| 0 <= j < i ==> file_rows(#[trigger] files@[j]@) is Some,
        decreases files.len() - i,
    {
        assert(fv.subrange(0, i + 1).drop_last() =~= fv.subrange(0, i as int));
        assert(fv.subrange(0, i + 1).last() == files@[i as int]@);
        match parse_file(&files[i]) {
            Some(mut rows) => {
                let ghost a = raw_views(out@);
                let ghost b = raw_views(rows@);
                out.append(&mut rows);
                assert(raw_views(out@) =~= a + b);
            },
            None => {
                proof {
                    lemma_all_rows_fails_later(fv, i as int + 1);
                }
                return Err(LoadError::MissingColumn(i));
            },
        }
        i = i + 1;
    }
    assert(fv.subrange(0, fv.len() as int) =~= fv);
    Ok(out)
}

proof fn lemma_all_rows_fails_later(fv: Seq<Seq<u8>>, a: int)
    requires
        0 < a <= fv.len(),
        all_rows(fv.subrange(0, a)) is None,
    ensures
        all_rows(fv) is None,
    decreases fv.len() - a,
{
    if a < fv.len() {
        assert(fv.subrange(0, a + 1).drop_last() =~= fv.subrange(0, a));
        lemma_all_rows_fails_later(fv, a + 1);
    } else {
        assert(fv.subrange(0, a) =~= fv);
    }
}

} // verus!
