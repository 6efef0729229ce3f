use vstd::prelude::*;
use crate::stages::{TransformedRecord, TransformedRow, copy_bytes, transformed_views};

verus! {

/// The per-product result of the aggregate stage. Money is in hundredths.
/// `first_row` is the position of the product's first row in the stage's
/// input; it orders products of equal revenue.
#[derive(Debug)]
pub struct ProductSummary {
    pub product_id: Vec<u8>,
    pub total_quantity: u128,
    pub total_revenue_cents: u128,
    pub price_sum_cents: u128,
    pub row_count: u128,
    pub first_row: usize,
}

pub ghost struct Summary {
    pub product_id: Seq<u8>,
    pub total_quantity: int,
    pub total_revenue_cents: int,
    pub price_sum_cents: int,
    pub row_count: int,
    pub first_row: int,
}

impl View for ProductSummary {
    type V = Summary;

    open spec fn view(&self) -> Summary {
        Summary {
            product_id: self.product_id@,
            total_quantity: self.total_quantity as int,
            total_revenue_cents: self.total_revenue_cents as int,
            price_sum_cents: self.price_sum_cents as int,
            row_count: self.row_count as int,
            first_row: self.first_row as int,
        }
    }
}

/// The ways the aggregate stage can fail.
#[derive(Clone, Copy, Debug, PartialEq, Eq)]
pub enum AggregateError {
    /// A product's total does not fit in 128 bits.
    Overflow,
}

/// What one row adds to a product's `k`-th running total: its quantity,
/// its revenue, its price, or one to the row count.
pub open spec fn term(r: TransformedRow, k: int) -> int {
    if k == 0 {
        r.quantity as int
    } else if k == 1 {
        r.revenue_cents as int
    } else if k == 2 {
        r.price_cents as int
    } else {
        1
    }
}

pub open spec fn total(rows: Seq<TransformedRow>, p: Seq<u8>, k: int) -> int
    decreases rows.len(),
{
    if rows.len() == 0 {
        0
    } else {
        total(rows.drop_last(), p, k) + if rows.last().product_id == p {
            term(rows.last(), k)
        } else {
            0
        }
    }
}

pub open spec fn occurs(rows: Seq<TransformedRow>, p: Seq<u8>) -> bool {
    exists|i: int| 0 <= i < rows.len() && (#[trigger] rows[i]).product_id == p
}

/// Where product `p` first appears in `rows`.
pub open spec fn first_row(rows: Seq<TransformedRow>, p: Seq<u8>) -> int
    decreases rows.len(),
{
    if rows.len() == 0 {
        0
    } else if occurs(rows.drop_last(), p) {
        first_row(rows.drop_last(), p)
    } else {
        rows.len() - 1
    }
}

/// The summary of product `p` over `rows`.
pub open spec fn group(rows: Seq<TransformedRow>, p: Seq<u8>) -> Summary {
    Summary {
        product_id: p,
        total_quantity: total(rows, p, 0),
        total_revenue_cents: total(rows, p, 1),
        price_sum_cents: total(rows, p, 2),
        row_count: total(rows, p, 3),
        first_row: first_row(rows, p),
    }
}

/// Every product's totals fit in 128 bits.
pub open spec fn fits(rows: Seq<TransformedRow>) -> bool {
    forall|i: int, k: int|
        0 <= i < rows.len() && 0 <= k < 4 ==> #[trigger] total(rows, rows[i].product_id, k)
            <= u128::MAX
}

/// Output order: higher revenue first, then earlier first appearance.
pub open spec fn before(a: Summary, b: Summary) -> bool {
    a.total_revenue_cents > b.total_revenue_cents || (a.total_revenue_cents
        == b.total_revenue_cents && a.first_row < b.first_row)
}

/// Some summary of `s` is that of product `p`.
pub open spec fn has_product(s: Seq<Summary>, p: Seq<u8>) -> bool {
    exists|j: int| 0 <= j < s.len() && (#[trigger] s[j]).product_id == p
}

/// `s` is the aggregate of `rows`: one summary per product of `rows`, each
/// with that product's totals, in output order.
pub open spec fn is_aggregate_of(rows: Seq<TransformedRow>, s: Seq<Summary>) -> bool {
    &&& forall|j: int|
        0 <= j < s.len() ==> occurs(rows, (#[trigger] s[j]).product_id) && s[j] == group(
            rows,
            s[j].product_id,
        )
    &&& forall|i: int| 0 <= i < rows.len() ==> has_product(s, (#[trigger] rows[i]).product_id)
    &&& forall|i: int, j: int| 0 <= i < j < s.len() ==> before(#[trigger] s[i], #[trigger] s[j])
}

pub open spec fn summary_views(s: Seq<ProductSummary>) -> Seq<Summary> {
    s.map_values(|x: ProductSummary| x@)
}

pub fn bytes_eq(a: &Vec<u8>, b: &Vec<u8>) -> (r: bool)
    ensures
        r == (a@ == b@),
{
    if a.len() != b.len() {
        return false;
    }
    let mut i: usize = 0;
    while i < a.len()
        invariant
            i <= a.len() == b.len(),
            forall|k: int| 0 <= k < i ==> a@[k] == b@[k],
        decreases a.len() - i,
    {
        if a[i] != b[i] {
            return false;
        }
        i = i + 1;
    }
    assert(a@ =~= b@);
    true
}

proof fn lemma_total_monotone(s: Seq<TransformedRow>, p: Seq<u8>, k: int, a: int, b: int)
    requires
        0 <= a <= b <= s.len(),
    ensures
        total(s.subrange(0, a), p, k) <= total(s.subrange(0, b), p, k),
    decreases b - a,
{
    if a < b {
        lemma_total_monotone(s, p, k, a, b - 1);
        assert(s.subrange(0, b).drop_last() =~= s.subrange(0, b - 1));
    }
}

/// The groups of `rows` in order of first appearance.
pub open spec fn grouped(rows: Seq<TransformedRow>, g: Seq<Summary>) -> bool {
    &&& forall|j: int|
        0 <= j < g.len() ==> occurs(rows, (#[trigger] g[j]).product_id) && g[j] == group(
            rows,
            g[j].product_id,
        )
    &&& forall|i: int| 0 <= i < rows.len() ==> has_product(g, (#[trigger] rows[i]).product_id)
    &&& forall|j1: int, j2: int|
        0 <= j1 < j2 < g.len() ==> (#[trigger] g[j1]).first_row < (#[trigger] g[j2]).first_row
    &&& forall|j: int| 0 <= j < g.len() ==> 0 <= (#[trigger] g[j]).first_row < rows.len()
}

fn group_rows(rows: &Vec<TransformedRecord>) -> (r: Result<Vec<ProductSummary>, AggregateError>)
    ensures
        match r {
            Ok(g) => fits(transformed_views(rows@)) && grouped(
                transformed_views(rows@),
                summary_views(g@),
            ),
            Err(_) => !fits(transformed_views(rows@)),
        },
{
    let ghost v = transformed_views(rows@);
    let mut groups: Vec<ProductSummary> = Vec::new();
    let mut i: usize = 0;
    while i < rows.len()
        invariant
            i <= rows.len() == v.len(),
            v == transformed_views(rows@),
            grouped(v.subrange(0, i as int), summary_views(groups@)),
        decreases rows.len() - i,
    {
        let ghost pre = v.subrange(0, i as int);
        let ghost post = v.subrange(0, i + 1);
        let ghost gv = summary_views(groups@);
        let ghost r = v[i as int];
        assert(post.drop_last() =~= pre);
        assert(post.last() == r);
        assert(rows@[i as int]@ == r);
        let row = &rows[i];
        let mut j: usize = 0;
        while j < groups.len()
            invariant
                j <= groups.len(),
                gv == summary_views(groups@),
                forall|k: int| 0 <= k < j ==> gv[k].product_id != row.product_id@,
            ensures
                j <= groups.len(),
                forall|k: int| 0 <= k < j ==> gv[k].product_id != row.product_id@,
                j < groups.len() ==> gv[j as int].product_id == row.product_id@,
            decreases groups.len() - j,
        {
            if bytes_eq(&groups[j].product_id, &row.product_id) {
                break;
            }
            j = j + 1;
        }
        assert forall|q: Seq<u8>| q != r.product_id && occurs(pre, q) implies group(post, q)
            == group(pre, q) && occurs(post, q) by {
            assert(post[post.len() - 1] == r);
            let w = choose|w: int| 0 <= w < pre.len() && (#[trigger] pre[w]).product_id == q;
            assert(post[w] == pre[w]);
        }
        if j < groups.len() {
            let ghost p = r.product_id;
            assert(gv[j as int].product_id == p);
            assert(occurs(pre, p));
            assert(occurs(post, p)) by {
                assert(post[i as int] == r);
            }
            let q0 = groups[j].total_quantity.checked_add(row.quantity as u128);
            let q1 = groups[j].total_revenue_cents.checked_add(row.revenue_cents);
            let q2 = groups[j].price_sum_cents.checked_add(row.price_cents as u128);
            let q3 = groups[j].row_count.checked_add(1);
            if q0.is_none() || q1.is_none() || q2.is_none() || q3.is_none() {
                proof {
                    let k = if q0.is_none() {
                        0
                    } else if q1.is_none() {
                        1
                    } else if q2.is_none() {
                        2
                    } else {
                        3
                    };
                    assert(total(post, p, k) > u128::MAX);
                    lemma_total_monotone(v, p, k, i + 1, v.len() as int);
                    assert(v.subrange(0, v.len() as int) =~= v);
                    assert(v[i as int].product_id == p);
                    assert(total(v, v[i as int].product_id, k) > u128::MAX);
                }
                return Err(AggregateError::Overflow);
            }
            groups[j].total_quantity = q0.unwrap();
            groups[j].total_revenue_cents = q1.unwrap();
            groups[j].price_sum_cents = q2.unwrap();
            groups[j].row_count = q3.unwrap();
            proof {
                let ng = summary_views(groups@);
                assert(ng[j as int] == group(post, p));
                assert forall|k: int| 0 <= k < ng.len() && k != j implies ng[k] == gv[k] by {
                }
                assert(grouped(post, ng)) by {
                    assert forall|a: int| 0 <= a < post.len() implies has_product(
                        ng,
                        (#[trigger] post[a]).product_id,
                    ) by {
                        if a < i {
                            assert(post[a] == pre[a]);
                            let b = choose|b: int|
                                0 <= b < gv.len() && (#[trigger] gv[b]).product_id
                                    == pre[a].product_id;
                            assert(ng[b].product_id == gv[b].product_id);
                        } else {
                            assert(ng[j as int].product_id == post[a].product_id);
                        }
                    }
                }
            }
        } else {
            assert(!occurs(pre, r.product_id)) by {
                if occurs(pre, r.product_id) {
                    let w = choose|w: int|
                        0 <= w < pre.len() && (#[trigger] pre[w]).product_id == r.product_id;
                    assert(has_product(gv, pre[w].product_id));
                }
            }
            assert(occurs(post, r.product_id)) by {
                assert(post[i as int] == r);
            }
            assert(total(pre, r.product_id, 0) == 0 && total(pre, r.product_id, 1) == 0 && total(
                pre,
                r.product_id,
                2,
            ) == 0 && total(pre, r.product_id, 3) == 0) by {
                lemma_total_absent(pre, r.product_id, 0);
                lemma_total_absent(pre, r.product_id, 1);
                lemma_total_absent(pre, r.product_id, 2);
                lemma_total_absent(pre, r.product_id, 3);
            }
            let id = copy_bytes(&row.product_id);
            groups.push(
                ProductSummary {
                    product_id: id,
                    total_quantity: row.quantity as u128,
                    total_revenue_cents: row.revenue_cents,
                    price_sum_cents: row.price_cents as u128,
                    row_count: 1,
                    first_row: i,
                },
            );
            proof {
                let ng = summary_views(groups@);
                assert(ng =~= gv.push(group(post, r.product_id)));
                assert(grouped(post, ng)) by {
                    assert forall|a: int| 0 <= a < post.len() implies has_product(
                        ng,
                        (#[trigger] post[a]).product_id,
                    ) by {
                        if a < i {
                            assert(post[a] == pre[a]);
                            let b = choose|b: int|
                                0 <= b < gv.len() && (#[trigger] gv[b]).product_id
                                    == pre[a].product_id;
                            assert(ng[b].product_id == gv[b].product_id);
                        } else {
                            assert(ng[gv.len() as int].product_id == post[a].product_id);
                        }
                    }
                }
            }
        }
        i = i + 1;
    }
    assert(v.subrange(0, v.len() as int) =~= v);
    proof {
        let gv = summary_views(groups@);
        assert forall|a: int, k: int| 0 <= a < v.len() && 0 <= k < 4 implies #[trigger] total(
            v,
            v[a].product_id,
            k,
        ) <= u128::MAX by {
            assert(has_product(gv, v[a].product_id));
            let b = choose|b: int| 0 <= b < gv.len() && (#[trigger] gv[b]).product_id == v[a].product_id;
            assert(gv[b] == groups@[b]@);
        }
    }
    Ok(groups)
}

proof fn lemma_total_absent(rows: Seq<TransformedRow>, p: Seq<u8>, k: int)
    requires
        !occurs(rows, p),
    ensures
        total(rows, p, k) == 0,
    decreases rows.len(),
{
    if rows.len() > 0 {
        assert(!occurs(rows.drop_last(), p)) by {
            if occurs(rows.drop_last(), p) {
                let w = choose|w: int|
                    0 <= w < rows.drop_last().len() && (#[trigger] rows.drop_last()[w]).product_id
                        == p;
                assert(rows[w] == rows.drop_last()[w]);
            }
        }
        lemma_total_absent(rows.drop_last(), p, k);
        assert(rows[rows.len() - 1].product_id != p);
    }
}

/// Each of `s` is one of `g[lo..]`, and each of `g[lo..]` is one of `s`.
#[verifier::opaque]
pub open spec fn same_members(s: Seq<Summary>, g: Seq<Summary>, lo: int) -> bool {
    &&& forall|j: int|
        0 <= j < s.len() ==> exists|k: int| lo <= k < g.len() && #[trigger] s[j] == #[trigger] g[k]
    &&& forall|k: int|
        lo <= k < g.len() ==> exists|j: int| 0 <= j < s.len() && #[trigger] s[j] == #[trigger] g[k]
}

#[verifier::opaque]
pub open spec fn in_order(s: Seq<Summary>) -> bool {
    forall|i: int, j: int| 0 <= i < j < s.len() ==> before(#[trigger] s[i], #[trigger] s[j])
}

pub open spec fn firsts_increase(g: Seq<Summary>) -> bool {
    forall|j1: int, j2: int|
        0 <= j1 < j2 < g.len() ==> (#[trigger] g[j1]).first_row < (#[trigger] g[j2]).first_row
}

proof fn lemma_insert_in_order(o: Seq<Summary>, g: Seq<Summary>, m: int, pos: int)
    requires
        0 <= m < g.len(),
        0 <= pos <= o.len(),
        firsts_increase(g),
        same_members(o, g, m + 1),
        in_order(o),
        forall|j: int| 0 <= j < pos ==> (#[trigger] o[j]).total_revenue_cents > g[m].total_revenue_cents,
        pos < o.len() ==> o[pos].total_revenue_cents <= g[m].total_revenue_cents,
    ensures
        same_members(o.insert(pos, g[m]), g, m),
        in_order(o.insert(pos, g[m])),
{
    let x = g[m];
    reveal(same_members);
    assert forall|j: int| 0 <= j < o.len() implies (#[trigger] o[j]).first_row > x.first_row by {
        let k = choose|k: int| m + 1 <= k < g.len() && #[trigger] o[j] == #[trigger] g[k];
        assert(g[m].first_row < g[k].first_row);
    }
    lemma_insert_order(o, x, pos);
    lemma_insert_members(o, g, m, pos);
}

proof fn lemma_insert_order(o: Seq<Summary>, x: Summary, pos: int)
    requires
        0 <= pos <= o.len(),
        in_order(o),
        forall|j: int| 0 <= j < o.len() ==> (#[trigger] o[j]).first_row > x.first_row,
        forall|j: int| 0 <= j < pos ==> (#[trigger] o[j]).total_revenue_cents > x.total_revenue_cents,
        pos < o.len() ==> o[pos].total_revenue_cents <= x.total_revenue_cents,
    ensures
        in_order(o.insert(pos, x)),
{
    reveal(in_order);
    let no = o.insert(pos, x);
    assert forall|i: int, j: int| 0 <= i < j < no.len() implies before(
        #[trigger] no[i],
        #[trigger] no[j],
    ) by {
        if j < pos {
            assert(before(o[i], o[j]));
        } else if i < pos && j == pos {
            assert(no[i] == o[i]);
        } else if i < pos {
            assert(before(o[i], o[j - 1]));
        } else if i == pos {
            assert(o[pos].first_row > x.first_row);
            if j - 1 > pos {
                assert(before(o[pos], o[j - 1]));
            }
        } else {
            assert(before(o[i - 1], o[j - 1]));
        }
    }
}

proof fn lemma_insert_members(o: Seq<Summary>, g: Seq<Summary>, m: int, pos: int)
    requires
        0 <= m < g.len(),
        0 <= pos <= o.len(),
        same_members(o, g, m + 1),
    ensures
        same_members(o.insert(pos, g[m]), g, m),
{
    reveal(same_members);
    let no = o.insert(pos, g[m]);
    assert forall|j: int| 0 <= j < no.len() implies exists|k: int|
        m <= k < g.len() && #[trigger] no[j] == #[trigger] g[k] by {
        if j < pos {
            let k = choose|k: int| m + 1 <= k < g.len() && #[trigger] o[j] == #[trigger] g[k];
            assert(no[j] == g[k]);
        } else if j == pos {
            assert(no[j] == g[m]);
        } else {
            let k = choose|k: int| m + 1 <= k < g.len() && #[trigger] o[j - 1] == #[trigger] g[k];
            assert(no[j] == g[k]);
        }
    }
    assert forall|k: int| m <= k < g.len() implies exists|j: int|
        0 <= j < no.len() && #[trigger] no[j] == #[trigger] g[k] by {
        if k == m {
            assert(no[pos] == g[k]);
        } else {
            let j = choose|j: int| 0 <= j < o.len() && #[trigger] o[j] == #[trigger] g[k];
            if j < pos {
                assert(no[j] == g[k]);
            } else {
                assert(no[j + 1] == g[k]);
            }
        }
    }
}

/// Puts the groups in output order.
fn sort_groups(groups: Vec<ProductSummary>) -> (r: Vec<ProductSummary>)
    requires
        firsts_increase(summary_views(groups@)),
    ensures
        same_members(summary_views(r@), summary_views(groups@), 0),
        in_order(summary_views(r@)),
{
    let ghost g = summary_views(groups@);
    let n = groups.len();
    let mut rest = groups;
    let mut out: Vec<ProductSummary> = Vec::new();
    proof {
        reveal(same_members);
        reveal(in_order);
        assert(summary_views(rest@) =~= g.subrange(0, n as int));
    }
    while rest.len() > 0
        invariant
            rest.len() <= n == g.len(),
            summary_views(rest@) == g.subrange(0, rest.len() as int),
            firsts_increase(g),
            same_members(summary_views(out@), g, rest.len() as int),
            in_order(summary_views(out@)),
        decreases rest.len(),
    {
        let ghost old_rest = rest@;
        let ghost o = summary_views(out@);
        let x = rest.pop().unwrap();
        let ghost m = rest.len() as int;
        assert(x@ == g[m]) by {
            assert(summary_views(old_rest)[m] == x@);
        }
        assert(summary_views(rest@) =~= g.subrange(0, m)) by {
            assert(rest@ =~= old_rest.drop_last());
        }
        let mut pos: usize = 0;
        while pos < out.len() && out[pos].total_revenue_cents > x.total_revenue_cents
            invariant
                pos <= out.len(),
                o == summary_views(out@),
                forall|j: int| 0 <= j < pos ==> (#[trigger] o[j]).total_revenue_cents > x.total_revenue_cents,
            decreases out.len() - pos,
        {
            pos = pos + 1;
        }
        proof {
            lemma_insert_in_order(o, g, m, pos as int);
        }
        out.insert(pos, x);
        assert(summary_views(out@) =~= o.insert(pos as int, g[m]));
    }
    out
}

proof fn lemma_sorted_groups_are_aggregate(v: Seq<TransformedRow>, g: Seq<Summary>, o: Seq<Summary>)
    requires
        grouped(v, g),
        same_members(o, g, 0),
        in_order(o),
    ensures
        is_aggregate_of(v, o),
{
    lemma_members_are_groups(v, g, o);
    lemma_members_cover_rows(v, g, o);
    reveal(in_order);
}

proof fn lemma_members_are_groups(v: Seq<TransformedRow>, g: Seq<Summary>, o: Seq<Summary>)
    requires
        grouped(v, g),
        same_members(o, g, 0),
    ensures
        forall|j: int|
            0 <= j < o.len() ==> occurs(v, (#[trigger] o[j]).product_id) && o[j] == group(
                v,
                o[j].product_id,
            ),
{
    reveal(same_members);
    assert forall|j: int| 0 <= j < o.len() implies occurs(v, (#[trigger] o[j]).product_id)
        && o[j] == group(v, o[j].product_id) by {
        let k = choose|k: int| 0 <= k < g.len() && #[trigger] o[j] == #[trigger] g[k];
        assert(occurs(v, g[k].product_id) && g[k] == group(v, g[k].product_id));
    }
}

proof fn lemma_members_cover_rows(v: Seq<TransformedRow>, g: Seq<Summary>, o: Seq<Summary>)
    requires
        forall|i: int| 0 <= i < v.len() ==> has_product(g, (#[trigger] v[i]).product_id),
        same_members(o, g, 0),
    ensures
        forall|i: int| 0 <= i < v.len() ==> has_product(o, (#[trigger] v[i]).product_id),
{
    reveal(same_members);
    assert forall|i: int| 0 <= i < v.len() implies has_product(o, (#[trigger] v[i]).product_id) by {
        assert(has_product(g, v[i].product_id));
        let k = choose|k: int| 0 <= k < g.len() && (#[trigger] g[k]).product_id == v[i].product_id;
        let j = choose|j: int| 0 <= j < o.len() && #[trigger] o[j] == #[trigger] g[k];
        assert(o[j].product_id == v[i].product_id);
    }
}

/// The aggregate stage: one summary per product, highest revenue first.
/// It fails exactly when some product's totals do not fit in 128 bits.
pub fn aggregate(rows: &Vec<TransformedRecord>) -> (r: Result<Vec<ProductSummary>, AggregateError>)
    ensures
        match r {
            Ok(s) => fits(transformed_views(rows@)) && is_aggregate_of(
                transformed_views(rows@),
                summary_views(s@),
            ),
            Err(e) => e == AggregateError::Overflow && !fits(transformed_views(rows@)),
        },
{
    let groups = match group_rows(rows) {
        Ok(g) => g,
        Err(e) => {
            return Err(e);
        },
    };
    let ghost v = transformed_views(rows@);
    let ghost g = summary_views(groups@);
    let sorted = sort_groups(groups);
    proof {
        lemma_sorted_groups_are_aggregate(v, g, summary_views(sorted@));
    }
    Ok(sorted)
}

impl ProductSummary {
    /// The mean price of the product's rows, in hundredths, rounded down.
    pub fn avg_price_cents(&self) -> (r: u128)
        ensures
            self.row_count > 0 ==> r == self.price_sum_cents / self.row_count,
            self.row_count == 0 ==> r == 0,
    {
        if self.row_count == 0 {
            0
        } else {
            self.price_sum_cents / self.row_count
        }
    }
}

} // verus!
