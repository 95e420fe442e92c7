//! The parts of non-binary LDPC decoding over a finite field that do not involve
//! probabilities: syndromes and the neighbours of each variable.

use vstd::prelude::*;

use crate::finite_field::{fmul, law_element_of_as_int, FieldElement, GF};
use crate::polynomial::{padd, poly_rem, ppow, psub};
use crate::radix::{radix_seq, value};

verus! {

/// The reason why decoding failed.
#[derive(Debug)]
pub struct DecodeError {}

/// A row of a sparse matrix over a finite field: pairs of a column and a nonzero entry.
pub type FactorRow = Vec<(usize, FieldElement)>;

/// The field element of `x[k] * v` summed over the first `j` pairs `(k, v)` of a row, as
/// coefficient sequences over the field with polynomial `f` and prime `p`.
pub open spec fn row_sum(xs: Seq<Seq<int>>, row: Seq<(usize, Seq<int>)>, j: int, f: Seq<int>, p: int) -> Seq<int>
    decreases j,
{
    if j <= 0 {
        Seq::empty()
    } else {
        padd(row_sum(xs, row, j - 1, f, p), fmul(xs[row[j - 1].0 as int], row[j - 1].1, f, p), p)
    }
}

/// The elements as coefficient sequences.
pub open spec fn elems(xs: Seq<FieldElement>) -> Seq<Seq<int>> {
    xs.map_values(|e: FieldElement| e.s())
}

/// A row with its entries as coefficient sequences.
pub open spec fn row_view(row: Seq<(usize, FieldElement)>) -> Seq<(usize, Seq<int>)> {
    row.map_values(|e: (usize, FieldElement)| (e.0, e.1.s()))
}

/// Every element and entry lies in `field`, and every column is an index into `x`.
pub open spec fn in_field(x: Seq<FieldElement>, factors: Seq<FactorRow>, field: GF) -> bool {
    &&& forall|i: int| 0 <= i < x.len() ==> (#[trigger] x[i]).gf()@ == field@
    &&& forall|m: int, j: int|
        0 <= m < factors.len() && 0 <= j < factors[m]@.len() ==> (#[trigger] factors[m]@[j]).1.gf()@ == field@
            && factors[m]@[j].0 < x.len()
}

/// The syndrome of `x`: for every row, the sum of `x[k] * v` over its pairs `(k, v)`.
pub fn calculate_syndrome(x: &[FieldElement], factors: &[FactorRow]) -> (r: Vec<FieldElement>)
    requires
        x.len() > 0,
        in_field(x@, factors@, x[0].gf()),
    ensures
        r.len() == factors.len(),
        forall|m: int| 0 <= m < factors.len() ==> (#[trigger] r[m]).gf()@ == x[0].gf()@ && r[m].s() == row_sum(
            elems(x@),
            row_view(factors[m]@),
            factors[m]@.len() as int,
            x[0].gf().modulus(),
            x[0].gf().prime(),
        ),
{
    let zero = x[0].field().zero();
    let ghost gf = x[0].gf();
    let mut syndrome: Vec<FieldElement> = Vec::new();
    let mut m: usize = 0;
    while m < factors.len()
        invariant
            m <= factors.len(),
            x.len() > 0,
            gf == x[0].gf(),
            in_field(x@, factors@, gf),
            zero.gf()@ == gf@,
            zero.s() == Seq::<int>::empty(),
            syndrome.len() == m,
            forall|t: int| 0 <= t < m ==> (#[trigger] syndrome[t]).gf()@ == gf@ && syndrome[t].s() == row_sum(
                elems(x@),
                row_view(factors[t]@),
                factors[t]@.len() as int,
                gf.modulus(),
                gf.prime(),
            ),
        decreases factors.len() - m,
    {
        let row = &factors[m];
        let mut current = zero.clone();
        let mut j: usize = 0;
        while j < row.len()
            invariant
                j <= row.len(),
                row == factors@[m as int],
                m < factors.len(),
                in_field(x@, factors@, gf),
                current.gf()@ == gf@,
                current.s() == row_sum(elems(x@), row_view(row@), j as int, gf.modulus(), gf.prime()),
            decreases row.len() - j,
        {
            let (k, v) = (row[j].0, &row[j].1);
            proof {
                assert(row@[j as int].1.gf()@ == gf@);
                assert(k < x.len());
                assert(x@[k as int].gf()@ == gf@);
            }
            let prod = x[k].mul(v);
            current.add_assign(&prod);
            proof {
                assert(elems(x@)[k as int] == x@[k as int].s());
                assert(row_view(row@)[j as int] == (k, v.s()));
            }
            j = j + 1;
        }
        syndrome.push(current);
        m = m + 1;
    }
    syndrome
}

/// Row `row` has an entry in column `v`.
pub open spec fn row_has(row: Seq<(usize, FieldElement)>, v: int) -> bool {
    exists|j: int| 0 <= j < row.len() && #[trigger] row[j].0 == v
}

/// The rows among the first `m` that have an entry in column `v`, in order.
pub open spec fn rows_with(factors: Seq<FactorRow>, v: int, m: int) -> Seq<usize>
    decreases m,
{
    if m <= 0 {
        Seq::empty()
    } else if row_has(factors[m - 1]@, v) {
        rows_with(factors, v, m - 1).push((m - 1) as usize)
    } else {
        rows_with(factors, v, m - 1)
    }
}

/// One more than the largest column among the first `m` rows, zero when there is none.
pub open spec fn width(factors: Seq<FactorRow>, m: int) -> int
    decreases m,
{
    if m <= 0 {
        0
    } else {
        let w = width(factors, m - 1);
        let r = row_width(factors[m - 1]@, factors[m - 1]@.len() as int);
        if r > w {
            r
        } else {
            w
        }
    }
}

/// One more than the largest column among the first `j` pairs of a row.
pub open spec fn row_width(row: Seq<(usize, FieldElement)>, j: int) -> int
    decreases j,
{
    if j <= 0 {
        0
    } else {
        let w = row_width(row, j - 1);
        if row[j - 1].0 + 1 > w {
            row[j - 1].0 + 1
        } else {
            w
        }
    }
}

/// The columns of every row increase strictly, as in a map from column to entry.
pub open spec fn columns_increase(factors: Seq<FactorRow>) -> bool {
    forall|m: int, i: int, j: int|
        0 <= m < factors.len() && 0 <= i < j < factors[m]@.len() ==> #[trigger] factors[m]@[i].0 < #[trigger] factors[m]@[j].0
}

proof fn lemma_row_width(row: Seq<(usize, FieldElement)>, j: int)
    requires
        0 <= j <= row.len(),
    ensures
        forall|t: int| 0 <= t < j ==> #[trigger] row[t].0 < row_width(row, j),
        row_width(row, j) >= 0,
    decreases j,
{
    if j > 0 {
        lemma_row_width(row, j - 1);
    }
}

proof fn lemma_width(factors: Seq<FactorRow>, m: int)
    requires
        0 <= m <= factors.len(),
    ensures
        forall|a: int, t: int| 0 <= a < m && 0 <= t < factors[a]@.len() ==> #[trigger] factors[a]@[t].0 < width(factors, m),
        width(factors, m) >= 0,
    decreases m,
{
    if m > 0 {
        lemma_width(factors, m - 1);
        lemma_row_width(factors[m - 1]@, factors[m - 1]@.len() as int);
    }
}

/// For every column, the rows that have an entry in it, in order; as many columns as one
/// more than the largest column of any row.
pub fn factor_neighbours(factors: &[FactorRow]) -> (r: Vec<Vec<usize>>)
    requires
        columns_increase(factors@),
        forall|m: int, j: int| 0 <= m < factors.len() && 0 <= j < factors[m]@.len() ==> #[trigger] factors[m]@[j].0 < usize::MAX,
    ensures
        r.len() == width(factors@, factors.len() as int),
        forall|v: int| 0 <= v < r.len() ==> #[trigger] r[v]@ == rows_with(factors@, v, factors.len() as int),
{
    let mut max_vars: usize = 0;
    let mut m: usize = 0;
    while m < factors.len()
        invariant
            m <= factors.len(),
            forall|a: int, j: int| 0 <= a < factors.len() && 0 <= j < factors[a]@.len() ==> #[trigger] factors[a]@[j].0 < usize::MAX,
            max_vars == width(factors@, m as int),
        decreases factors.len() - m,
    {
        let row = &factors[m];
        let mut w: usize = 0;
        let mut j: usize = 0;
        while j < row.len()
            invariant
                j <= row.len(),
                row == factors@[m as int],
                m < factors.len(),
                forall|a: int, t: int| 0 <= a < factors.len() && 0 <= t < factors[a]@.len() ==> #[trigger] factors[a]@[t].0 < usize::MAX,
                w == row_width(row@, j as int),
            decreases row.len() - j,
        {
            let k = row[j].0;
            proof {
                assert(factors@[m as int]@[j as int].0 < usize::MAX);
            }
            if k + 1 > w {
                w = k + 1;
            }
            j = j + 1;
        }
        if w > max_vars {
            max_vars = w;
        }
        m = m + 1;
    }
    let mut neighbours: Vec<Vec<usize>> = Vec::new();
    while neighbours.len() < max_vars
        invariant
            neighbours.len() <= max_vars,
            forall|v: int| 0 <= v < neighbours.len() ==> (#[trigger] neighbours[v])@ == Seq::<usize>::empty(),
        decreases max_vars - neighbours.len(),
    {
        neighbours.push(Vec::new());
    }
    proof {
        lemma_width(factors@, factors.len() as int);
    }
    let mut m: usize = 0;
    while m < factors.len()
        invariant
            m <= factors.len(),
            columns_increase(factors@),
            max_vars == width(factors@, factors.len() as int),
            neighbours.len() == max_vars,
            forall|a: int, t: int| 0 <= a < factors.len() && 0 <= t < factors[a]@.len() ==> #[trigger] factors[a]@[t].0 < max_vars,
            forall|v: int| 0 <= v < neighbours.len() ==> (#[trigger] neighbours[v])@ == rows_with(factors@, v, m as int),
        decreases factors.len() - m,
    {
        let row = &factors[m];
        let mut j: usize = 0;
        while j < row.len()
            invariant
                j <= row.len(),
                row == factors@[m as int],
                m < factors.len(),
                columns_increase(factors@),
                neighbours.len() == max_vars,
                forall|a: int, t: int| 0 <= a < factors.len() && 0 <= t < factors[a]@.len() ==> #[trigger] factors[a]@[t].0 < max_vars,
                forall|v: int| 0 <= v < neighbours.len() ==> (#[trigger] neighbours[v])@ == if exists|t: int| 0 <= t < j && #[trigger] row@[t].0 == v {
                    rows_with(factors@, v, m as int).push(m)
                } else {
                    rows_with(factors@, v, m as int)
                },
            decreases row.len() - j,
        {
            let k = row[j].0;
            proof {
                assert(factors@[m as int]@[j as int].0 < max_vars);
            }
            let ghost before = neighbours@;
            let mut list = Vec::new();
            std::mem::swap(&mut list, &mut neighbours[k]);
            list.push(m);
            std::mem::swap(&mut list, &mut neighbours[k]);
            proof {
                assert forall|v: int| 0 <= v < neighbours.len() implies (#[trigger] neighbours[v])@ == if exists|t: int| 0 <= t < j + 1 && #[trigger] row@[t].0 == v {
                    rows_with(factors@, v, m as int).push(m)
                } else {
                    rows_with(factors@, v, m as int)
                } by {
                    if v == k {
                        assert(row@[j as int].0 == v);
                        assert(!(exists|t: int| 0 <= t < j && #[trigger] row@[t].0 == v)) by {
                            if exists|t: int| 0 <= t < j && #[trigger] row@[t].0 == v {
                                let t = choose|t: int| 0 <= t < j && #[trigger] row@[t].0 == v;
                                assert(factors@[m as int]@[t].0 < factors@[m as int]@[j as int].0);
                            }
                        }
                    } else {
                        assert(neighbours[v] == before[v]);
                        if exists|t: int| 0 <= t < j + 1 && #[trigger] row@[t].0 == v {
                            let t = choose|t: int| 0 <= t < j + 1 && #[trigger] row@[t].0 == v;
                            assert(t < j);
                        }
                    }
                }
            }
            j = j + 1;
        }
        proof {
            assert forall|v: int| 0 <= v < neighbours.len() implies (#[trigger] neighbours[v])@ == rows_with(factors@, v, m + 1) by {
                if exists|t: int| 0 <= t < j && #[trigger] row@[t].0 == v {
                    assert(row_has(factors@[m as int]@, v));
                } else {
                    assert(!row_has(factors@[m as int]@, v));
                }
            }
        }
        m = m + 1;
    }
    neighbours
}

/// The coefficients of element `k` of the field of `gf`.
pub open spec fn elem(gf: GF, k: int) -> Seq<int> {
    radix_seq(k, gf.prime(), gf.dim())
}

/// `h^(q - 2) * (element(i) - element(j))` in the field of `h`, whose order is `q`; for a
/// nonzero `h`, `h^(q - 2)` is its inverse.
pub open spec fn mult_entry(h: FieldElement, i: int, j: int) -> Seq<int> {
    let gf = h.gf();
    let p = gf.prime();
    let f = gf.modulus();
    let hinv = poly_rem(ppow(h.s(), (gf.size() - 2) as nat, p), f, p);
    fmul(hinv, poly_rem(psub(elem(gf, i), elem(gf, j), p), f, p), f, p)
}

/// `(z - h * element(a)) - element(b)` in the field of `h`.
pub open spec fn sum_entry(z: FieldElement, h: FieldElement, a: int, b: int) -> Seq<int> {
    let gf = h.gf();
    let p = gf.prime();
    let f = gf.modulus();
    let t = poly_rem(psub(z.s(), fmul(h.s(), elem(gf, a), f, p), p), f, p);
    poly_rem(psub(t, elem(gf, b), p), f, p)
}

/// The table of the division by `h` that decoding uses: at row `i` and column `j`, the
/// index of `h^(q - 2) * (element(i) - element(j))`, where `q` is the field's order; the
/// element at that index is that product.
pub fn mult_idx(h: &FieldElement) -> (r: Vec<Vec<usize>>)
    requires
        h.gf().size() >= 3,
        (h.gf().size() - 2) * h.s().len() <= u32::MAX,
    ensures
        r.len() == h.gf().size(),
        forall|i: int| 0 <= i < r.len() ==> (#[trigger] r[i]).len() == h.gf().size(),
        forall|i: int, j: int|
            0 <= i < h.gf().size() && 0 <= j < h.gf().size() ==> {
                &&& #[trigger] r[i]@[j] as int == value(mult_entry(*h, i, j), h.gf().prime())
                &&& elem(h.gf(), r[i]@[j] as int) == mult_entry(*h, i, j)
            },
{
    let field = h.field();
    proof {
        use_type_invariant(field);
    }
    let q = field.field_size();
    let hinv = h.pow(q - 2);
    let mut rows: Vec<Vec<usize>> = Vec::new();
    let mut i: u32 = 0;
    while i < q
        invariant
            q as int == h.gf().size(),
            field@ == h.gf()@,
            field.size() == h.gf().size(),
            field.wf(),
            hinv.gf()@ == h.gf()@,
            hinv.gf().size() == h.gf().size(),
            hinv.s() == poly_rem(ppow(h.s(), (q - 2) as nat, h.gf().prime()), h.gf().modulus(), h.gf().prime()),
            i <= q,
            rows.len() == i,
            forall|a: int| 0 <= a < i ==> (#[trigger] rows[a]).len() == q,
            forall|a: int, b: int|
                0 <= a < i && 0 <= b < q ==> {
                    &&& #[trigger] rows[a]@[b] as int == value(mult_entry(*h, a, b), h.gf().prime())
                    &&& elem(h.gf(), rows[a]@[b] as int) == mult_entry(*h, a, b)
                },
        decreases q - i,
    {
        let e1 = field.element(i);
        proof {
            vstd::arithmetic::div_mod::lemma_small_mod(i as nat, q as nat);
        }
        let mut row: Vec<usize> = Vec::new();
        let mut j: u32 = 0;
        while j < q
            invariant
                q as int == h.gf().size(),
                field@ == h.gf()@,
                field.size() == h.gf().size(),
                field.wf(),
                hinv.gf()@ == h.gf()@,
                hinv.gf().size() == h.gf().size(),
                hinv.s() == poly_rem(ppow(h.s(), (q - 2) as nat, h.gf().prime()), h.gf().modulus(), h.gf().prime()),
                i < q,
                e1.gf()@ == h.gf()@,
                e1.gf().size() == h.gf().size(),
                e1.s() == elem(h.gf(), i as int),
                j <= q,
                row.len() == j,
                forall|b: int|
                    0 <= b < j ==> {
                        &&& #[trigger] row@[b] as int == value(mult_entry(*h, i as int, b), h.gf().prime())
                        &&& elem(h.gf(), row@[b] as int) == mult_entry(*h, i as int, b)
                    },
            decreases q - j,
        {
            let e2 = field.element(j);
            let d = e1.sub(&e2);
            let e3 = hinv.mul(&d);
            let k = e3.as_int();
            proof {
                vstd::arithmetic::div_mod::lemma_small_mod(i as nat, q as nat);
                vstd::arithmetic::div_mod::lemma_small_mod(j as nat, q as nat);
                use_type_invariant(&e3);
                let gf3 = e3.gf();
                assert(e3.wf());
                law_element_of_as_int(e3);
                vstd::arithmetic::div_mod::lemma_small_mod(k as nat, q as nat);
                assert(e3.s() == mult_entry(*h, i as int, j as int));
            }
            row.push(k as usize);
            j = j + 1;
        }
        rows.push(row);
        i = i + 1;
    }
    rows
}

/// The table of the subtraction that decoding uses for the received symbol `z` and the
/// entry `h`: at row `a` and column `b`, the index of `(z - h * element(a)) - element(b)`.
pub fn sum_idx(z: &FieldElement, h: &FieldElement) -> (r: Vec<Vec<usize>>)
    requires
        z.gf()@ == h.gf()@,
    ensures
        r.len() == h.gf().size(),
        forall|a: int| 0 <= a < r.len() ==> (#[trigger] r[a]).len() == h.gf().size(),
        forall|a: int, b: int|
            0 <= a < h.gf().size() && 0 <= b < h.gf().size() ==> #[trigger] r[a]@[b] as int == value(
                sum_entry(*z, *h, a, b),
                h.gf().prime(),
            ),
{
    let field = h.field();
    proof {
        use_type_invariant(field);
    }
    let q = field.field_size();
    let mut rows: Vec<Vec<usize>> = Vec::new();
    let mut a: u32 = 0;
    while a < q
        invariant
            q as int == h.gf().size(),
            field@ == h.gf()@,
            field.size() == h.gf().size(),
            field.wf(),
            z.gf()@ == h.gf()@,
            a <= q,
            rows.len() == a,
            forall|x: int| 0 <= x < a ==> (#[trigger] rows[x]).len() == q,
            forall|x: int, y: int|
                0 <= x < a && 0 <= y < q ==> #[trigger] rows[x]@[y] as int == value(sum_entry(*z, *h, x, y), h.gf().prime()),
        decreases q - a,
    {
        let ea = field.element(a);
        proof {
            vstd::arithmetic::div_mod::lemma_small_mod(a as nat, q as nat);
        }
        let t = z.sub(&h.mul(&ea));
        let mut row: Vec<usize> = Vec::new();
        let mut b: u32 = 0;
        while b < q
            invariant
                q as int == h.gf().size(),
                field@ == h.gf()@,
                field.size() == h.gf().size(),
                field.wf(),
                a < q,
                t.gf()@ == h.gf()@,
                t.s() == poly_rem(
                    psub(z.s(), fmul(h.s(), elem(h.gf(), a as int), h.gf().modulus(), h.gf().prime()), h.gf().prime()),
                    h.gf().modulus(),
                    h.gf().prime(),
                ),
                b <= q,
                row.len() == b,
                forall|y: int| 0 <= y < b ==> #[trigger] row@[y] as int == value(sum_entry(*z, *h, a as int, y), h.gf().prime()),
            decreases q - b,
        {
            let eb = field.element(b);
            let d = t.sub(&eb);
            let k = d.as_int();
            proof {
                vstd::arithmetic::div_mod::lemma_small_mod(b as nat, q as nat);
                assert(d.s() == sum_entry(*z, *h, a as int, b as int));
            }
            row.push(k as usize);
            b = b + 1;
        }
        proof {
            vstd::arithmetic::div_mod::lemma_small_mod(a as nat, q as nat);
        }
        rows.push(row);
        a = a + 1;
    }
    rows
}

} // verus!
