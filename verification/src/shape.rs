//! The shape-keyed parameter codec and elementwise batch helpers.
//!
//! A `Key` gives the width of every layer including the input layer; that
//! alone fixes the slice boundaries of a flat buffer, so a nested
//! per-layer / per-unit / per-previous-unit weight structure and the
//! per-layer bias lists can be cut out of it without per-unit metadata.

use vstd::prelude::*;
use crate::fx::{fx_add, fx_sub, fx_mul, fx_divn, fx_add_spec, fx_sub_spec, fx_mul_spec,
    fx_divn_spec};
use crate::node::copy_scalars;
use crate::cost::lemma_rows_dv;

verus! {

/// Per-layer width metadata: `column_lengths` has one entry per layer
/// plus one for the input layer, so its length is `layer_count + 1`.
pub struct Key {
    pub layer_count: usize,
    pub column_lengths: Vec<usize>,
}

impl Key {
    /// The widths list one entry per layer and one for the input layer.
    pub open spec fn wf(&self) -> bool {
        self.column_lengths@.len() == self.layer_count + 1
    }
}

/// Nested parameter structure: per layer, per unit, the weights toward
/// every unit of the previous layer; and per layer the bias list.
#[derive(Debug)]
pub struct WB {
    pub w: Vec<Vec<Vec<i64>>>,
    pub b: Vec<Vec<i64>>,
}

/// Rows joined into one flat buffer.
pub open spec fn rows_flat(b: Seq<Seq<i64>>) -> Seq<i64>
    decreases b.len(),
{
    if b.len() == 0 {
        Seq::empty()
    } else {
        rows_flat(b.drop_last()) + b.last()
    }
}

/// Layers of rows joined into one flat buffer, layer-major.
pub open spec fn cube_flat(w: Seq<Seq<Seq<i64>>>) -> Seq<i64>
    decreases w.len(),
{
    if w.len() == 0 {
        Seq::empty()
    } else {
        cube_flat(w.drop_last()) + rows_flat(w.last())
    }
}

/// The flat buffer of a nested structure: all weights, then all biases.
pub open spec fn wb_ribbon(w: Seq<Seq<Seq<i64>>>, b: Seq<Seq<i64>>) -> Seq<i64> {
    cube_flat(w) + rows_flat(b)
}

/// Weight entries of the first `m` layers under a key: layer `n` (from 1)
/// holds `width(n) * width(n-1)` weights.
pub open spec fn key_w_total(cl: Seq<usize>, m: int) -> int
    decreases m,
{
    if m <= 0 {
        0
    } else {
        key_w_total(cl, m - 1) + cl[m] * cl[m - 1]
    }
}

/// Bias entries of the first `m` layers under a key: one per unit.
pub open spec fn key_b_total(cl: Seq<usize>, m: int) -> int
    decreases m,
{
    if m <= 0 {
        0
    } else {
        key_b_total(cl, m - 1) + cl[m]
    }
}

/// Partial weight sums never decrease.
pub proof fn lemma_key_w_mono(cl: Seq<usize>, n: int, m: int)
    requires
        0 <= n <= m,
    ensures
        key_w_total(cl, n) <= key_w_total(cl, m),
        key_b_total(cl, n) <= key_b_total(cl, m),
    decreases m - n,
{
    if n < m {
        lemma_key_w_mono(cl, n, m - 1);
    }
}

/// Copies the slice `v[a..b]`.
pub(crate) fn sub_vec(v: &Vec<i64>, a: usize, b: usize) -> (r: Vec<i64>)
    requires
        a <= b <= v@.len(),
    ensures
        r@ == v@.subrange(a as int, b as int),
{
    let mut r: Vec<i64> = Vec::new();
    let mut i: usize = a;
    while i < b
        invariant
            a <= i <= b <= v@.len(),
            r@ == v@.subrange(a as int, i as int),
        decreases b - i,
    {
        r.push(v[i]);
        i += 1;
        proof {
            assert(r@ =~= v@.subrange(a as int, i as int));
        }
    }
    r
}

impl WB {
    /// Flattens the nested structure: all weight rows (layer-major,
    /// unit-major), then all bias lists in layer order.
    pub fn flatten(&self) -> (r: Vec<i64>)
        ensures
            r@ == wb_ribbon(self.w.deep_view(), self.b.deep_view()),
    {
        let ghost wv = self.w.deep_view();
        let ghost bv = self.b.deep_view();
        proof {
            lemma_cube_dv(self.w);
            lemma_rows_dv(self.b);
        }
        let mut acc: Vec<i64> = Vec::new();
        let mut li: usize = 0;
        while li < self.w.len()
            invariant
                li <= self.w@.len(),
                wv.len() == self.w@.len(),
                forall|t: int| 0 <= t < self.w@.len() ==> #[trigger] wv[t].len()
                    == self.w@[t]@.len(),
                forall|t: int, j: int|
                    0 <= t < self.w@.len() && 0 <= j < self.w@[t]@.len() ==> #[trigger] wv[t][j]
                        == self.w@[t]@[j]@,
                acc@ == cube_flat(wv.take(li as int)),
            decreases self.w@.len() - li,
        {
            let rows = &self.w[li];
            let mut j: usize = 0;
            while j < rows.len()
                invariant
                    li < self.w@.len(),
                    rows == self.w@[li as int],
                    wv.len() == self.w@.len(),
                    wv[li as int].len() == rows@.len(),
                    forall|t: int| 0 <= t < rows@.len() ==> #[trigger] wv[li as int][t]
                        == rows@[t]@,
                    j <= rows@.len(),
                    acc@ == cube_flat(wv.take(li as int)) + rows_flat(
                        wv[li as int].take(j as int),
                    ),
                decreases rows@.len() - j,
            {
                let mut row = copy_scalars(&rows[j]);
                acc.append(&mut row);
                proof {
                    let lay = wv[li as int];
                    assert(lay.take(j + 1).drop_last() =~= lay.take(j as int));
                    assert(lay.take(j + 1).last() == lay[j as int]);
                }
                j += 1;
            }
            proof {
                assert(wv[li as int].take(rows@.len() as int) =~= wv[li as int]);
                assert(wv.take(li + 1).drop_last() =~= wv.take(li as int));
                assert(wv.take(li + 1).last() == wv[li as int]);
            }
            li += 1;
        }
        proof {
            assert(wv.take(self.w@.len() as int) =~= wv);
        }
        let mut li: usize = 0;
        while li < self.b.len()
            invariant
                li <= self.b@.len(),
                bv.len() == self.b@.len(),
                forall|t: int| 0 <= t < self.b@.len() ==> #[trigger] bv[t] == self.b@[t]@,
                acc@ == cube_flat(wv) + rows_flat(bv.take(li as int)),
            decreases self.b@.len() - li,
        {
            let mut row = copy_scalars(&self.b[li]);
            acc.append(&mut row);
            proof {
                assert(bv.take(li + 1).drop_last() =~= bv.take(li as int));
                assert(bv.take(li + 1).last() == bv[li as int]);
            }
            li += 1;
        }
        proof {
            assert(bv.take(self.b@.len() as int) =~= bv);
        }
        acc
    }

    /// The structural inverse keyed on layer widths alone: weight blocks
    /// are cut from the front of the buffer's weight region in layer
    /// order and re-chunked into per-unit rows of the previous layer's
    /// width; bias blocks are cut from the bias region the same way.
    pub fn unflatten(k: Key, v: &Vec<i64>) -> (r: WB)
        requires
            k.wf(),
            v@.len() >= key_w_total(k.column_lengths@, k.layer_count as int) + key_b_total(
                k.column_lengths@,
                k.layer_count as int,
            ),
        ensures
            r.w@.len() == k.layer_count,
            r.b@.len() == k.layer_count,
            forall|t: int|
                0 <= t < k.layer_count ==> #[trigger] r.b@[t]@ == v@.subrange(
                    key_w_total(k.column_lengths@, k.layer_count as int) + key_b_total(
                        k.column_lengths@,
                        t,
                    ),
                    key_w_total(k.column_lengths@, k.layer_count as int) + key_b_total(
                        k.column_lengths@,
                        t,
                    ) + k.column_lengths@[t + 1],
                ),
            forall|t: int|
                0 <= t < k.layer_count ==> #[trigger] r.w@[t]@.len()
                    == k.column_lengths@[t + 1],
            forall|t: int, j: int|
                #![trigger r.w@[t]@[j]]
                0 <= t < k.layer_count && 0 <= j < k.column_lengths@[t + 1] ==> r.w@[t]@[j]@
                    == v@.subrange(
                    key_w_total(k.column_lengths@, t) + j * k.column_lengths@[t],
                    key_w_total(k.column_lengths@, t) + j * k.column_lengths@[t]
                        + k.column_lengths@[t],
                ),
    {
        let ghost clv = k.column_lengths@;
        let lc = k.layer_count;
        let ghost tww = key_w_total(clv, lc as int);
        let ghost tbb = key_b_total(clv, lc as int);
        let vcap = v.len();
        proof {
            lemma_key_w_mono(clv, 0, lc as int);
        }
        let mut total: usize = 0;
        let mut n: usize = 1;
        while n < k.column_lengths.len()
            invariant
                k.wf(),
                clv == k.column_lengths@,
                1 <= n <= clv.len(),
                total == key_w_total(clv, n - 1),
                tww == key_w_total(clv, lc as int),
                tbb == key_b_total(clv, lc as int),
                lc + 1 == clv.len(),
                v@.len() >= tww + tbb,
                v@.len() <= usize::MAX,
                vcap == v@.len(),
                0 <= tbb,
            decreases clv.len() - n,
        {
            proof {
                lemma_key_w_mono(clv, n as int, lc as int);
                lemma_key_w_mono(clv, 0, n as int - 1);
                assert(key_w_total(clv, n as int) == key_w_total(clv, n as int - 1)
                    + clv[n as int] * clv[n as int - 1]);
                assert(total + clv[n as int] * clv[n as int - 1] <= v@.len());
            }
            total = total + k.column_lengths[n] * k.column_lengths[n - 1];
            n += 1;
        }
        let mut my_b: Vec<Vec<i64>> = Vec::new();
        let mut my_w: Vec<Vec<Vec<i64>>> = Vec::new();
        let mut boff: usize = total;
        let mut woff: usize = 0;
        let mut li: usize = 0;
        while li < lc
            invariant
                k.wf(),
                clv == k.column_lengths@,
                lc + 1 == clv.len(),
                li <= lc,
                total == key_w_total(clv, lc as int),
                tww == key_w_total(clv, lc as int),
                tbb == key_b_total(clv, lc as int),
                v@.len() >= tww + tbb,
                v@.len() <= usize::MAX,
                vcap == v@.len(),
                boff == tww + key_b_total(clv, li as int),
                woff == key_w_total(clv, li as int),
                my_b@.len() == li,
                my_w@.len() == li,
                forall|t: int|
                    0 <= t < li ==> #[trigger] my_b@[t]@ == v@.subrange(
                        tww + key_b_total(clv, t),
                        tww + key_b_total(clv, t) + clv[t + 1],
                    ),
                forall|t: int| 0 <= t < li ==> #[trigger] my_w@[t]@.len() == clv[t + 1],
                forall|t: int, j: int|
                    #![trigger my_w@[t]@[j]]
                    0 <= t < li && 0 <= j < clv[t + 1] ==> my_w@[t]@[j]@ == v@.subrange(
                        key_w_total(clv, t) + j * clv[t],
                        key_w_total(clv, t) + j * clv[t] + clv[t],
                    ),
            decreases lc - li,
        {
            proof {
                lemma_key_w_mono(clv, 0, li as int);
                lemma_key_w_mono(clv, li as int + 1, lc as int);
                lemma_key_w_mono(clv, 0, li as int + 1);
                assert(key_b_total(clv, li as int + 1) == key_b_total(clv, li as int)
                    + clv[li as int + 1]);
                assert(key_w_total(clv, li as int + 1) == key_w_total(clv, li as int)
                    + clv[li as int + 1] * clv[li as int]);
                assert(boff + clv[li as int + 1] <= v@.len());
            }
            let width = k.column_lengths[li + 1];
            let prev = k.column_lengths[li];
            let bblock = sub_vec(v, boff, boff + width);
            my_b.push(bblock);
            let mut rows: Vec<Vec<i64>> = Vec::new();
            let mut j: usize = 0;
            while j < width
                invariant
                    clv == k.column_lengths@,
                    lc + 1 == clv.len(),
                    li < lc,
                    width == clv[li as int + 1],
                    prev == clv[li as int],
                    woff == key_w_total(clv, li as int),
                    key_w_total(clv, li as int + 1) <= key_w_total(clv, lc as int),
                    key_w_total(clv, li as int + 1) == key_w_total(clv, li as int)
                        + width * prev,
                    v@.len() >= key_w_total(clv, lc as int) + key_b_total(clv, lc as int),
                    v@.len() <= usize::MAX,
                    0 <= key_b_total(clv, lc as int),
                    j <= width,
                    rows@.len() == j,
                    forall|t: int|
                        0 <= t < j ==> #[trigger] rows@[t]@ == v@.subrange(
                            key_w_total(clv, li as int) + t * clv[li as int],
                            key_w_total(clv, li as int) + t * clv[li as int]
                                + clv[li as int],
                        ),
                decreases width - j,
            {
                proof {
                    assert(j * prev + prev <= width * prev) by (nonlinear_arith)
                        requires
                            0 <= j < width,
                            0 <= prev,
                    ;
                    assert(0 <= j * prev) by (nonlinear_arith)
                        requires
                            0 <= j,
                            0 <= prev,
                    ;
                    assert(woff + j * prev + prev <= v@.len());
                }
                let row = sub_vec(v, woff + j * prev, woff + j * prev + prev);
                rows.push(row);
                j += 1;
            }
            my_w.push(rows);
            boff = boff + width;
            woff = woff + width * prev;
            li += 1;
        }
        WB { w: my_w, b: my_b }
    }
}

/// Elementwise squared difference of two vectors, over `a`'s indices.
pub fn sqdf(a: &Vec<i64>, b: &Vec<i64>) -> (r: Vec<i64>)
    requires
        b@.len() >= a@.len(),
    ensures
        r@.len() == a@.len(),
        forall|i: int|
            0 <= i < a@.len() ==> #[trigger] r@[i] == fx_mul_spec(
                fx_sub_spec(a@[i] as int, b@[i] as int),
                fx_sub_spec(a@[i] as int, b@[i] as int),
            ) as i64,
{
    let mut r: Vec<i64> = Vec::new();
    let mut i: usize = 0;
    while i < a.len()
        invariant
            i <= a@.len(),
            b@.len() >= a@.len(),
            r@.len() == i,
            forall|t: int|
                0 <= t < i ==> #[trigger] r@[t] == fx_mul_spec(
                    fx_sub_spec(a@[t] as int, b@[t] as int),
                    fx_sub_spec(a@[t] as int, b@[t] as int),
                ) as i64,
        decreases a@.len() - i,
    {
        let d = fx_sub(a[i], b[i]);
        r.push(fx_mul(d, d));
        i += 1;
    }
    r
}

/// Clipped column sum of the first `n` rows at column `j`.
pub open spec fn col_sum(a: Seq<Seq<i64>>, j: int, n: int) -> int
    decreases n,
{
    if n <= 0 {
        0
    } else {
        fx_add_spec(col_sum(a, j, n - 1), a[n - 1][j] as int)
    }
}

/// Elementwise sum of equally long rows.
pub fn sum(a: &Vec<Vec<i64>>) -> (r: Vec<i64>)
    requires
        a@.len() > 0,
        forall|i: int| 0 <= i < a@.len() ==> #[trigger] a@[i]@.len() == a@[0]@.len(),
    ensures
        r@.len() == a@[0]@.len(),
        forall|j: int|
            0 <= j < a@[0]@.len() ==> #[trigger] r@[j] == col_sum(
                a.deep_view(),
                j,
                a@.len() as int,
            ) as i64,
{
    proof {
        lemma_rows_dv(*a);
    }
    let width = a[0].len();
    let mut r: Vec<i64> = Vec::new();
    let mut j: usize = 0;
    while j < width
        invariant
            j <= width,
            a@.len() > 0,
            width == a@[0]@.len(),
            r@.len() == j,
            forall|t: int| 0 <= t < j ==> #[trigger] r@[t] == col_sum(a.deep_view(), t, 1),
            a.deep_view().len() == a@.len(),
            forall|t: int| 0 <= t < a@.len() ==> #[trigger] a.deep_view()[t] == a@[t]@,
        decreases width - j,
    {
        r.push(a[0][j]);
        proof {
            assert(col_sum(a.deep_view(), j as int, 0) == 0);
            assert(col_sum(a.deep_view(), j as int, 1) == fx_add_spec(
                0,
                a.deep_view()[0][j as int] as int,
            ));
        }
        j += 1;
    }
    let mut i: usize = 1;
    while i < a.len()
        invariant
            1 <= i <= a@.len(),
            width == a@[0]@.len(),
            forall|t: int| 0 <= t < a@.len() ==> #[trigger] a@[t]@.len() == a@[0]@.len(),
            r@.len() == width,
            forall|t: int|
                0 <= t < width ==> #[trigger] r@[t] == col_sum(a.deep_view(), t, i as int),
            a.deep_view().len() == a@.len(),
            forall|t: int| 0 <= t < a@.len() ==> #[trigger] a.deep_view()[t] == a@[t]@,
        decreases a@.len() - i,
    {
        let mut j: usize = 0;
        while j < width
            invariant
                j <= width,
                i < a@.len(),
                width == a@[0]@.len(),
                forall|t: int| 0 <= t < a@.len() ==> #[trigger] a@[t]@.len() == a@[0]@.len(),
                r@.len() == width,
                forall|t: int|
                    j <= t < width ==> #[trigger] r@[t] == col_sum(a.deep_view(), t, i as int),
                forall|t: int|
                    0 <= t < j ==> #[trigger] r@[t] == col_sum(a.deep_view(), t, i + 1),
                a.deep_view().len() == a@.len(),
                forall|t: int| 0 <= t < a@.len() ==> #[trigger] a.deep_view()[t] == a@[t]@,
            decreases width - j,
        {
            let x = fx_add(r[j], a[i][j]);
            r.set(j, x);
            j += 1;
        }
        i += 1;
    }
    r
}

/// Clipped column sum of squared differences over the first `n` examples.
pub open spec fn sq_col_sum(a: Seq<Seq<i64>>, b: Seq<Seq<i64>>, j: int, n: int) -> int
    decreases n,
{
    if n <= 0 {
        0
    } else {
        fx_add_spec(
            sq_col_sum(a, b, j, n - 1),
            fx_mul_spec(
                fx_sub_spec(a[n - 1][j] as int, b[n - 1][j] as int),
                fx_sub_spec(a[n - 1][j] as int, b[n - 1][j] as int),
            ),
        )
    }
}

/// Per-dimension mean squared error: for each output dimension, the mean
/// over the examples of the squared difference in that dimension.
pub fn mse(a: Vec<Vec<i64>>, b: Vec<Vec<i64>>) -> (r: Vec<i64>)
    requires
        a@.len() > 0,
        b@.len() >= a@.len(),
        forall|i: int| 0 <= i < a@.len() ==> #[trigger] a@[i]@.len() == a@[0]@.len(),
        forall|i: int| 0 <= i < a@.len() ==> #[trigger] b@[i]@.len() >= a@[i]@.len(),
    ensures
        r@.len() == a@[0]@.len(),
        forall|j: int|
            0 <= j < a@[0]@.len() ==> #[trigger] r@[j] == fx_divn_spec(
                sq_col_sum(a.deep_view(), b.deep_view(), j, a@.len() as int),
                a@.len() as int,
            ) as i64,
{
    proof {
        lemma_rows_dv(a);
        lemma_rows_dv(b);
    }
    let mut rows: Vec<Vec<i64>> = Vec::new();
    let mut i: usize = 0;
    while i < a.len()
        invariant
            i <= a@.len(),
            b@.len() >= a@.len(),
            forall|t: int| 0 <= t < a@.len() ==> #[trigger] a@[t]@.len() == a@[0]@.len(),
            forall|t: int| 0 <= t < a@.len() ==> #[trigger] b@[t]@.len() >= a@[t]@.len(),
            rows@.len() == i,
            forall|t: int| 0 <= t < i ==> #[trigger] rows@[t]@.len() == a@[t]@.len(),
            forall|t: int, u: int|
                #![trigger rows@[t]@[u]]
                0 <= t < i && 0 <= u < a@[t]@.len() ==> rows@[t]@[u] == fx_mul_spec(
                    fx_sub_spec(a@[t]@[u] as int, b@[t]@[u] as int),
                    fx_sub_spec(a@[t]@[u] as int, b@[t]@[u] as int),
                ) as i64,
        decreases a@.len() - i,
    {
        rows.push(sqdf(&a[i], &b[i]));
        i += 1;
    }
    let s = sum(&rows);
    proof {
        lemma_rows_dv(rows);
        assert forall|j: int, n: int|
            0 <= j < a@[0]@.len() && 0 <= n <= a@.len() implies #[trigger] col_sum(
            rows.deep_view(),
            j,
            n,
        ) == sq_col_sum(a.deep_view(), b.deep_view(), j, n) by {
            assert forall|t: int| 0 <= t < n implies j < (#[trigger] rows.deep_view()[t]).len() by {
                assert(rows.deep_view()[t] == rows@[t]@);
                assert(rows@[t]@.len() == a@[t]@.len());
            }
            assert forall|t: int, u: int|
                #![trigger rows.deep_view()[t][u]]
                0 <= t < n && 0 <= u < rows.deep_view()[t].len() implies rows.deep_view()[t][u]
                == fx_mul_spec(
                fx_sub_spec(a.deep_view()[t][u] as int, b.deep_view()[t][u] as int),
                fx_sub_spec(a.deep_view()[t][u] as int, b.deep_view()[t][u] as int),
            ) as i64 by {
                assert(rows.deep_view()[t] == rows@[t]@);
                assert(a.deep_view()[t] == a@[t]@);
                assert(b.deep_view()[t] == b@[t]@);
                assert(rows@[t]@[u] == fx_mul_spec(
                    fx_sub_spec(a@[t]@[u] as int, b@[t]@[u] as int),
                    fx_sub_spec(a@[t]@[u] as int, b@[t]@[u] as int),
                ) as i64);
            }
            lemma_col_sum_sq(rows.deep_view(), a.deep_view(), b.deep_view(), j, n);
        }
    }
    let count = a.len();
    let mut r: Vec<i64> = Vec::new();
    let mut j: usize = 0;
    while j < s.len()
        invariant
            j <= s@.len(),
            s@.len() == a@[0]@.len(),
            count == a@.len(),
            count > 0,
            forall|t: int|
                0 <= t < s@.len() ==> #[trigger] s@[t] == sq_col_sum(
                    a.deep_view(),
                    b.deep_view(),
                    t,
                    a@.len() as int,
                ) as i64,
            r@.len() == j,
            forall|t: int|
                0 <= t < j ==> #[trigger] r@[t] == fx_divn_spec(
                    sq_col_sum(a.deep_view(), b.deep_view(), t, a@.len() as int),
                    a@.len() as int,
                ) as i64,
        decreases s@.len() - j,
    {
        r.push(fx_divn(s[j], count));
        j += 1;
    }
    r
}

proof fn lemma_col_sum_sq(
    rows: Seq<Seq<i64>>,
    a: Seq<Seq<i64>>,
    b: Seq<Seq<i64>>,
    j: int,
    n: int,
)
    requires
        n <= rows.len(),
        n <= a.len(),
        forall|t: int, u: int|
            #![trigger rows[t][u]]
            0 <= t < n && 0 <= u < rows[t].len() ==> rows[t][u] == fx_mul_spec(
                fx_sub_spec(a[t][u] as int, b[t][u] as int),
                fx_sub_spec(a[t][u] as int, b[t][u] as int),
            ) as i64,
        0 <= j,
        forall|t: int| 0 <= t < n ==> j < (#[trigger] rows[t]).len(),
    ensures
        col_sum(rows, j, n) == sq_col_sum(a, b, j, n),
    decreases n,
{
    if n > 0 {
        lemma_col_sum_sq(rows, a, b, j, n - 1);
        assert(j < rows[n - 1].len());
        assert(rows[n - 1][j] == fx_mul_spec(
            fx_sub_spec(a[n - 1][j] as int, b[n - 1][j] as int),
            fx_sub_spec(a[n - 1][j] as int, b[n - 1][j] as int),
        ) as i64);
    }
}

/// Adding one row to a prefix appends it to the flattened buffer.
pub proof fn lemma_rows_take(b: Seq<Seq<i64>>, t: int)
    requires
        0 <= t < b.len(),
    ensures
        rows_flat(b.take(t + 1)) == rows_flat(b.take(t)) + b[t],
{
    assert(b.take(t + 1).drop_last() =~= b.take(t));
    assert(b.take(t + 1).last() == b[t]);
}

/// A prefix never flattens to more entries than the whole.
pub proof fn lemma_rows_take_le(b: Seq<Seq<i64>>, m: int)
    requires
        0 <= m <= b.len(),
    ensures
        rows_flat(b.take(m)).len() <= rows_flat(b).len(),
    decreases b.len() - m,
{
    if m == b.len() {
        assert(b.take(m) =~= b);
    } else {
        lemma_rows_take(b, m);
        lemma_rows_take_le(b, m + 1);
    }
}

/// Row `t` sits at its prefix offset in the flattened buffer.
pub proof fn lemma_rows_slice(b: Seq<Seq<i64>>, t: int)
    requires
        0 <= t < b.len(),
    ensures
        rows_flat(b).subrange(
            rows_flat(b.take(t)).len() as int,
            (rows_flat(b.take(t)).len() + b[t].len()) as int,
        ) == b[t],
    decreases b.len(),
{
    lemma_rows_take(b, t);
    lemma_rows_take_le(b, t + 1);
    let a = rows_flat(b.take(t)).len() as int;
    let e = (rows_flat(b.take(t)).len() + b[t].len()) as int;
    if t == b.len() - 1 {
        assert(b.take(t) =~= b.drop_last());
        assert(rows_flat(b).subrange(a, e) =~= b[t]);
    } else {
        lemma_rows_slice(b.drop_last(), t);
        assert(b.drop_last().take(t) =~= b.take(t));
        assert(b.take(t + 1) =~= b.drop_last().take(t + 1));
        lemma_rows_take(b.drop_last(), t);
        lemma_rows_take_le(b.drop_last(), t + 1);
        assert(rows_flat(b).subrange(a, e) =~= rows_flat(b.drop_last()).subrange(a, e));
    }
}

/// Adding one layer to a prefix appends its rows to the flattened cube.
pub proof fn lemma_cube_take(w: Seq<Seq<Seq<i64>>>, t: int)
    requires
        0 <= t < w.len(),
    ensures
        cube_flat(w.take(t + 1)) == cube_flat(w.take(t)) + rows_flat(w[t]),
{
    assert(w.take(t + 1).drop_last() =~= w.take(t));
    assert(w.take(t + 1).last() == w[t]);
}

/// A prefix never flattens to more entries than the whole cube.
pub proof fn lemma_cube_take_le(w: Seq<Seq<Seq<i64>>>, m: int)
    requires
        0 <= m <= w.len(),
    ensures
        cube_flat(w.take(m)).len() <= cube_flat(w).len(),
    decreases w.len() - m,
{
    if m == w.len() {
        assert(w.take(m) =~= w);
    } else {
        lemma_cube_take(w, m);
        lemma_cube_take_le(w, m + 1);
    }
}

/// Layer `t`'s flattened rows sit at their prefix offset in the cube.
pub proof fn lemma_cube_slice(w: Seq<Seq<Seq<i64>>>, t: int)
    requires
        0 <= t < w.len(),
    ensures
        cube_flat(w).subrange(
            cube_flat(w.take(t)).len() as int,
            (cube_flat(w.take(t)).len() + rows_flat(w[t]).len()) as int,
        ) == rows_flat(w[t]),
    decreases w.len(),
{
    lemma_cube_take(w, t);
    lemma_cube_take_le(w, t + 1);
    let a = cube_flat(w.take(t)).len() as int;
    let e = (cube_flat(w.take(t)).len() + rows_flat(w[t]).len()) as int;
    if t == w.len() - 1 {
        assert(w.take(t) =~= w.drop_last());
        assert(cube_flat(w).subrange(a, e) =~= rows_flat(w[t]));
    } else {
        lemma_cube_slice(w.drop_last(), t);
        assert(w.drop_last().take(t) =~= w.take(t));
        assert(w.take(t + 1) =~= w.drop_last().take(t + 1));
        lemma_cube_take(w.drop_last(), t);
        lemma_cube_take_le(w.drop_last(), t + 1);
        assert(cube_flat(w).subrange(a, e) =~= cube_flat(w.drop_last()).subrange(a, e));
    }
}

/// Equally long rows flatten to their count times that length.
pub proof fn lemma_rows_len_const(b: Seq<Seq<i64>>, wdt: int)
    requires
        0 <= wdt,
        forall|t: int| 0 <= t < b.len() ==> (#[trigger] b[t]).len() == wdt,
    ensures
        rows_flat(b).len() == b.len() * wdt,
    decreases b.len(),
{
    if b.len() == 0 {
        assert(rows_flat(b).len() == 0 == b.len() * wdt) by (nonlinear_arith)
            requires
                b.len() == 0,
                rows_flat(b).len() == 0,
        ;
    } else {
        lemma_rows_len_const(b.drop_last(), wdt);
        assert((b.len() - 1) * wdt + wdt == b.len() * wdt) by (nonlinear_arith);
    }
}

/// A nested structure that matches a key flattens blockwise to the key's
/// partial sums.
pub proof fn lemma_key_off(
    ws: Seq<Seq<Seq<i64>>>,
    bs: Seq<Seq<i64>>,
    cl: Seq<usize>,
    t: int,
)
    requires
        0 <= t <= ws.len(),
        bs.len() == ws.len(),
        cl.len() == ws.len() + 1,
        forall|i: int|
            0 <= i < ws.len() ==> (#[trigger] ws[i]).len() == cl[i + 1] && bs[i].len() == cl[i
                + 1],
        forall|i: int, j: int|
            0 <= i < ws.len() && 0 <= j < ws[i].len() ==> (#[trigger] ws[i][j]).len() == cl[i],
    ensures
        cube_flat(ws.take(t)).len() == key_w_total(cl, t),
        rows_flat(bs.take(t)).len() == key_b_total(cl, t),
    decreases t,
{
    if t > 0 {
        lemma_key_off(ws, bs, cl, t - 1);
        lemma_rows_take(bs, t - 1);
        lemma_cube_take(ws, t - 1);
        lemma_rows_len_const(ws[t - 1], cl[t - 1] as int);
        assert(cl[t] * cl[t - 1] == ws[t - 1].len() * cl[t - 1]);
    }
}

/// Shape round trip: cutting the flat buffer of a nested structure along
/// its own key's boundaries returns exactly the structure's blocks, so
/// `unflatten` after `flatten` rebuilds the structure unchanged.
pub proof fn lemma_shape_round_trip(ws: Seq<Seq<Seq<i64>>>, bs: Seq<Seq<i64>>, cl: Seq<usize>)
    requires
        bs.len() == ws.len(),
        cl.len() == ws.len() + 1,
        forall|i: int|
            0 <= i < ws.len() ==> (#[trigger] ws[i]).len() == cl[i + 1] && bs[i].len() == cl[i
                + 1],
        forall|i: int, j: int|
            0 <= i < ws.len() && 0 <= j < ws[i].len() ==> (#[trigger] ws[i][j]).len() == cl[i],
    ensures
        wb_ribbon(ws, bs).len() == key_w_total(cl, ws.len() as int) + key_b_total(
            cl,
            ws.len() as int,
        ),
        forall|t: int|
            0 <= t < ws.len() ==> #[trigger] wb_ribbon(ws, bs).subrange(
                key_w_total(cl, ws.len() as int) + key_b_total(cl, t),
                key_w_total(cl, ws.len() as int) + key_b_total(cl, t) + cl[t + 1],
            ) == bs[t],
        forall|t: int, j: int|
            #![trigger ws[t][j]]
            0 <= t < ws.len() && 0 <= j < cl[t + 1] ==> wb_ribbon(ws, bs).subrange(
                key_w_total(cl, t) + j * cl[t],
                key_w_total(cl, t) + j * cl[t] + cl[t],
            ) == ws[t][j],
{
    let lc = ws.len() as int;
    lemma_key_off(ws, bs, cl, lc);
    assert(ws.take(lc) =~= ws);
    assert(bs.take(lc) =~= bs);
    assert forall|t: int|
        0 <= t < ws.len() implies #[trigger] wb_ribbon(ws, bs).subrange(
        key_w_total(cl, lc) + key_b_total(cl, t),
        key_w_total(cl, lc) + key_b_total(cl, t) + cl[t + 1],
    ) == bs[t] by {
        lemma_key_off(ws, bs, cl, t);
        lemma_key_off(ws, bs, cl, t + 1);
        lemma_rows_take(bs, t);
        lemma_rows_take_le(bs, t + 1);
        lemma_rows_slice(bs, t);
        assert(wb_ribbon(ws, bs).subrange(
            key_w_total(cl, lc) + key_b_total(cl, t),
            key_w_total(cl, lc) + key_b_total(cl, t) + cl[t + 1],
        ) =~= rows_flat(bs).subrange(
            key_b_total(cl, t),
            key_b_total(cl, t) + cl[t + 1],
        ));
    }
    assert forall|t: int, j: int|
        #![trigger ws[t][j]]
        0 <= t < ws.len() && 0 <= j < cl[t + 1] implies wb_ribbon(ws, bs).subrange(
        key_w_total(cl, t) + j * cl[t],
        key_w_total(cl, t) + j * cl[t] + cl[t],
    ) == ws[t][j] by {
        lemma_key_off(ws, bs, cl, t);
        lemma_key_off(ws, bs, cl, t + 1);
        lemma_key_w_mono(cl, t + 1, lc);
        lemma_cube_slice(ws, t);
        lemma_rows_len_const(ws[t], cl[t] as int);
        assert forall|i: int| 0 <= i < j implies (#[trigger] ws[t].take(j)[i]).len()
            == cl[t] by {
            assert(ws[t].take(j)[i] == ws[t][i]);
        }
        lemma_rows_len_const(ws[t].take(j), cl[t] as int);
        lemma_rows_slice(ws[t], j);
        lemma_rows_take_le(ws[t], j + 1);
        assert(j * cl[t] + cl[t] <= cl[t + 1] * cl[t]) by (nonlinear_arith)
            requires
                0 <= j < cl[t + 1],
                0 <= cl[t],
        ;
        assert(0 <= j * cl[t]) by (nonlinear_arith)
            requires
                0 <= j,
                0 <= cl[t],
        ;
        let a = key_w_total(cl, t) + j * cl[t];
        let e = key_w_total(cl, t) + j * cl[t] + cl[t];
        assert(wb_ribbon(ws, bs).subrange(a, e) =~= cube_flat(ws).subrange(a, e));
        assert(cube_flat(ws).subrange(a, e) =~= rows_flat(ws[t]).subrange(
            j * cl[t],
            j * cl[t] + cl[t],
        ));
    }
}

pub(crate) proof fn lemma_cube_dv(v: Vec<Vec<Vec<i64>>>)
    ensures
        v.deep_view().len() == v@.len(),
        forall|t: int| 0 <= t < v@.len() ==> #[trigger] v.deep_view()[t].len() == v@[t]@.len(),
        forall|t: int, j: int|
            0 <= t < v@.len() && 0 <= j < v@[t]@.len() ==> #[trigger] v.deep_view()[t][j]
                == v@[t]@[j]@,
{
    assert forall|t: int| 0 <= t < v@.len() implies #[trigger] v.deep_view()[t].len()
        == v@[t]@.len() by {
        assert(v.deep_view()[t] == v@[t].deep_view());
    }
    assert forall|t: int, j: int|
        0 <= t < v@.len() && 0 <= j < v@[t]@.len() implies #[trigger] v.deep_view()[t][j]
        == v@[t]@[j]@ by {
        assert(v.deep_view()[t] == v@[t].deep_view());
        assert(v@[t].deep_view()[j] == v@[t]@[j].deep_view());
        assert(v@[t]@[j].deep_view() =~= v@[t]@[j]@);
    }
}

} // verus!
