//! Cost functions over batches of predictions and targets.
//!
//! Two scalar forms are supported, behind the closed `CostFn` dispatch:
//! `mse` squares each example's mean squared error before averaging over
//! examples; `mean_sq` averages the per-example mean squared errors
//! directly.

use vstd::prelude::*;
use vstd::string::StringSliceAdditionalSpecFns;
use crate::fx::{fx_add, fx_mul, fx_sub, fx_divn, fx_add_spec, fx_mul_spec, fx_sub_spec,
    fx_divn_spec};

verus! {

/// The shape a batch must have for a cost function to be defined: at least
/// one example, every prediction vector non-empty, and a target entry for
/// every prediction entry.
pub open spec fn batch_ok(a: Seq<Seq<i64>>, b: Seq<Seq<i64>>) -> bool {
    &&& a.len() > 0
    &&& b.len() >= a.len()
    &&& forall|i: int| 0 <= i < a.len() ==> #[trigger] a[i].len() > 0 && b[i].len() >= a[i].len()
}

/// Clipped sum of squared differences of the first `n` entries.
pub open spec fn sq_diff_sum(c: Seq<i64>, d: Seq<i64>, n: int) -> int
    decreases n,
{
    if n <= 0 {
        0
    } else {
        fx_add_spec(
            sq_diff_sum(c, d, n - 1),
            fx_mul_spec(
                fx_sub_spec(c[n - 1] as int, d[n - 1] as int),
                fx_sub_spec(c[n - 1] as int, d[n - 1] as int),
            ),
        )
    }
}

/// One example's mean squared error over its dimensions.
pub open spec fn mean_sq_err(c: Seq<i64>, d: Seq<i64>) -> int
    recommends
        c.len() > 0,
{
    fx_divn_spec(sq_diff_sum(c, d, c.len() as int), c.len() as int)
}

/// Clipped sum over the first `n` examples of the squared per-example mean
/// squared error.
pub open spec fn mse_acc(a: Seq<Seq<i64>>, b: Seq<Seq<i64>>, n: int) -> int
    decreases n,
{
    if n <= 0 {
        0
    } else {
        fx_add_spec(
            mse_acc(a, b, n - 1),
            fx_mul_spec(mean_sq_err(a[n - 1], b[n - 1]), mean_sq_err(a[n - 1], b[n - 1])),
        )
    }
}

/// Squared per-example mean squared error, averaged over the examples.
pub open spec fn mse_spec(a: Seq<Seq<i64>>, b: Seq<Seq<i64>>) -> int
    recommends
        batch_ok(a, b),
{
    fx_divn_spec(mse_acc(a, b, a.len() as int), a.len() as int)
}

/// Clipped sum over the first `n` examples of the per-example mean squared
/// error.
pub open spec fn ms_acc(a: Seq<Seq<i64>>, b: Seq<Seq<i64>>, n: int) -> int
    decreases n,
{
    if n <= 0 {
        0
    } else {
        fx_add_spec(ms_acc(a, b, n - 1), mean_sq_err(a[n - 1], b[n - 1]))
    }
}

/// Per-example mean squared error, averaged over the examples.
pub open spec fn mean_sq_spec(a: Seq<Seq<i64>>, b: Seq<Seq<i64>>) -> int
    recommends
        batch_ok(a, b),
{
    fx_divn_spec(ms_acc(a, b, a.len() as int), a.len() as int)
}

/// The closed set of cost functions a network can be given.
#[derive(Clone, Copy, PartialEq, Eq, Structural, Debug)]
pub enum CostFn {
    Mse,
    MeanSq,
}

/// What a cost function returns on a batch.
pub open spec fn cost_spec(c: CostFn, a: Seq<Seq<i64>>, b: Seq<Seq<i64>>) -> int
    recommends
        batch_ok(a, b),
{
    match c {
        CostFn::Mse => mse_spec(a, b),
        CostFn::MeanSq => mean_sq_spec(a, b),
    }
}

pub(crate) proof fn lemma_rows_dv(v: Vec<Vec<i64>>)
    ensures
        v.deep_view().len() == v@.len(),
        forall|i: int| 0 <= i < v@.len() ==> #[trigger] v.deep_view()[i] == v@[i]@,
{
    assert forall|i: int| 0 <= i < v@.len() implies #[trigger] v.deep_view()[i] == v@[i]@ by {
        assert(v@[i].deep_view() =~= v@[i]@);
    }
}

fn mean_sq_err_ex(c: &Vec<i64>, d: &Vec<i64>) -> (r: i64)
    requires
        c@.len() > 0,
        d@.len() >= c@.len(),
    ensures
        r as int == mean_sq_err(c@, d@),
{
    let mut acc: i64 = 0;
    let mut i: usize = 0;
    while i < c.len()
        invariant
            i <= c@.len(),
            d@.len() >= c@.len(),
            acc as int == sq_diff_sum(c@, d@, i as int),
        decreases c@.len() - i,
    {
        let e = fx_sub(c[i], d[i]);
        acc = fx_add(acc, fx_mul(e, e));
        i += 1;
    }
    fx_divn(acc, c.len())
}

/// Mean over the examples of the square of each example's mean squared
/// error.
pub fn mse(a: Vec<Vec<i64>>, b: Vec<Vec<i64>>) -> (r: i64)
    requires
        batch_ok(a.deep_view(), b.deep_view()),
    ensures
        r as int == mse_spec(a.deep_view(), b.deep_view()),
{
    proof {
        lemma_rows_dv(a);
        lemma_rows_dv(b);
    }
    let mut acc: i64 = 0;
    let mut i: usize = 0;
    while i < a.len()
        invariant
            i <= a@.len(),
            batch_ok(a.deep_view(), b.deep_view()),
            a.deep_view().len() == a@.len(),
            forall|j: int| 0 <= j < a@.len() ==> #[trigger] a.deep_view()[j] == a@[j]@,
            forall|j: int| 0 <= j < b@.len() ==> #[trigger] b.deep_view()[j] == b@[j]@,
            b.deep_view().len() == b@.len(),
            acc as int == mse_acc(a.deep_view(), b.deep_view(), i as int),
        decreases a@.len() - i,
    {
        proof {
            assert(a.deep_view()[i as int].len() > 0 && b.deep_view()[i as int].len()
                >= a.deep_view()[i as int].len());
        }
        let e = mean_sq_err_ex(&a[i], &b[i]);
        acc = fx_add(acc, fx_mul(e, e));
        i += 1;
    }
    fx_divn(acc, a.len())
}

/// Mean over the examples of each example's mean squared error.
pub fn mean_sq(a: Vec<Vec<i64>>, b: Vec<Vec<i64>>) -> (r: i64)
    requires
        batch_ok(a.deep_view(), b.deep_view()),
    ensures
        r as int == mean_sq_spec(a.deep_view(), b.deep_view()),
{
    proof {
        lemma_rows_dv(a);
        lemma_rows_dv(b);
    }
    let mut acc: i64 = 0;
    let mut i: usize = 0;
    while i < a.len()
        invariant
            i <= a@.len(),
            batch_ok(a.deep_view(), b.deep_view()),
            a.deep_view().len() == a@.len(),
            forall|j: int| 0 <= j < a@.len() ==> #[trigger] a.deep_view()[j] == a@[j]@,
            forall|j: int| 0 <= j < b@.len() ==> #[trigger] b.deep_view()[j] == b@[j]@,
            b.deep_view().len() == b@.len(),
            acc as int == ms_acc(a.deep_view(), b.deep_view(), i as int),
        decreases a@.len() - i,
    {
        proof {
            assert(a.deep_view()[i as int].len() > 0 && b.deep_view()[i as int].len()
                >= a.deep_view()[i as int].len());
        }
        let e = mean_sq_err_ex(&a[i], &b[i]);
        acc = fx_add(acc, e);
        i += 1;
    }
    fx_divn(acc, a.len())
}

impl CostFn {
    /// Applies the selected cost function to a batch.
    pub fn apply(&self, a: Vec<Vec<i64>>, b: Vec<Vec<i64>>) -> (r: i64)
        requires
            batch_ok(a.deep_view(), b.deep_view()),
        ensures
            r as int == cost_spec(*self, a.deep_view(), b.deep_view()),
    {
        match self {
            CostFn::Mse => mse(a, b),
            CostFn::MeanSq => mean_sq(a, b),
        }
    }
}

/// The cost function a configuration token names, if it is supported.
pub open spec fn cost_from_name_spec(bs: Seq<u8>) -> Option<CostFn> {
    if bs == "mse".spec_bytes() {
        Some(CostFn::Mse)
    } else if bs == "mean_sq".spec_bytes() {
        Some(CostFn::MeanSq)
    } else {
        None
    }
}

/// Looks a cost function up by its configuration token; an unsupported
/// token is rejected rather than defaulted.
pub fn cost_from_name(name: &str) -> (r: Option<CostFn>)
    ensures
        r == cost_from_name_spec(name.spec_bytes()),
{
    if crate::node::bytes_match(name.as_bytes(), "mse".as_bytes()) {
        Some(CostFn::Mse)
    } else if crate::node::bytes_match(name.as_bytes(), "mean_sq".as_bytes()) {
        Some(CostFn::MeanSq)
    } else {
        None
    }
}

} // verus!
