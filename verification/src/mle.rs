//! Multilinear extensions, represented by their evaluations over the
//! boolean hypercube.
//!
//! An [`Mle`] over `n` variables stores the `2^n` values the polynomial
//! takes on `{0,1}^n`; variable `0` is the most significant bit of the
//! index. Evaluating at an arbitrary field point fixes one variable at a
//! time: fixing variable `0` to `x` replaces the table `v` by
//! `(1-x)*v[i] + x*v[i + len/2]`, halving it, which is the defining
//! recurrence of multilinear interpolation.

use vstd::prelude::*;

use vstd::arithmetic::power2::pow2;

use crate::errors::GkrError;
use crate::field::{fadd, fmul, fsub, fe_vals, fe_wf, fes_bytes, fes_to_bytes, fes_wf, Fe};

verus! {

/// One interpolation step: the table after fixing variable `0` to `x`.
pub open spec fn fold_once(v: Seq<int>, x: int) -> Seq<int> {
    Seq::new((v.len() / 2) as nat, |i: int| fadd(fmul(fsub(1, x), v[i]), fmul(x, v[i + v.len() / 2])))
}

/// The table after fixing the leading variables to `p`, one at a time.
pub open spec fn fold_all(v: Seq<int>, p: Seq<int>) -> Seq<int>
    decreases p.len(),
{
    if p.len() == 0 {
        v
    } else {
        fold_all(fold_once(v, p[0]), p.drop_first())
    }
}

/// The multilinear extension of the table `v` evaluated at point `p`
/// (meaningful when `v.len() == pow2(p.len())`).
pub open spec fn eval_mle(v: Seq<int>, p: Seq<int>) -> int {
    if fold_all(v, p).len() >= 1 {
        fold_all(v, p)[0]
    } else {
        0
    }
}

/// The table of `f(b) + g(c)` over the joint index `(b, c)`.
pub open spec fn add_distinct_seq(a: Seq<int>, b: Seq<int>) -> Seq<int> {
    Seq::new(a.len() * b.len(), |k: int| fadd(a[k / (b.len() as int)], b[k % (b.len() as int)]))
}

/// The table of `f(b) * g(c)` over the joint index `(b, c)`.
pub open spec fn mul_distinct_seq(a: Seq<int>, b: Seq<int>) -> Seq<int> {
    Seq::new(a.len() * b.len(), |k: int| fmul(a[k / (b.len() as int)], b[k % (b.len() as int)]))
}

/// The entrywise linear combination `alpha*x + beta*y` of two tables.
pub open spec fn scaled_sum_seq(alpha: int, x: Seq<int>, beta: int, y: Seq<int>) -> Seq<int> {
    Seq::new(x.len(), |i: int| fadd(fmul(alpha, x[i]), fmul(beta, y[i])))
}

/// A multilinear polynomial over `{0,1}^n_vars`, stored as its `2^n_vars`
/// evaluations on the hypercube.
pub struct Mle {
    pub n_vars: usize,
    pub vals: Vec<Fe>,
}

impl View for Mle {
    type V = Seq<int>;

    open spec fn view(&self) -> Seq<int> {
        fe_vals(self.vals@)
    }
}

/// An MLE is well formed when its table has exactly `2^n_vars` reduced
/// entries.
pub open spec fn mle_wf(m: Mle) -> bool {
    &&& m.vals@.len() == pow2(m.n_vars as nat)
    &&& fes_wf(m.vals@)
}

impl Mle {
    /// Wraps a full evaluation table as an MLE.
    pub fn new(n_vars: usize, vals: Vec<Fe>) -> (r: Mle)
        requires
            vals@.len() == pow2(n_vars as nat),
            fes_wf(vals@),
        ensures
            mle_wf(r),
            r.n_vars == n_vars,
            r@ == fe_vals(vals@),
    {
        Mle { n_vars, vals }
    }

    /// The number of variables.
    pub fn num_vars(&self) -> (r: usize)
        ensures
            r == self.n_vars,
    {
        self.n_vars
    }

    /// The canonical byte encoding of the table, for transcript binding.
    pub fn to_bytes(&self) -> (r: Vec<u8>)
        ensures
            r@ == fes_bytes(self@),
    {
        fes_to_bytes(&self.vals)
    }

    /// Fixes variable `0` to `x`, halving the table.
    pub fn fold_var(&self, x: Fe) -> (r: Mle)
        requires
            mle_wf(*self),
            self.n_vars >= 1,
            fe_wf(x),
        ensures
            mle_wf(r),
            r.n_vars == self.n_vars - 1,
            r@ == fold_once(self@, x.val()),
    {
        proof {
            vstd::arithmetic::power2::lemma_pow2_unfold(self.n_vars as nat);
        }
        let half = self.vals.len() / 2;
        let one = Fe::one();
        let mut out: Vec<Fe> = Vec::new();
        let mut i: usize = 0;
        while i < half
            invariant
                i <= half,
                half == self.vals@.len() / 2,
                self.vals@.len() == 2 * half,
                self.vals@.len() <= usize::MAX,
                fes_wf(self.vals@),
                fe_wf(x),
                fe_wf(one),
                one.val() == 1,
                out@.len() == i,
                fes_wf(out@),
                forall|j: int| 0 <= j < i ==> fe_vals(out@)[j] == fold_once(self@, x.val())[j],
            decreases half - i,
        {
            let ghost pre = fe_vals(out@);
            let t = one.sub(x).mul(self.vals[i]).add(x.mul(self.vals[i + half]));
            out.push(t);
            proof {
                assert(fe_vals(out@) =~= pre.push(t.val()));
            }
            i += 1;
        }
        proof {
            assert(fe_vals(out@) =~= fold_once(self@, x.val()));
        }
        Mle { n_vars: self.n_vars - 1, vals: out }
    }

    /// Fixes the leading `p.len()` variables to `p`, one at a time.
    pub fn fold_prefix(&self, p: &Vec<Fe>) -> (r: Mle)
        requires
            mle_wf(*self),
            fes_wf(p@),
            p@.len() <= self.n_vars,
        ensures
            mle_wf(r),
            r.n_vars == self.n_vars - p@.len(),
            r@ == fold_all(self@, fe_vals(p@)),
    {
        let ghost pv = fe_vals(p@);
        let mut cur = Mle { n_vars: self.n_vars, vals: clone_fes(&self.vals) };
        let mut k: usize = 0;
        proof {
            assert(pv.skip(0) =~= pv);
        }
        while k < p.len()
            invariant
                k <= p@.len(),
                p@.len() <= self.n_vars,
                fes_wf(p@),
                pv == fe_vals(p@),
                mle_wf(cur),
                cur.n_vars == self.n_vars - k,
                fold_all(self@, pv) == fold_all(cur@, pv.skip(k as int)),
            decreases p@.len() - k,
        {
            cur = cur.fold_var(p[k]);
            proof {
                assert(pv.skip(k as int)[0] == pv[k as int]);
                assert(pv.skip(k as int).drop_first() =~= pv.skip(k + 1));
            }
            k += 1;
        }
        proof {
            assert(fold_all(cur@, pv.skip(p@.len() as int)) == cur@);
        }
        cur
    }

    /// Evaluates the multilinear extension at `p`; the point must have one
    /// coordinate per variable.
    pub fn eval(&self, p: &Vec<Fe>) -> (r: Fe)
        requires
            mle_wf(*self),
            fes_wf(p@),
            p@.len() == self.n_vars,
        ensures
            fe_wf(r),
            r.val() == eval_mle(self@, fe_vals(p@)),
    {
        let folded = self.fold_prefix(p);
        proof {
            vstd::arithmetic::power2::lemma2_to64();
        }
        folded.vals[0]
    }

    /// Evaluates the multilinear extension, rejecting a point of the wrong
    /// arity instead of requiring it away.
    pub fn evaluate(&self, p: &Vec<Fe>) -> (r: Result<Fe, GkrError>)
        requires
            mle_wf(*self),
            fes_wf(p@),
        ensures
            p@.len() == self.n_vars ==> r == Ok::<Fe, GkrError>(
                Fe { v: eval_mle(self@, fe_vals(p@)) as u64 },
            ),
            p@.len() != self.n_vars ==> r == Err::<Fe, GkrError>(GkrError::EvaluationArity),
            r is Ok ==> fe_wf(r->Ok_0),
    {
        if p.len() != self.n_vars {
            return Err(GkrError::EvaluationArity);
        }
        let v = self.eval(p);
        proof {
            assert(v == (Fe { v: eval_mle(self@, fe_vals(p@)) as u64 }));
        }
        Ok(v)
    }

    /// The table of `self(b) + other(c)` over disjoint variable sets: an MLE
    /// over twice as many variables.
    pub fn add_distinct(&self, other: &Mle) -> (r: Mle)
        requires
            mle_wf(*self),
            mle_wf(*other),
            self.n_vars == other.n_vars,
            self.vals@.len() * other.vals@.len() <= usize::MAX,
        ensures
            mle_wf(r),
            r.n_vars == self.n_vars + other.n_vars,
            r@ == add_distinct_seq(self@, other@),
    {
        proof {
            vstd::arithmetic::power2::lemma_pow2_pos(other.n_vars as nat);
            vstd::arithmetic::power2::lemma_pow2_adds(self.n_vars as nat, other.n_vars as nat);
            lemma_pow2_above((self.n_vars + other.n_vars) as nat);
        }
        let out = distinct_table(&self.vals, &other.vals, false);
        proof {
            assert(fe_vals(out@).len() == out@.len());
            assert(fe_vals(out@) == add_distinct_seq(fe_vals(self.vals@), fe_vals(other.vals@)));
            assert(add_distinct_seq(fe_vals(self.vals@), fe_vals(other.vals@)).len()
                == self.vals@.len() * other.vals@.len());
            assert(pow2(self.n_vars as nat) * pow2(other.n_vars as nat) == pow2(
                (self.n_vars + other.n_vars) as nat,
            ));
        }
        Mle { n_vars: self.n_vars + other.n_vars, vals: out }
    }

    /// The table of `self(b) * other(c)` over disjoint variable sets.
    pub fn mul_distinct(&self, other: &Mle) -> (r: Mle)
        requires
            mle_wf(*self),
            mle_wf(*other),
            self.n_vars == other.n_vars,
            self.vals@.len() * other.vals@.len() <= usize::MAX,
        ensures
            mle_wf(r),
            r.n_vars == self.n_vars + other.n_vars,
            r@ == mul_distinct_seq(self@, other@),
    {
        proof {
            vstd::arithmetic::power2::lemma_pow2_pos(other.n_vars as nat);
            vstd::arithmetic::power2::lemma_pow2_adds(self.n_vars as nat, other.n_vars as nat);
            lemma_pow2_above((self.n_vars + other.n_vars) as nat);
        }
        let out = distinct_table(&self.vals, &other.vals, true);
        proof {
            assert(fe_vals(out@).len() == out@.len());
            assert(fe_vals(out@) == mul_distinct_seq(fe_vals(self.vals@), fe_vals(other.vals@)));
            assert(mul_distinct_seq(fe_vals(self.vals@), fe_vals(other.vals@)).len()
                == self.vals@.len() * other.vals@.len());
            assert(pow2(self.n_vars as nat) * pow2(other.n_vars as nat) == pow2(
                (self.n_vars + other.n_vars) as nat,
            ));
        }
        Mle { n_vars: self.n_vars + other.n_vars, vals: out }
    }

    /// The entrywise linear combination `alpha*self + beta*other` of two
    /// same-shape MLEs.
    pub fn scaled_sum(&self, alpha: Fe, beta: Fe, other: &Mle) -> (r: Mle)
        requires
            mle_wf(*self),
            mle_wf(*other),
            self.n_vars == other.n_vars,
            fe_wf(alpha),
            fe_wf(beta),
        ensures
            mle_wf(r),
            r.n_vars == self.n_vars,
            r@ == scaled_sum_seq(alpha.val(), self@, beta.val(), other@),
    {
        let mut out: Vec<Fe> = Vec::new();
        let mut i: usize = 0;
        while i < self.vals.len()
            invariant
                i <= self.vals@.len(),
                self.vals@.len() == other.vals@.len(),
                fes_wf(self.vals@),
                fes_wf(other.vals@),
                fe_wf(alpha),
                fe_wf(beta),
                out@.len() == i,
                fes_wf(out@),
                forall|j: int| 0 <= j < i ==> fe_vals(out@)[j] == scaled_sum_seq(
                    alpha.val(),
                    self@,
                    beta.val(),
                    other@,
                )[j],
            decreases self.vals@.len() - i,
        {
            let ghost pre = fe_vals(out@);
            let t = alpha.mul(self.vals[i]).add(beta.mul(other.vals[i]));
            out.push(t);
            proof {
                assert(fe_vals(out@) =~= pre.push(t.val()));
            }
            i += 1;
        }
        proof {
            assert(fe_vals(out@) =~= scaled_sum_seq(alpha.val(), self@, beta.val(), other@));
        }
        Mle { n_vars: self.n_vars, vals: out }
    }
}

/// A plain copy of a vector of field elements.
pub fn clone_fes(v: &Vec<Fe>) -> (r: Vec<Fe>)
    ensures
        r@ == v@,
{
    let mut r: Vec<Fe> = Vec::new();
    let mut i: usize = 0;
    while i < v.len()
        invariant
            i <= v@.len(),
            r@ == v@.take(i as int),
        decreases v@.len() - i,
    {
        r.push(v[i]);
        proof {
            assert(v@.take(i + 1) =~= v@.take(i as int).push(v@[i as int]));
        }
        i += 1;
    }
    proof {
        assert(v@.take(v@.len() as int) =~= v@);
    }
    r
}

/// The flat table of `a[i] OP b[j]` at index `i * b.len() + j`.
fn distinct_table(a: &Vec<Fe>, b: &Vec<Fe>, is_mul: bool) -> (r: Vec<Fe>)
    requires
        fes_wf(a@),
        fes_wf(b@),
        b@.len() >= 1,
        a@.len() * b@.len() <= usize::MAX,
    ensures
        fes_wf(r@),
        is_mul ==> fe_vals(r@) == mul_distinct_seq(fe_vals(a@), fe_vals(b@)),
        !is_mul ==> fe_vals(r@) == add_distinct_seq(fe_vals(a@), fe_vals(b@)),
{
    let ghost av = fe_vals(a@);
    let ghost bv = fe_vals(b@);
    let bl = b.len();
    let mut out: Vec<Fe> = Vec::new();
    let mut i: usize = 0;
    while i < a.len()
        invariant
            i <= a@.len(),
            bl == b@.len(),
            bl >= 1,
            a@.len() * bl <= usize::MAX,
            av == fe_vals(a@),
            bv == fe_vals(b@),
            fes_wf(a@),
            fes_wf(b@),
            out@.len() == i * bl,
            fes_wf(out@),
            forall|k: int| 0 <= k < i * bl ==> fe_vals(out@)[k] == entry_at(av, bv, is_mul, k),
        decreases a@.len() - i,
    {
        proof {
            assert((i + 1) * bl <= a@.len() * bl) by (nonlinear_arith)
                requires
                    i < a@.len(),
                    bl >= 1,
            ;
            assert(i * bl + bl == (i + 1) * bl) by (nonlinear_arith);
        }
        let mut j: usize = 0;
        while j < bl
            invariant
                j <= bl,
                i < a@.len(),
                bl == b@.len(),
                bl >= 1,
                i * bl + bl <= usize::MAX,
                av == fe_vals(a@),
                bv == fe_vals(b@),
                fes_wf(a@),
                fes_wf(b@),
                out@.len() == i * bl + j,
                fes_wf(out@),
                forall|k: int| 0 <= k < i * bl + j ==> fe_vals(out@)[k] == entry_at(
                    av,
                    bv,
                    is_mul,
                    k,
                ),
            decreases bl - j,
        {
            let ghost pre = fe_vals(out@);
            let t = if is_mul {
                a[i].mul(b[j])
            } else {
                a[i].add(b[j])
            };
            out.push(t);
            proof {
                assert(fe_vals(out@) =~= pre.push(t.val()));
                let k = i * bl + j;
                vstd::arithmetic::div_mod::lemma_fundamental_div_mod_converse(
                    k as int,
                    bl as int,
                    i as int,
                    j as int,
                );
            }
            j += 1;
        }
        i += 1;
    }
    proof {
        if is_mul {
            assert(fe_vals(out@) =~= mul_distinct_seq(av, bv));
        } else {
            assert(fe_vals(out@) =~= add_distinct_seq(av, bv));
        }
    }
    out
}

/// A power of two strictly exceeds its exponent.
pub proof fn lemma_pow2_above(e: nat)
    ensures
        pow2(e) >= e + 1,
    decreases e,
{
    vstd::arithmetic::power2::lemma2_to64();
    if e > 0 {
        lemma_pow2_above((e - 1) as nat);
        vstd::arithmetic::power2::lemma_pow2_unfold(e);
    }
}

/// Entry `k` of the distinct-variable combination table.
pub open spec fn entry_at(a: Seq<int>, b: Seq<int>, is_mul: bool, k: int) -> int {
    if is_mul {
        fmul(a[k / (b.len() as int)], b[k % (b.len() as int)])
    } else {
        fadd(a[k / (b.len() as int)], b[k % (b.len() as int)])
    }
}

} // verus!
