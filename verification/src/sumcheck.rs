//! The sum-check engine: proves and checks that the sum of a composed
//! polynomial over the whole boolean hypercube equals a claimed value.
//!
//! The composed polynomial is a sum of terms, each the product of two
//! multilinear polynomials over the same variables, so every round
//! polynomial has degree at most two and is transmitted as its values at
//! 0, 1 and 2. Each round binds the round polynomial into the transcript
//! and draws the round's challenge from it; the verifier replays exactly
//! the same appends and draws.

use vstd::prelude::*;

use crate::errors::GkrError;
use crate::field::{fadd, fmul, fsub, fe_vals, fe_wf, fes_bytes, fes_to_bytes, fes_wf,
    lemma_fadd_assoc, lemma_reduced, vals_wf, Fe, FIELD_MODULUS, TWO_INV};
use crate::mle::{fold_once, mle_wf, Mle};
use crate::transcript::{sha256_of, squeeze_val, squeezed_state, Transcript};

verus! {

/// One term of the composed polynomial: the product of two multilinear
/// polynomials over the same variables.
pub struct ProductTerm {
    pub left: Mle,
    pub right: Mle,
}

/// A term is well formed when both factors are well-formed MLEs over
/// exactly `k` variables.
pub open spec fn term_wf(t: ProductTerm, k: nat) -> bool {
    &&& mle_wf(t.left)
    &&& mle_wf(t.right)
    &&& t.left.n_vars == k
    &&& t.right.n_vars == k
}

/// Every term is well formed over `k` variables.
pub open spec fn terms_wf(ts: Seq<ProductTerm>, k: nat) -> bool {
    forall|i: int| 0 <= i < ts.len() ==> term_wf(#[trigger] ts[i], k)
}

/// The evaluation tables of a sequence of terms.
pub open spec fn terms_view(ts: Seq<ProductTerm>) -> Seq<(Seq<int>, Seq<int>)> {
    ts.map_values(|t: ProductTerm| (t.left@, t.right@))
}

/// The sum of the entrywise products of two tables.
pub open spec fn dot_sum(f: Seq<int>, g: Seq<int>) -> int
    decreases f.len(),
{
    if f.len() == 0 {
        0
    } else {
        fadd(dot_sum(f.drop_last(), g.drop_last()), fmul(f.last(), g.last()))
    }
}

/// The sum, over the boolean hypercube, of a sum of products of tables.
pub open spec fn terms_sum(tv: Seq<(Seq<int>, Seq<int>)>) -> int
    decreases tv.len(),
{
    if tv.len() == 0 {
        0
    } else {
        fadd(terms_sum(tv.drop_last()), dot_sum(tv.last().0, tv.last().1))
    }
}

/// Every term's tables after fixing the current round variable to `x`.
pub open spec fn fold_terms(tv: Seq<(Seq<int>, Seq<int>)>, x: int) -> Seq<(Seq<int>, Seq<int>)> {
    tv.map_values(|t: (Seq<int>, Seq<int>)| (fold_once(t.0, x), fold_once(t.1, x)))
}

/// The current round polynomial evaluated at `t`: the hypercube sum of the
/// composed polynomial with the round variable fixed to `t`.
pub open spec fn round_eval(tv: Seq<(Seq<int>, Seq<int>)>, t: int) -> int {
    terms_sum(fold_terms(tv, t))
}

/// The byte encoding of one round polynomial, as bound into the transcript.
pub open spec fn round_bytes(g: (int, int, int)) -> Seq<u8> {
    fes_bytes(seq![g.0, g.1, g.2])
}

/// A round polynomial of degree at most two, by its values at 0, 1 and 2.
#[derive(Clone, Copy, Debug, PartialEq, Eq, Structural)]
pub struct RoundPoly {
    pub e0: Fe,
    pub e1: Fe,
    pub e2: Fe,
}

impl View for RoundPoly {
    type V = (int, int, int);

    open spec fn view(&self) -> (int, int, int) {
        (self.e0.val(), self.e1.val(), self.e2.val())
    }
}

/// A round polynomial is well formed when its three values are reduced.
pub open spec fn round_poly_wf(rp: RoundPoly) -> bool {
    fe_wf(rp.e0) && fe_wf(rp.e1) && fe_wf(rp.e2)
}

/// A sum-check sub-proof: one round polynomial per variable, in the order
/// the rounds were played.
#[derive(Clone, Debug, PartialEq, Eq)]
pub struct SumCheckProof {
    pub rounds: Vec<RoundPoly>,
}

impl View for SumCheckProof {
    type V = Seq<(int, int, int)>;

    open spec fn view(&self) -> Seq<(int, int, int)> {
        self.rounds@.map_values(|rp: RoundPoly| rp@)
    }
}

/// A proof is well formed when every round polynomial is.
pub open spec fn sum_check_proof_wf(p: SumCheckProof) -> bool {
    forall|i: int| 0 <= i < p.rounds@.len() ==> round_poly_wf(#[trigger] p.rounds@[i])
}

/// The flattening of a proof's round values into one sequence.
pub open spec fn rounds_flat(rv: Seq<(int, int, int)>) -> Seq<int> {
    Seq::new(3 * rv.len(), |i: int| if i % 3 == 0 {
        rv[i / 3].0
    } else if i % 3 == 1 {
        rv[i / 3].1
    } else {
        rv[i / 3].2
    })
}

/// The canonical byte encoding of a whole sum-check proof.
pub open spec fn sum_check_proof_bytes(rv: Seq<(int, int, int)>) -> Seq<u8> {
    fes_bytes(rounds_flat(rv))
}

/// The proof, challenges and transcript state an honest prover produces
/// from the given term tables over `k` variables.
pub open spec fn sum_check_prove_spec(tv: Seq<(Seq<int>, Seq<int>)>, k: nat, state: Seq<u8>) -> (
    Seq<(int, int, int)>,
    Seq<int>,
    Seq<u8>,
)
    decreases k,
{
    if k == 0 {
        (Seq::empty(), Seq::empty(), state)
    } else {
        let g = (round_eval(tv, 0), round_eval(tv, 1), round_eval(tv, 2));
        let s1 = state + round_bytes(g);
        let r = squeeze_val(sha256_of(s1));
        let rest = sum_check_prove_spec(fold_terms(tv, r), (k - 1) as nat, squeezed_state(s1));
        (seq![g] + rest.0, seq![r] + rest.1, rest.2)
    }
}

/// The degree-two polynomial through `(0, g.0), (1, g.1), (2, g.2)`
/// evaluated at `r`, by Lagrange interpolation.
pub open spec fn quad_eval(g: (int, int, int), r: int) -> int {
    fadd(
        fadd(
            fmul(fmul(fmul(g.0, fsub(r, 1)), fsub(r, 2)), TWO_INV as int),
            fmul(fmul(fmul(g.1, r), fsub(r, 2)), (FIELD_MODULUS - 1) as int),
        ),
        fmul(fmul(fmul(g.2, r), fsub(r, 1)), TWO_INV as int),
    )
}

/// The verifier's pass over a sub-proof: whether every round check holds,
/// the final oracle value, the challenges drawn, and the transcript state
/// after replaying every append.
pub open spec fn sum_check_verify_spec(rv: Seq<(int, int, int)>, claim: int, state: Seq<u8>) -> (
    bool,
    int,
    Seq<int>,
    Seq<u8>,
)
    decreases rv.len(),
{
    if rv.len() == 0 {
        (true, claim, Seq::empty(), state)
    } else {
        let g = rv[0];
        let s1 = state + round_bytes(g);
        let r = squeeze_val(sha256_of(s1));
        let rest = sum_check_verify_spec(rv.drop_first(), quad_eval(g, r), squeezed_state(s1));
        ((fadd(g.0, g.1) == claim) && rest.0, rest.1, seq![r] + rest.2, rest.3)
    }
}

/// Every term's tables have `pow2(k)` reduced entries.
pub open spec fn tables_wf(tv: Seq<(Seq<int>, Seq<int>)>, k: nat) -> bool {
    forall|i: int| 0 <= i < tv.len() ==> (#[trigger] tv[i]).0.len()
        == vstd::arithmetic::power2::pow2(k) && tv[i].1.len() == vstd::arithmetic::power2::pow2(k)
        && vals_wf(tv[i].0) && vals_wf(tv[i].1)
}

/// A hypercube sum is a reduced field value.
proof fn lemma_dot_range(f: Seq<int>, g: Seq<int>)
    ensures
        0 <= dot_sum(f, g) < FIELD_MODULUS,
    decreases f.len(),
{
    if f.len() == 0 {
    } else {
        lemma_dot_range(f.drop_last(), g.drop_last());
        vstd::arithmetic::div_mod::lemma_mod_bound(
            dot_sum(f.drop_last(), g.drop_last()) + fmul(f.last(), g.last()),
            FIELD_MODULUS as int,
        );
    }
}

/// Fixing the round variable to the boolean 0 or 1 picks out the matching
/// half of a reduced table.
proof fn lemma_fold_bool(v: Seq<int>)
    requires
        vals_wf(v),
        v.len() % 2 == 0,
    ensures
        fold_once(v, 0) == v.take(v.len() as int / 2),
        fold_once(v, 1) == v.skip(v.len() as int / 2),
{
    let h = v.len() as int / 2;
    assert forall|i: int| 0 <= i < h implies fold_once(v, 0)[i] == v.take(h)[i] by {
        lemma_reduced(1);
        lemma_reduced(0);
        lemma_reduced(v[i]);
        assert(fsub(1, 0) == 1);
        assert(fmul(1, v[i]) == v[i]);
        assert(fmul(0, v[i + h]) == 0) by {
            lemma_reduced(0);
        }
        assert(fadd(v[i], 0) == v[i]);
    }
    assert(fold_once(v, 0) =~= v.take(h));
    assert forall|i: int| 0 <= i < h implies fold_once(v, 1)[i] == v.skip(h)[i] by {
        lemma_reduced(v[i + h]);
        assert(fsub(1, 1) == 0) by {
            lemma_reduced(0);
        }
        assert(fmul(0, v[i]) == 0) by {
            lemma_reduced(0);
        }
        assert(fmul(1, v[i + h]) == v[i + h]) by {
            lemma_reduced(v[i + h]);
        }
        assert(fadd(0, v[i + h]) == v[i + h]) by {
            lemma_reduced(v[i + h]);
        }
    }
    assert(fold_once(v, 1) =~= v.skip(h));
}

/// A hypercube sum splits at any boundary into the sums of the two parts.
proof fn lemma_dot_split(f: Seq<int>, g: Seq<int>, h: int)
    requires
        f.len() == g.len(),
        0 <= h <= f.len(),
    ensures
        dot_sum(f, g) == fadd(dot_sum(f.take(h), g.take(h)), dot_sum(f.skip(h), g.skip(h))),
    decreases f.len(),
{
    if h == f.len() {
        assert(f.take(h) =~= f);
        assert(g.take(h) =~= g);
        assert(f.skip(h) =~= Seq::<int>::empty());
        assert(g.skip(h) =~= Seq::<int>::empty());
        lemma_dot_range(f, g);
        lemma_reduced(dot_sum(f, g));
    } else {
        lemma_dot_split(f.drop_last(), g.drop_last(), h);
        assert(f.drop_last().take(h) =~= f.take(h));
        assert(g.drop_last().take(h) =~= g.take(h));
        assert(f.drop_last().skip(h) =~= f.skip(h).drop_last());
        assert(g.drop_last().skip(h) =~= g.skip(h).drop_last());
        assert(f.skip(h).last() == f.last());
        assert(g.skip(h).last() == g.last());
        lemma_fadd_assoc(
            dot_sum(f.take(h), g.take(h)),
            dot_sum(f.skip(h).drop_last(), g.skip(h).drop_last()),
            fmul(f.last(), g.last()),
        );
    }
}

/// Four summands regroup across the two pairings.
proof fn lemma_fadd_shuffle(a: int, b: int, c: int, d: int)
    ensures
        fadd(fadd(a, b), fadd(c, d)) == fadd(fadd(a, c), fadd(b, d)),
{
    lemma_fadd_assoc(a, b, fadd(c, d));
    lemma_fadd_assoc(b, c, d);
    lemma_fadd_assoc(c, b, d);
    lemma_fadd_assoc(a, c, fadd(b, d));
}

/// The verifier's round check always passes on an honest round polynomial:
/// the composed polynomial's values at 0 and 1 for the round variable sum
/// to the whole table's hypercube sum. This is the consistency relation
/// `g(0) + g(1) == claim` that each sum-check round holds a sub-proof to,
/// shown for the polynomials an honest prover computes.
pub proof fn lemma_honest_round_check(tv: Seq<(Seq<int>, Seq<int>)>, k: nat)
    requires
        k >= 1,
        tables_wf(tv, k),
    ensures
        fadd(round_eval(tv, 0), round_eval(tv, 1)) == terms_sum(tv),
    decreases tv.len(),
{
    vstd::arithmetic::power2::lemma_pow2_unfold(k);
    vstd::arithmetic::power2::lemma_pow2_pos((k - 1) as nat);
    if tv.len() == 0 {
        assert(fold_terms(tv, 0) =~= Seq::<(Seq<int>, Seq<int>)>::empty());
        assert(fold_terms(tv, 1) =~= Seq::<(Seq<int>, Seq<int>)>::empty());
        lemma_reduced(0);
    } else {
        let rest = tv.drop_last();
        let t = tv.last();
        assert(tables_wf(rest, k)) by {
            assert(forall|i: int| 0 <= i < rest.len() ==> rest[i] == #[trigger] tv[i]);
        }
        lemma_honest_round_check(rest, k);
        let len = t.0.len() as int;
        let h = len / 2;
        assert(len == 2 * vstd::arithmetic::power2::pow2((k - 1) as nat));
        assert(len % 2 == 0) by {
            vstd::arithmetic::div_mod::lemma_fundamental_div_mod_converse(
                len,
                2,
                vstd::arithmetic::power2::pow2((k - 1) as nat) as int,
                0,
            );
        }
        assert(h == vstd::arithmetic::power2::pow2((k - 1) as nat)) by {
            vstd::arithmetic::div_mod::lemma_fundamental_div_mod_converse(
                len,
                2,
                vstd::arithmetic::power2::pow2((k - 1) as nat) as int,
                0,
            );
        }
        lemma_fold_bool(t.0);
        lemma_fold_bool(t.1);
        lemma_dot_split(t.0, t.1, h);
        assert(fold_terms(tv, 0).drop_last() =~= fold_terms(rest, 0));
        assert(fold_terms(tv, 1).drop_last() =~= fold_terms(rest, 1));
        assert(fold_terms(tv, 0).last() == (fold_once(t.0, 0), fold_once(t.1, 0)));
        assert(fold_terms(tv, 1).last() == (fold_once(t.0, 1), fold_once(t.1, 1)));
        lemma_fadd_shuffle(
            terms_sum(fold_terms(rest, 0)),
            dot_sum(fold_once(t.0, 0), fold_once(t.1, 0)),
            terms_sum(fold_terms(rest, 1)),
            dot_sum(fold_once(t.0, 1), fold_once(t.1, 1)),
        );
    }
}

/// The sum of the entrywise products of two same-length tables.
fn dot_fes(a: &Vec<Fe>, b: &Vec<Fe>) -> (r: Fe)
    requires
        fes_wf(a@),
        fes_wf(b@),
        a@.len() == b@.len(),
    ensures
        fe_wf(r),
        r.val() == dot_sum(fe_vals(a@), fe_vals(b@)),
{
    let mut acc = Fe::zero();
    let mut i: usize = 0;
    while i < a.len()
        invariant
            i <= a@.len(),
            a@.len() == b@.len(),
            fes_wf(a@),
            fes_wf(b@),
            fe_wf(acc),
            acc.val() == dot_sum(fe_vals(a@).take(i as int), fe_vals(b@).take(i as int)),
        decreases a@.len() - i,
    {
        acc = acc.add(a[i].mul(b[i]));
        proof {
            assert(fe_vals(a@).take(i + 1).drop_last() =~= fe_vals(a@).take(i as int));
            assert(fe_vals(b@).take(i + 1).drop_last() =~= fe_vals(b@).take(i as int));
        }
        i += 1;
    }
    proof {
        assert(fe_vals(a@).take(a@.len() as int) =~= fe_vals(a@));
        assert(fe_vals(b@).take(b@.len() as int) =~= fe_vals(b@));
    }
    acc
}

/// The current round polynomial evaluated at `t`: folds every term's
/// tables at `t` and sums the remaining hypercube.
fn round_eval_exec(ts: &Vec<ProductTerm>, t: Fe, k: usize) -> (r: Fe)
    requires
        terms_wf(ts@, k as nat),
        k >= 1,
        fe_wf(t),
    ensures
        fe_wf(r),
        r.val() == round_eval(terms_view(ts@), t.val()),
{
    let ghost tv = terms_view(ts@);
    let mut acc = Fe::zero();
    let mut i: usize = 0;
    while i < ts.len()
        invariant
            i <= ts@.len(),
            tv == terms_view(ts@),
            terms_wf(ts@, k as nat),
            k >= 1,
            fe_wf(t),
            fe_wf(acc),
            acc.val() == terms_sum(fold_terms(tv, t.val()).take(i as int)),
        decreases ts@.len() - i,
    {
        let fl = ts[i].left.fold_var(t);
        let fr = ts[i].right.fold_var(t);
        let d = dot_fes(&fl.vals, &fr.vals);
        acc = acc.add(d);
        proof {
            assert(fold_terms(tv, t.val()).take(i + 1).drop_last() =~= fold_terms(
                tv,
                t.val(),
            ).take(i as int));
        }
        i += 1;
    }
    proof {
        assert(fold_terms(tv, t.val()).take(ts@.len() as int) =~= fold_terms(tv, t.val()));
    }
    acc
}

/// Every term with the current round variable fixed to `x`.
fn fold_terms_exec(ts: &Vec<ProductTerm>, x: Fe, k: usize) -> (r: Vec<ProductTerm>)
    requires
        terms_wf(ts@, k as nat),
        k >= 1,
        fe_wf(x),
    ensures
        terms_wf(r@, (k - 1) as nat),
        terms_view(r@) == fold_terms(terms_view(ts@), x.val()),
        r@.len() == ts@.len(),
{
    let ghost tv = terms_view(ts@);
    let mut out: Vec<ProductTerm> = Vec::new();
    let mut i: usize = 0;
    while i < ts.len()
        invariant
            i <= ts@.len(),
            tv == terms_view(ts@),
            terms_wf(ts@, k as nat),
            k >= 1,
            fe_wf(x),
            out@.len() == i,
            terms_wf(out@, (k - 1) as nat),
            forall|j: int| 0 <= j < i ==> terms_view(out@)[j] == fold_terms(tv, x.val())[j],
        decreases ts@.len() - i,
    {
        let ghost pre_view = terms_view(out@);
        let fl = ts[i].left.fold_var(x);
        let fr = ts[i].right.fold_var(x);
        out.push(ProductTerm { left: fl, right: fr });
        proof {
            assert(terms_view(out@) =~= pre_view.push((fl@, fr@)));
            assert(tv[i as int] == (ts@[i as int].left@, ts@[i as int].right@));
        }
        i += 1;
    }
    proof {
        assert(terms_view(out@) =~= fold_terms(tv, x.val()));
    }
    out
}

/// The three transmitted values of a round polynomial, as field elements.
fn round_poly_fes(rp: &RoundPoly) -> (r: Vec<Fe>)
    ensures
        fe_vals(r@) == seq![rp@.0, rp@.1, rp@.2],
        r@.len() == 3,
{
    let mut v: Vec<Fe> = Vec::new();
    v.push(rp.e0);
    v.push(rp.e1);
    v.push(rp.e2);
    proof {
        assert(fe_vals(v@) =~= seq![rp@.0, rp@.1, rp@.2]);
    }
    v
}

impl SumCheckProof {
    /// The canonical byte encoding of the proof, for transcript binding.
    pub fn to_bytes(&self) -> (r: Vec<u8>)
        ensures
            r@ == sum_check_proof_bytes(self@),
    {
        let mut flat: Vec<Fe> = Vec::new();
        let mut i: usize = 0;
        while i < self.rounds.len()
            invariant
                i <= self.rounds@.len(),
                flat@.len() == 3 * i,
                forall|j: int| 0 <= j < 3 * i ==> fe_vals(flat@)[j] == rounds_flat(self@)[j],
            decreases self.rounds@.len() - i,
        {
            let rp = self.rounds[i];
            flat.push(rp.e0);
            flat.push(rp.e1);
            flat.push(rp.e2);
            proof {
                assert forall|j: int| 0 <= j < 3 * (i + 1) implies fe_vals(flat@)[j]
                    == rounds_flat(self@)[j] by {
                    if j >= 3 * i {
                        vstd::arithmetic::div_mod::lemma_fundamental_div_mod_converse(
                            j,
                            3,
                            i as int,
                            j - 3 * i,
                        );
                    }
                }
            }
            i += 1;
        }
        proof {
            assert(fe_vals(flat@) =~= rounds_flat(self@));
        }
        fes_to_bytes(&flat)
    }
}

/// Proves that the hypercube sum of the composed polynomial given by
/// `terms` equals whatever it truly is, producing one degree-two round
/// polynomial per variable and returning the challenges drawn after each.
pub fn sum_check_prove(terms: Vec<ProductTerm>, n_vars: usize, transcript: &mut Transcript) -> (r:
    (SumCheckProof, Vec<Fe>))
    requires
        terms_wf(terms@, n_vars as nat),
    ensures
        sum_check_proof_wf(r.0),
        r.0@.len() == n_vars,
        r.1@.len() == n_vars,
        fes_wf(r.1@),
        r.0@ == sum_check_prove_spec(terms_view(terms@), n_vars as nat, old(transcript)@).0,
        fe_vals(r.1@) == sum_check_prove_spec(terms_view(terms@), n_vars as nat, old(
            transcript,
        )@).1,
        final(transcript)@ == sum_check_prove_spec(terms_view(terms@), n_vars as nat, old(
            transcript,
        )@).2,
{
    let ghost tv0 = terms_view(terms@);
    let ghost s0 = transcript@;
    let ghost full = sum_check_prove_spec(tv0, n_vars as nat, s0);
    let mut cur = terms;
    let mut rounds: Vec<RoundPoly> = Vec::new();
    let mut chals: Vec<Fe> = Vec::new();
    let mut i: usize = 0;
    proof {
        assert(rounds@.map_values(|rp: RoundPoly| rp@) + full.0 =~= full.0);
        assert(fe_vals(chals@) + full.1 =~= full.1);
    }
    while i < n_vars
        invariant
            i <= n_vars,
            terms_wf(cur@, (n_vars - i) as nat),
            rounds@.len() == i,
            chals@.len() == i,
            fes_wf(chals@),
            forall|j: int| 0 <= j < i ==> round_poly_wf(#[trigger] rounds@[j]),
            full == sum_check_prove_spec(tv0, n_vars as nat, s0),
            full.0 == rounds@.map_values(|rp: RoundPoly| rp@) + sum_check_prove_spec(
                terms_view(cur@),
                (n_vars - i) as nat,
                transcript@,
            ).0,
            full.1 == fe_vals(chals@) + sum_check_prove_spec(
                terms_view(cur@),
                (n_vars - i) as nat,
                transcript@,
            ).1,
            full.2 == sum_check_prove_spec(
                terms_view(cur@),
                (n_vars - i) as nat,
                transcript@,
            ).2,
        decreases n_vars - i,
    {
        let ghost pre_tv = terms_view(cur@);
        let ghost pre_state = transcript@;
        let ghost pre_rounds = rounds@.map_values(|rp: RoundPoly| rp@);
        let ghost pre_chals = fe_vals(chals@);
        let k = n_vars - i;
        let g0 = round_eval_exec(&cur, Fe::from_u64(0), k);
        let g1 = round_eval_exec(&cur, Fe::from_u64(1), k);
        let g2 = round_eval_exec(&cur, Fe::from_u64(2), k);
        let rp = RoundPoly { e0: g0, e1: g1, e2: g2 };
        let msg = fes_to_bytes(&round_poly_fes(&rp));
        transcript.append(&msg);
        let c = transcript.sample();
        cur = fold_terms_exec(&cur, c, k);
        rounds.push(rp);
        chals.push(c);
        proof {
            assert(msg@ == round_bytes(rp@));
            assert(rounds@.map_values(|q: RoundPoly| q@) =~= pre_rounds.push(rp@));
            assert(fe_vals(chals@) =~= pre_chals.push(c.val()));
            assert(pre_rounds.push(rp@) + sum_check_prove_spec(
                terms_view(cur@),
                (n_vars - i - 1) as nat,
                transcript@,
            ).0 =~= pre_rounds + (seq![rp@] + sum_check_prove_spec(
                terms_view(cur@),
                (n_vars - i - 1) as nat,
                transcript@,
            ).0));
            assert(pre_chals.push(c.val()) + sum_check_prove_spec(
                terms_view(cur@),
                (n_vars - i - 1) as nat,
                transcript@,
            ).1 =~= pre_chals + (seq![c.val()] + sum_check_prove_spec(
                terms_view(cur@),
                (n_vars - i - 1) as nat,
                transcript@,
            ).1));
        }
        i += 1;
    }
    proof {
        assert(rounds@.map_values(|rp: RoundPoly| rp@) + sum_check_prove_spec(
            terms_view(cur@),
            0,
            transcript@,
        ).0 =~= rounds@.map_values(|rp: RoundPoly| rp@));
        assert(fe_vals(chals@) + sum_check_prove_spec(terms_view(cur@), 0, transcript@).1
            =~= fe_vals(chals@));
    }
    (SumCheckProof { rounds }, chals)
}

/// The degree-two round polynomial evaluated at `r`, by Lagrange
/// interpolation through its values at 0, 1 and 2.
fn quad_eval_exec(rp: &RoundPoly, r: Fe) -> (v: Fe)
    requires
        round_poly_wf(*rp),
        fe_wf(r),
    ensures
        fe_wf(v),
        v.val() == quad_eval(rp@, r.val()),
{
    let one = Fe::one();
    let two = Fe::from_u64(2);
    let neg_one = Fe::from_u64(FIELD_MODULUS - 1);
    let half = Fe::from_u64(TWO_INV);
    let t0 = rp.e0.mul(r.sub(one)).mul(r.sub(two)).mul(half);
    let t1 = rp.e1.mul(r).mul(r.sub(two)).mul(neg_one);
    let t2 = rp.e2.mul(r).mul(r.sub(one)).mul(half);
    t0.add(t1).add(t2)
}

/// Checks a sum-check sub-proof against a claimed hypercube sum: replays
/// every round's transcript append and challenge draw, checks that each
/// round polynomial is consistent with the running claim, and returns the
/// final oracle value together with the challenges drawn.
pub fn sum_check_verify(
    proof: &SumCheckProof,
    claim: Fe,
    n_vars: usize,
    transcript: &mut Transcript,
) -> (r: Result<(Fe, Vec<Fe>), GkrError>)
    requires
        sum_check_proof_wf(*proof),
        fe_wf(claim),
    ensures
        proof@.len() != n_vars ==> r == Err::<(Fe, Vec<Fe>), GkrError>(GkrError::SumCheckRejected)
            && final(transcript)@ == old(transcript)@,
        proof@.len() == n_vars ==> {
            let sv = sum_check_verify_spec(proof@, claim.val(), old(transcript)@);
            &&& final(transcript)@ == sv.3
            &&& sv.0 ==> r is Ok && fe_wf(r->Ok_0.0) && r->Ok_0.0.val() == sv.1 && fes_wf(
                r->Ok_0.1@,
            ) && fe_vals(r->Ok_0.1@) == sv.2 && r->Ok_0.1@.len() == n_vars
            &&& !sv.0 ==> r == Err::<(Fe, Vec<Fe>), GkrError>(GkrError::SumCheckRejected)
        },
{
    if proof.rounds.len() != n_vars {
        return Err(GkrError::SumCheckRejected);
    }
    let ghost s0 = transcript@;
    let ghost full = sum_check_verify_spec(proof@, claim.val(), s0);
    let mut ok = true;
    let mut cur = claim;
    let mut chals: Vec<Fe> = Vec::new();
    let mut i: usize = 0;
    proof {
        assert(proof@.skip(0) =~= proof@);
        assert(fe_vals(chals@) + full.2 =~= full.2);
    }
    while i < n_vars
        invariant
            i <= n_vars,
            proof@.len() == n_vars,
            sum_check_proof_wf(*proof),
            fe_wf(cur),
            chals@.len() == i,
            fes_wf(chals@),
            full == sum_check_verify_spec(proof@, claim.val(), s0),
            full.0 == (ok && sum_check_verify_spec(
                proof@.skip(i as int),
                cur.val(),
                transcript@,
            ).0),
            full.1 == sum_check_verify_spec(
                proof@.skip(i as int),
                cur.val(),
                transcript@,
            ).1,
            full.2 == fe_vals(chals@) + sum_check_verify_spec(
                proof@.skip(i as int),
                cur.val(),
                transcript@,
            ).2,
            full.3 == sum_check_verify_spec(
                proof@.skip(i as int),
                cur.val(),
                transcript@,
            ).3,
        decreases n_vars - i,
    {
        let ghost pre_chals = fe_vals(chals@);
        let rp = proof.rounds[i];
        if rp.e0.add(rp.e1).v != cur.v {
            ok = false;
        }
        let msg = fes_to_bytes(&round_poly_fes(&rp));
        transcript.append(&msg);
        let c = transcript.sample();
        cur = quad_eval_exec(&rp, c);
        chals.push(c);
        proof {
            assert(proof@.skip(i as int)[0] == proof@[i as int]);
            assert(proof@.skip(i as int).drop_first() =~= proof@.skip(i + 1));
            assert(msg@ == round_bytes(proof@[i as int]));
            assert(fe_vals(chals@) =~= pre_chals.push(c.val()));
            assert(pre_chals.push(c.val()) + sum_check_verify_spec(
                proof@.skip(i + 1),
                cur.val(),
                transcript@,
            ).2 =~= pre_chals + (seq![c.val()] + sum_check_verify_spec(
                proof@.skip(i + 1),
                cur.val(),
                transcript@,
            ).2));
        }
        i += 1;
    }
    proof {
        assert(proof@.skip(n_vars as int).len() == 0);
        assert(fe_vals(chals@) + sum_check_verify_spec(
            proof@.skip(n_vars as int),
            cur.val(),
            transcript@,
        ).2 =~= fe_vals(chals@));
    }
    if ok {
        Ok((cur, chals))
    } else {
        Err(GkrError::SumCheckRejected)
    }
}

} // verus!
