//! The GKR protocol orchestrator: the layer-by-layer reduction that turns
//! "the circuit's output is correct" into one sum-check sub-proof per
//! layer transition, bound together by the Fiat-Shamir transcript, and the
//! verifier that re-derives and checks every step.
//!
//! Per transition the running claim is a linear combination
//! `alpha*W(pb) + beta*W(pc)` of the layer polynomial at the two points
//! bound so far. The prover composes
//! `f(b, c) = addc(b, c)*(W(b) + W(c)) + mulc(b, c)*(W(b)*W(c))`, where
//! `addc`/`mulc` are the wiring predicates with their gate variables fixed
//! to `pb` and `pc` and combined with the same `alpha`, `beta` weights,
//! proves its hypercube sum by sum-check, evaluates `W` at the two halves
//! of the drawn challenges, and draws the next `alpha`, `beta` from the
//! transcript. The verifier replays every append and draw, checks each
//! sub-proof, reconstructs the sum-check's final value from the claimed
//! evaluations and the wiring predicates, and finally checks the last
//! layer's claims against values recomputed from the circuit input alone.

use vstd::prelude::*;

use vstd::arithmetic::power2::pow2;

use crate::circuit::{eval_layers, evaluation_wf, ranges_ok, wiring_table_spec, Circuit,
    CircuitEvaluation, Gate, log2_exact, lemma_pow2_inj};
use crate::errors::GkrError;
use crate::field::{fadd, fmul, fe_bytes, fe_vals, fe_wf, fes_bytes, fes_wf, Fe};
use crate::mle::{add_distinct_seq, eval_mle, fold_all, mul_distinct_seq, scaled_sum_seq,
    Mle, clone_fes};
use crate::sumcheck::{sum_check_proof_bytes, sum_check_proof_wf, sum_check_prove,
    sum_check_prove_spec, sum_check_verify, sum_check_verify_spec, terms_view, terms_wf,
    ProductTerm, SumCheckProof};
use crate::transcript::{sha256_of, squeeze_val, squeezed_state, Transcript};

verus! {

/// The artifact the prover produces and the verifier consumes: one
/// sum-check sub-proof and one pair of claimed layer evaluations per layer
/// transition, in reduction order.
#[derive(Clone, Debug, PartialEq, Eq)]
pub struct GKRProof {
    pub sum_check_proofs: Vec<SumCheckProof>,
    pub w_i_b: Vec<Fe>,
    pub w_i_c: Vec<Fe>,
}

/// The round values of every sub-proof.
pub open spec fn proofs_view(ps: Seq<SumCheckProof>) -> Seq<Seq<(int, int, int)>> {
    ps.map_values(|p: SumCheckProof| p@)
}

impl View for GKRProof {
    type V = (Seq<Seq<(int, int, int)>>, Seq<int>, Seq<int>);

    open spec fn view(&self) -> (Seq<Seq<(int, int, int)>>, Seq<int>, Seq<int>) {
        (proofs_view(self.sum_check_proofs@), fe_vals(self.w_i_b@), fe_vals(self.w_i_c@))
    }
}

/// Every field element of the proof is reduced.
pub open spec fn gkr_proof_wf(p: GKRProof) -> bool {
    &&& forall|i: int| 0 <= i < p.sum_check_proofs@.len() ==> sum_check_proof_wf(
        #[trigger] p.sum_check_proofs@[i],
    )
    &&& fes_wf(p.w_i_b@)
    &&& fes_wf(p.w_i_c@)
}

/// The power-of-two exponent of `n`: the floor of its base-2 logarithm.
pub open spec fn lg(n: nat) -> nat
    decreases n,
{
    if n <= 1 {
        0
    } else {
        1 + lg((n / 2) as nat)
    }
}

/// `lg` inverts `pow2`.
pub proof fn lemma_lg(k: nat)
    ensures
        lg(pow2(k)) == k,
    decreases k,
{
    vstd::arithmetic::power2::lemma2_to64();
    if k > 0 {
        vstd::arithmetic::power2::lemma_pow2_unfold(k);
        vstd::arithmetic::power2::lemma_pow2_pos((k - 1) as nat);
        lemma_lg((k - 1) as nat);
        assert(pow2(k) / 2 == pow2((k - 1) as nat));
    }
}

/// The circuit shape the protocol runs over: at least one layer, a single
/// output gate, every width a power of two, and every wiring table small
/// enough to build.
pub open spec fn circuit_shapes_ok(cv: Seq<Seq<Gate>>) -> bool {
    &&& cv.len() >= 1
    &&& cv[0].len() == 1
    &&& forall|l: int| 0 <= l < cv.len() ==> exists|k: nat| (#[trigger] cv[l]).len() == pow2(k)
    &&& forall|l: int|
        0 <= l < cv.len() - 1 ==> #[trigger] (cv[l].len() * cv[l + 1].len() * cv[l + 1].len())
            <= usize::MAX
}

/// What the prover demands of its inputs: a well-shaped circuit and an
/// evaluation with exactly one value per gate.
pub open spec fn shapes_ok(cv: Seq<Seq<Gate>>, evv: Seq<Seq<int>>) -> bool {
    &&& circuit_shapes_ok(cv)
    &&& evv.len() == cv.len()
    &&& forall|l: int| 0 <= l < cv.len() ==> (#[trigger] evv[l]).len() == cv[l].len()
}

/// The sub-proofs and claimed evaluations an honest prover emits for
/// layers `l` onward, starting from weights `alpha`, `beta`, bound points
/// `pb`, `pc` and transcript state `ts`.
pub open spec fn prove_layers_spec(
    cv: Seq<Seq<Gate>>,
    evv: Seq<Seq<int>>,
    l: nat,
    alpha: int,
    pb: Seq<int>,
    beta: int,
    pc: Seq<int>,
    ts: Seq<u8>,
) -> (Seq<Seq<(int, int, int)>>, Seq<int>, Seq<int>)
    decreases cv.len() - l,
{
    if l >= cv.len() {
        (Seq::empty(), Seq::empty(), Seq::empty())
    } else {
        let v = lg(cv[l as int].len());
        let w_tab = evv[l as int];
        let add_tab = wiring_table_spec(cv[l - 1], cv[l as int].len() as int, false);
        let mul_tab = wiring_table_spec(cv[l - 1], cv[l as int].len() as int, true);
        let addc = scaled_sum_seq(alpha, fold_all(add_tab, pb), beta, fold_all(add_tab, pc));
        let mulc = scaled_sum_seq(alpha, fold_all(mul_tab, pb), beta, fold_all(mul_tab, pc));
        let tv = seq![
            (addc, add_distinct_seq(w_tab, w_tab)),
            (mulc, mul_distinct_seq(w_tab, w_tab)),
        ];
        let sc = sum_check_prove_spec(tv, 2 * v, ts);
        let ts1 = sc.2 + sum_check_proof_bytes(sc.0);
        let rb = sc.1.take(v as int);
        let rc = sc.1.skip(v as int);
        let wb = eval_mle(w_tab, rb);
        let wc = eval_mle(w_tab, rc);
        let ts2 = ts1 + fe_bytes(wb) + fe_bytes(wc);
        let na = squeeze_val(sha256_of(ts2));
        let ts3 = squeezed_state(ts2);
        let nb = squeeze_val(sha256_of(ts3));
        let ts4 = squeezed_state(ts3);
        let rest = prove_layers_spec(cv, evv, l + 1, na, rb, nb, rc, ts4);
        (seq![sc.0] + rest.0, seq![wb] + rest.1, seq![wc] + rest.2)
    }
}

/// The whole proof an honest prover emits: the output layer's table is
/// bound into a fresh transcript, and the reduction starts at layer 1 with
/// weights 1 and 0 on the empty point.
pub open spec fn prove_spec(cv: Seq<Seq<Gate>>, evv: Seq<Seq<int>>) -> (
    Seq<Seq<(int, int, int)>>,
    Seq<int>,
    Seq<int>,
) {
    prove_layers_spec(cv, evv, 1, 1, Seq::empty(), 0, Seq::empty(), fes_bytes(evv[0]))
}

/// The verifier's pass over layers `l` onward: checks each sub-proof
/// against the running claim, reconstructs the composed polynomial's value
/// at the drawn point from the claimed evaluations and the wiring
/// predicates, derives the next claim, and finally holds the last claimed
/// pair against the layer recomputed from the circuit input.
pub open spec fn verify_layers_spec(
    cv: Seq<Seq<Gate>>,
    evv: Seq<Seq<int>>,
    scv: Seq<Seq<(int, int, int)>>,
    wbs: Seq<int>,
    wcs: Seq<int>,
    l: nat,
    alpha: int,
    pb: Seq<int>,
    beta: int,
    pc: Seq<int>,
    claim: int,
    ts: Seq<u8>,
) -> Result<(), GkrError>
    decreases cv.len() - l,
{
    if l >= cv.len() {
        if cv.len() >= 2 {
            let w_tab = evv[cv.len() - 1];
            if wbs[cv.len() - 2] == eval_mle(w_tab, pb) && wcs[cv.len() - 2] == eval_mle(
                w_tab,
                pc,
            ) {
                Ok(())
            } else {
                Err(GkrError::FinalInputMismatch)
            }
        } else {
            Ok(())
        }
    } else {
        let v = lg(cv[l as int].len());
        if scv[l - 1].len() != 2 * v {
            Err(GkrError::SumCheckRejected)
        } else {
            let sub = sum_check_verify_spec(scv[l - 1], claim, ts);
            if !sub.0 {
                Err(GkrError::SumCheckRejected)
            } else {
                let ts1 = sub.3 + sum_check_proof_bytes(scv[l - 1]);
                let rb = sub.2.take(v as int);
                let rc = sub.2.skip(v as int);
                let add_tab = wiring_table_spec(cv[l - 1], cv[l as int].len() as int, false);
                let mul_tab = wiring_table_spec(cv[l - 1], cv[l as int].len() as int, true);
                let wb = wbs[l - 1];
                let wc = wcs[l - 1];
                let addv = fadd(
                    fmul(alpha, eval_mle(add_tab, pb + rb + rc)),
                    fmul(beta, eval_mle(add_tab, pc + rb + rc)),
                );
                let mulv = fadd(
                    fmul(alpha, eval_mle(mul_tab, pb + rb + rc)),
                    fmul(beta, eval_mle(mul_tab, pc + rb + rc)),
                );
                let expected = fadd(fmul(addv, fadd(wb, wc)), fmul(mulv, fmul(wb, wc)));
                if expected != sub.1 {
                    Err(GkrError::LayerMismatch)
                } else {
                    let ts2 = ts1 + fe_bytes(wb) + fe_bytes(wc);
                    let na = squeeze_val(sha256_of(ts2));
                    let ts3 = squeezed_state(ts2);
                    let nb = squeeze_val(sha256_of(ts3));
                    let ts4 = squeezed_state(ts3);
                    verify_layers_spec(
                        cv,
                        evv,
                        scv,
                        wbs,
                        wcs,
                        l + 1,
                        na,
                        rb,
                        nb,
                        rc,
                        fadd(fmul(na, wb), fmul(nb, wc)),
                        ts4,
                    )
                }
            }
        }
    }
}

/// The verifier's whole decision on a circuit, an input, and a proof:
/// shape checks first, then the circuit's own well-formedness, then the
/// gate ranges, then the transcript-bound layer reduction.
pub open spec fn verify_spec(
    cv: Seq<Seq<Gate>>,
    iv: Seq<int>,
    pv: (Seq<Seq<(int, int, int)>>, Seq<int>, Seq<int>),
) -> Result<(), GkrError> {
    if !(cv.len() >= 1 && pv.0.len() == cv.len() - 1 && pv.1.len() == cv.len() - 1 && pv.2.len()
        == cv.len() - 1) {
        Err(GkrError::InputMismatch)
    } else if !circuit_shapes_ok(cv) {
        Err(GkrError::InputMismatch)
    } else if !ranges_ok(cv, iv.len() as int) {
        Err(GkrError::InputMismatch)
    } else {
        let evv = eval_layers(cv, iv);
        verify_layers_spec(
            cv,
            evv,
            pv.0,
            pv.1,
            pv.2,
            1,
            1,
            Seq::empty(),
            0,
            Seq::empty(),
            eval_mle(evv[0], Seq::empty()),
            fes_bytes(evv[0]),
        )
    }
}

/// The first `k` elements and the rest of a vector of field elements.
fn split_fes(v: &Vec<Fe>, k: usize) -> (r: (Vec<Fe>, Vec<Fe>))
    requires
        k <= v@.len(),
    ensures
        r.0@ == v@.take(k as int),
        r.1@ == v@.skip(k as int),
{
    let mut lo: Vec<Fe> = Vec::new();
    let mut i: usize = 0;
    while i < k
        invariant
            i <= k,
            k <= v@.len(),
            lo@ == v@.take(i as int),
        decreases k - i,
    {
        lo.push(v[i]);
        proof {
            assert(v@.take(i + 1) =~= v@.take(i as int).push(v@[i as int]));
        }
        i += 1;
    }
    let mut hi: Vec<Fe> = Vec::new();
    let mut j: usize = k;
    while j < v.len()
        invariant
            k <= j <= v@.len(),
            hi@ == v@.subrange(k as int, j as int),
        decreases v@.len() - j,
    {
        hi.push(v[j]);
        proof {
            assert(v@.subrange(k as int, j + 1) =~= v@.subrange(k as int, j as int).push(
                v@[j as int],
            ));
        }
        j += 1;
    }
    proof {
        assert(hi@ =~= v@.skip(k as int));
    }
    (lo, hi)
}

/// The concatenation of three vectors of field elements.
fn concat3_fes(a: &Vec<Fe>, b: &Vec<Fe>, c: &Vec<Fe>) -> (r: Vec<Fe>)
    ensures
        r@ == a@ + b@ + c@,
{
    let mut out = clone_fes(a);
    let mut i: usize = 0;
    while i < b.len()
        invariant
            i <= b@.len(),
            out@ == a@ + b@.take(i as int),
        decreases b@.len() - i,
    {
        out.push(b[i]);
        proof {
            assert(a@ + b@.take(i + 1) =~= (a@ + b@.take(i as int)).push(b@[i as int]));
        }
        i += 1;
    }
    proof {
        assert(out@ =~= a@ + b@);
    }
    let mut j: usize = 0;
    while j < c.len()
        invariant
            j <= c@.len(),
            out@ == a@ + b@ + c@.take(j as int),
        decreases c@.len() - j,
    {
        out.push(c[j]);
        proof {
            assert(a@ + b@ + c@.take(j + 1) =~= (a@ + b@ + c@.take(j as int)).push(c@[j as int]));
        }
        j += 1;
    }
    proof {
        assert(out@ =~= a@ + b@ + c@);
    }
    out
}

/// The protocol's two operations, `prove` and `verify`.
pub struct GKRProtocol;

impl GKRProtocol {
    /// Produces the GKR proof that `evals` is the honest evaluation the
    /// circuit dictates: one transcript-bound sum-check sub-proof and one
    /// pair of layer-polynomial evaluations per layer transition. Rejects
    /// inputs whose shapes disagree before any cryptographic work.
    #[verifier::rlimit(100)]
    pub fn prove(circuit: &Circuit, evals: &CircuitEvaluation) -> (r: Result<GKRProof, GkrError>)
        requires
            evaluation_wf(*evals),
        ensures
            r is Ok <==> shapes_ok(circuit@, evals@),
            r is Err ==> r == Err::<GKRProof, GkrError>(GkrError::InputMismatch),
            r is Ok ==> gkr_proof_wf(r->Ok_0) && (r->Ok_0)@ == prove_spec(circuit@, evals@)
                && (r->Ok_0)@.0.len() == circuit@.len() - 1 && (r->Ok_0)@.1.len() == circuit@.len()
                - 1 && (r->Ok_0)@.2.len() == circuit@.len() - 1,
    {
        let ghost cv = circuit@;
        let ghost evv = evals@;
        let depth = circuit.layers.len();
        if depth == 0 || evals.layers.len() != depth {
            return Err(GkrError::InputMismatch);
        }
        if circuit.layers[0].gates.len() != 1 {
            return Err(GkrError::InputMismatch);
        }
        let mut nv: Vec<usize> = Vec::new();
        let mut l: usize = 0;
        while l < depth
            invariant
                l <= depth,
                depth == cv.len(),
                cv == circuit@,
                evv == evals@,
                evals.layers@.len() == depth,
                nv@.len() == l,
                forall|j: int| 0 <= j < l ==> cv[j].len() == pow2(#[trigger] nv@[j] as nat),
                forall|j: int| 0 <= j < l ==> (#[trigger] evv[j]).len() == cv[j].len(),
            decreases depth - l,
        {
            let wl = circuit.layers[l].gates.len();
            if evals.layers[l].len() != wl {
                proof {
                    assert(evv[l as int] == fe_vals(evals.layers@[l as int]@));
                    assert(evv[l as int].len() != cv[l as int].len());
                }
                return Err(GkrError::InputMismatch);
            }
            match log2_exact(wl) {
                Some(k) => {
                    nv.push(k);
                },
                None => {
                    proof {
                        assert(!(exists|k: nat| cv[l as int].len() == pow2(k)));
                    }
                    return Err(GkrError::InputMismatch);
                },
            }
            l += 1;
        }
        let mut t: usize = 0;
        while t < depth - 1
            invariant
                t <= depth - 1,
                depth >= 1,
                depth == cv.len(),
                cv == circuit@,
                nv@.len() == depth,
                forall|j: int| 0 <= j < depth ==> cv[j].len() == pow2(#[trigger] nv@[j] as nat),
                forall|j: int|
                    0 <= j < t ==> #[trigger] (cv[j].len() * cv[j + 1].len() * cv[j + 1].len())
                        <= usize::MAX,
            decreases depth - t,
        {
            let g = circuit.layers[t].gates.len();
            let w = circuit.layers[t + 1].gates.len();
            proof {
                vstd::arithmetic::power2::lemma_pow2_pos(nv@[t as int] as nat);
            }
            match w.checked_mul(w) {
                Some(ww) => {
                    match g.checked_mul(ww) {
                        Some(_) => {
                            proof {
                                assert(cv[t as int].len() * cv[t as int + 1].len() * cv[t as int
                                    + 1].len() == g * ww) by (nonlinear_arith)
                                    requires
                                        ww == w * w,
                                        cv[t as int].len() == g,
                                        cv[t as int + 1].len() == w,
                                ;
                            }
                        },
                        None => {
                            proof {
                                assert(cv[t as int].len() * cv[t as int + 1].len() * cv[t as int
                                    + 1].len() > usize::MAX) by (nonlinear_arith)
                                    requires
                                        ww == w * w,
                                        g * ww > usize::MAX,
                                        cv[t as int].len() == g,
                                        cv[t as int + 1].len() == w,
                                ;
                            }
                            return Err(GkrError::InputMismatch);
                        },
                    }
                },
                None => {
                    proof {
                        assert(cv[t as int].len() * cv[t as int + 1].len() * cv[t as int
                            + 1].len() > usize::MAX) by (nonlinear_arith)
                            requires
                                w * w > usize::MAX,
                                cv[t as int].len() == g,
                                cv[t as int + 1].len() == w,
                                g >= 1,
                        ;
                    }
                    return Err(GkrError::InputMismatch);
                },
            }
            t += 1;
        }
        proof {
            assert forall|l2: int| 0 <= l2 < cv.len() implies exists|k: nat|
                (#[trigger] cv[l2]).len() == pow2(k) by {
                assert(cv[l2].len() == pow2(nv@[l2] as nat));
            }
            assert(shapes_ok(cv, evv));
        }
        let ghost full = prove_spec(cv, evv);
        let mut ts = Transcript::new();
        let w0 = Mle::new(nv[0], clone_fes(&evals.layers[0]));
        let w0b = w0.to_bytes();
        ts.append(&w0b);
        let r0 = ts.sample_n(w0.num_vars());
        proof {
            lemma_lg(nv@[0] as nat);
            vstd::arithmetic::power2::lemma2_to64();
            lemma_pow2_inj(nv@[0] as nat, 0nat);
            assert(Seq::<u8>::empty() + fes_bytes(evv[0]) =~= fes_bytes(evv[0]));
            assert(fe_vals(r0@) =~= Seq::<int>::empty());
        }
        let mut alpha = Fe::one();
        let mut beta = Fe::zero();
        let mut pb = r0;
        let mut pc: Vec<Fe> = Vec::new();
        let mut scps: Vec<SumCheckProof> = Vec::new();
        let mut wibs: Vec<Fe> = Vec::new();
        let mut wics: Vec<Fe> = Vec::new();
        let mut li: usize = 1;
        proof {
            assert(fe_vals(pb@) =~= Seq::<int>::empty());
            assert(fe_vals(pc@) =~= Seq::<int>::empty());
            assert(proofs_view(scps@) + full.0 =~= full.0);
            assert(fe_vals(wibs@) + full.1 =~= full.1);
            assert(fe_vals(wics@) + full.2 =~= full.2);
        }
        while li < depth
            invariant
                1 <= li <= depth,
                depth == cv.len(),
                cv == circuit@,
                evv == evals@,
                evals.layers@.len() == depth,
                evaluation_wf(*evals),
                shapes_ok(cv, evv),
                nv@.len() == depth,
                forall|j: int| 0 <= j < depth ==> cv[j].len() == pow2(#[trigger] nv@[j] as nat),
                fe_wf(alpha),
                fe_wf(beta),
                fes_wf(pb@),
                fes_wf(pc@),
                pb@.len() == nv@[li - 1],
                pc@.len() == nv@[li - 1],
                scps@.len() == li - 1,
                wibs@.len() == li - 1,
                wics@.len() == li - 1,
                forall|i: int| 0 <= i < scps@.len() ==> sum_check_proof_wf(#[trigger] scps@[i]),
                fes_wf(wibs@),
                fes_wf(wics@),
                full == prove_spec(cv, evv),
                full.0 == proofs_view(scps@) + prove_layers_spec(
                    cv,
                    evv,
                    li as nat,
                    alpha.val(),
                    fe_vals(pb@),
                    beta.val(),
                    fe_vals(pc@),
                    ts@,
                ).0,
                full.1 == fe_vals(wibs@) + prove_layers_spec(
                    cv,
                    evv,
                    li as nat,
                    alpha.val(),
                    fe_vals(pb@),
                    beta.val(),
                    fe_vals(pc@),
                    ts@,
                ).1,
                full.2 == fe_vals(wics@) + prove_layers_spec(
                    cv,
                    evv,
                    li as nat,
                    alpha.val(),
                    fe_vals(pb@),
                    beta.val(),
                    fe_vals(pc@),
                    ts@,
                ).2,
            decreases depth - li,
        {
            let ghost pre_scps = proofs_view(scps@);
            let ghost pre_wibs = fe_vals(wibs@);
            let ghost pre_wics = fe_vals(wics@);
            let va = nv[li - 1];
            let vb = nv[li];
            proof {
                lemma_lg(vb as nat);
                vstd::arithmetic::power2::lemma_pow2_pos(va as nat);
                vstd::arithmetic::power2::lemma_pow2_pos(vb as nat);
                crate::mle::lemma_pow2_above(vb as nat);
                assert(cv[li as int].len() * cv[li as int].len() <= cv[li - 1].len() * (cv[
                    li as int].len() * cv[li as int].len())) by (nonlinear_arith)
                    requires
                        cv[li - 1].len() >= 1,
                        cv[li as int].len() >= 0,
                ;
                assert(cv[li - 1].len() * cv[li as int].len() * cv[li as int].len() == cv[li
                    - 1].len() * (cv[li as int].len() * cv[li as int].len()))
                    by (nonlinear_arith);
                assert(2 * (vb as int) <= cv[li as int].len() * cv[li as int].len())
                    by (nonlinear_arith)
                    requires
                        0 <= vb,
                        vb + 1 <= cv[li as int].len(),
                ;
            }
            let (add_mle, mul_mle) = circuit.add_n_mul_mle(li - 1, va, vb);
            let addc = add_mle.fold_prefix(&pb).scaled_sum(alpha, beta, &add_mle.fold_prefix(&pc));
            let mulc = mul_mle.fold_prefix(&pb).scaled_sum(alpha, beta, &mul_mle.fold_prefix(&pc));
            let w_l = Mle::new(vb, clone_fes(&evals.layers[li]));
            let s_tab = w_l.add_distinct(&w_l);
            let p_tab = w_l.mul_distinct(&w_l);
            let mut terms: Vec<ProductTerm> = Vec::new();
            terms.push(ProductTerm { left: addc, right: s_tab });
            terms.push(ProductTerm { left: mulc, right: p_tab });
            let n2 = vb + vb;
            proof {
                assert(terms_wf(terms@, n2 as nat));
                assert(terms_view(terms@) =~= seq![
                    (terms@[0].left@, terms@[0].right@),
                    (terms@[1].left@, terms@[1].right@),
                ]);
            }
            let (scp, chals) = sum_check_prove(terms, n2, &mut ts);
            let scpb = scp.to_bytes();
            ts.append(&scpb);
            let (rb, rc) = split_fes(&chals, vb);
            proof {
                assert(fe_vals(rb@) =~= fe_vals(chals@).take(vb as int));
                assert(fe_vals(rc@) =~= fe_vals(chals@).skip(vb as int));
            }
            let wb = w_l.eval(&rb);
            let wc = w_l.eval(&rc);
            let wbb = wb.to_bytes();
            ts.append(&wbb);
            let wcb = wc.to_bytes();
            ts.append(&wcb);
            let na = ts.sample();
            let nb = ts.sample();
            scps.push(scp);
            wibs.push(wb);
            wics.push(wc);
            alpha = na;
            beta = nb;
            pb = rb;
            pc = rc;
            proof {
                let sub = prove_layers_spec(cv, evv, li as nat, alpha.val(), fe_vals(pb@),
                    beta.val(), fe_vals(pc@), ts@);
                assert(proofs_view(scps@) =~= pre_scps.push(scp@));
                assert(fe_vals(wibs@) =~= pre_wibs.push(wb.val()));
                assert(fe_vals(wics@) =~= pre_wics.push(wc.val()));
                assert(pre_scps.push(scp@) + sub.0 =~= pre_scps + (seq![scp@] + sub.0));
                assert(pre_wibs.push(wb.val()) + sub.1 =~= pre_wibs + (seq![wb.val()] + sub.1));
                assert(pre_wics.push(wc.val()) + sub.2 =~= pre_wics + (seq![wc.val()] + sub.2));
            }
            li += 1;
        }
        proof {
            assert(full.0 =~= proofs_view(scps@));
            assert(full.1 =~= fe_vals(wibs@));
            assert(full.2 =~= fe_vals(wics@));
        }
        Ok(GKRProof { sum_check_proofs: scps, w_i_b: wibs, w_i_c: wics })
    }

    /// Checks a proof against the circuit and its claimed input,
    /// reporting the first failure: a shape mismatch before any field
    /// arithmetic, then a malformed circuit, then each layer transition in
    /// reduction order, then the final check of the last claimed pair
    /// against the layer the input dictates.
    #[verifier::rlimit(100)]
    pub fn verify_checked(circuit: &Circuit, input: &Vec<Fe>, proof: &GKRProof) -> (r: Result<
        (),
        GkrError,
    >)
        requires
            fes_wf(input@),
            gkr_proof_wf(*proof),
        ensures
            r == verify_spec(circuit@, fe_vals(input@), proof@),
    {
        let ghost cv = circuit@;
        let ghost iv = fe_vals(input@);
        let ghost pv = proof@;
        let depth = circuit.layers.len();
        if depth == 0 || proof.sum_check_proofs.len() != depth - 1 || proof.w_i_b.len() != depth
            - 1 || proof.w_i_c.len() != depth - 1 {
            return Err(GkrError::InputMismatch);
        }
        if circuit.layers[0].gates.len() != 1 {
            return Err(GkrError::InputMismatch);
        }
        let mut nv: Vec<usize> = Vec::new();
        let mut l: usize = 0;
        while l < depth
            invariant
                l <= depth,
                depth == cv.len(),
                cv == circuit@,
                nv@.len() == l,
                forall|j: int| 0 <= j < l ==> cv[j].len() == pow2(#[trigger] nv@[j] as nat),
            decreases depth - l,
        {
            match log2_exact(circuit.layers[l].gates.len()) {
                Some(k) => {
                    nv.push(k);
                },
                None => {
                    proof {
                        assert(!(exists|k: nat| cv[l as int].len() == pow2(k)));
                    }
                    return Err(GkrError::InputMismatch);
                },
            }
            l += 1;
        }
        let mut t: usize = 0;
        while t < depth - 1
            invariant
                t <= depth - 1,
                depth >= 1,
                depth == cv.len(),
                cv == circuit@,
                nv@.len() == depth,
                forall|j: int| 0 <= j < depth ==> cv[j].len() == pow2(#[trigger] nv@[j] as nat),
                forall|j: int|
                    0 <= j < t ==> #[trigger] (cv[j].len() * cv[j + 1].len() * cv[j + 1].len())
                        <= usize::MAX,
            decreases depth - t,
        {
            let g = circuit.layers[t].gates.len();
            let w = circuit.layers[t + 1].gates.len();
            proof {
                vstd::arithmetic::power2::lemma_pow2_pos(nv@[t as int] as nat);
            }
            match w.checked_mul(w) {
                Some(ww) => {
                    match g.checked_mul(ww) {
                        Some(_) => {
                            proof {
                                assert(cv[t as int].len() * cv[t as int + 1].len() * cv[t as int
                                    + 1].len() == g * ww) by (nonlinear_arith)
                                    requires
                                        ww == w * w,
                                        cv[t as int].len() == g,
                                        cv[t as int + 1].len() == w,
                                ;
                            }
                        },
                        None => {
                            proof {
                                assert(cv[t as int].len() * cv[t as int + 1].len() * cv[t as int
                                    + 1].len() > usize::MAX) by (nonlinear_arith)
                                    requires
                                        ww == w * w,
                                        g * ww > usize::MAX,
                                        cv[t as int].len() == g,
                                        cv[t as int + 1].len() == w,
                                ;
                            }
                            return Err(GkrError::InputMismatch);
                        },
                    }
                },
                None => {
                    proof {
                        assert(cv[t as int].len() * cv[t as int + 1].len() * cv[t as int
                            + 1].len() > usize::MAX) by (nonlinear_arith)
                            requires
                                w * w > usize::MAX,
                                cv[t as int].len() == g,
                                cv[t as int + 1].len() == w,
                                g >= 1,
                        ;
                    }
                    return Err(GkrError::InputMismatch);
                },
            }
            t += 1;
        }
        proof {
            assert forall|l2: int| 0 <= l2 < cv.len() implies exists|k: nat|
                (#[trigger] cv[l2]).len() == pow2(k) by {
                assert(cv[l2].len() == pow2(nv@[l2] as nat));
            }
            assert(circuit_shapes_ok(cv));
        }
        let evals = match circuit.evaluate(input) {
            Ok(e) => e,
            Err(_) => {
                return Err(GkrError::InputMismatch);
            },
        };
        let ghost evv = eval_layers(cv, iv);
        let ghost full = verify_spec(cv, iv, pv);
        proof {
            crate::circuit::lemma_eval_layers_shape(cv, iv);
        }
        let mut ts = Transcript::new();
        let w0 = Mle::new(nv[0], clone_fes(&evals.layers[0]));
        proof {
            assert(evals@[0] == evv[0]);
            assert(evv[0].len() == cv[0].len()) by {
                assert(evv[0] == crate::circuit::layer_eval(
                    cv.first(),
                    if cv.len() == 1 {
                        iv
                    } else {
                        eval_layers(cv.drop_first(), iv)[0]
                    },
                ));
            }
            lemma_lg(nv@[0] as nat);
            vstd::arithmetic::power2::lemma2_to64();
            lemma_pow2_inj(nv@[0] as nat, 0nat);
        }
        let w0b = w0.to_bytes();
        ts.append(&w0b);
        let r0 = ts.sample_n(w0.num_vars());
        let claim0 = w0.eval(&r0);
        proof {
            assert(Seq::<u8>::empty() + fes_bytes(evv[0]) =~= fes_bytes(evv[0]));
            assert(fe_vals(r0@) =~= Seq::<int>::empty());
        }
        let alpha = Fe::one();
        let beta = Fe::zero();
        let pb = r0;
        let pc: Vec<Fe> = Vec::new();
        proof {
            assert(fe_vals(pb@) =~= Seq::<int>::empty());
            assert(fe_vals(pc@) =~= Seq::<int>::empty());
            assert(evals@ =~= evv);
        }
        let r = verify_layers_exec(circuit, &evals, proof, &nv, 1, alpha, pb, beta, pc, claim0, ts);
        proof {
            assert(r == verify_spec(cv, iv, pv));
        }
        r
    }

    /// Accepts exactly the proofs every one of whose checks replays
    /// cleanly against this circuit and input.
    pub fn verify(circuit: &Circuit, input: &Vec<Fe>, proof: &GKRProof) -> (r: bool)
        requires
            fes_wf(input@),
            gkr_proof_wf(*proof),
        ensures
            r == (verify_spec(circuit@, fe_vals(input@), proof@) is Ok),
    {
        match Self::verify_checked(circuit, input, proof) {
            Ok(_) => true,
            Err(_) => false,
        }
    }
}

/// One verifier pass over the layer transitions from `li` onward, ending
/// with the final check of the last claimed pair against the layer the
/// input dictates; mirrors `verify_layers_spec` step for step.
fn verify_layers_exec(
    circuit: &Circuit,
    evals: &CircuitEvaluation,
    proof: &GKRProof,
    nv: &Vec<usize>,
    li: usize,
    alpha: Fe,
    pb: Vec<Fe>,
    beta: Fe,
    pc: Vec<Fe>,
    claim: Fe,
    ts: Transcript,
) -> (r: Result<(), GkrError>)
    requires
        1 <= li <= circuit@.len(),
        evals@.len() == circuit@.len(),
        evaluation_wf(*evals),
        circuit_shapes_ok(circuit@),
        gkr_proof_wf(*proof),
        proof.sum_check_proofs@.len() == circuit@.len() - 1,
        proof.w_i_b@.len() == circuit@.len() - 1,
        proof.w_i_c@.len() == circuit@.len() - 1,
        nv@.len() == circuit@.len(),
        forall|j: int| 0 <= j < circuit@.len() ==> circuit@[j].len() == pow2(
            #[trigger] nv@[j] as nat,
        ),
        forall|j: int| 0 <= j < circuit@.len() ==> (#[trigger] evals@[j]).len()
            == circuit@[j].len(),
        fe_wf(alpha),
        fe_wf(beta),
        fe_wf(claim),
        fes_wf(pb@),
        fes_wf(pc@),
        pb@.len() == nv@[li - 1],
        pc@.len() == nv@[li - 1],
    ensures
        r == verify_layers_spec(
            circuit@,
            evals@,
            proof@.0,
            proof@.1,
            proof@.2,
            li as nat,
            alpha.val(),
            fe_vals(pb@),
            beta.val(),
            fe_vals(pc@),
            claim.val(),
            ts@,
        ),
    decreases circuit@.len() - li,
{
    let ghost cv = circuit@;
    let ghost evv = evals@;
    let ghost pv = proof@;
    let depth = circuit.layers.len();
    let mut ts = ts;
    if li == depth {
        if depth >= 2 {
            let w_last = Mle::new(nv[depth - 1], clone_fes(&evals.layers[depth - 1]));
            let vb_last = w_last.eval(&pb);
            let vc_last = w_last.eval(&pc);
            let wb = proof.w_i_b[depth - 2];
            let wc = proof.w_i_c[depth - 2];
            if wb.v == vb_last.v && wc.v == vc_last.v {
                Ok(())
            } else {
                Err(GkrError::FinalInputMismatch)
            }
        } else {
            Ok(())
        }
    } else {
        let va = nv[li - 1];
        let vb = nv[li];
        proof {
            lemma_lg(vb as nat);
            vstd::arithmetic::power2::lemma_pow2_pos(va as nat);
            vstd::arithmetic::power2::lemma_pow2_pos(vb as nat);
            crate::mle::lemma_pow2_above(vb as nat);
            assert(cv[li as int].len() * cv[li as int].len() <= cv[li - 1].len() * (cv[
                li as int].len() * cv[li as int].len())) by (nonlinear_arith)
                requires
                    cv[li - 1].len() >= 1,
                    cv[li as int].len() >= 0,
            ;
            assert(cv[li - 1].len() * cv[li as int].len() * cv[li as int].len() == cv[li
                - 1].len() * (cv[li as int].len() * cv[li as int].len())) by (nonlinear_arith);
            assert(2 * (vb as int) <= cv[li as int].len() * cv[li as int].len())
                by (nonlinear_arith)
                requires
                    0 <= vb,
                    vb + 1 <= cv[li as int].len(),
            ;
            assert(cv[li - 1].len() * cv[li - 1 + 1].len() * cv[li - 1 + 1].len() <= usize::MAX);
            assert(cv[li - 1 + 1] == cv[li as int]);
        }
        let n2 = vb + vb;
        let scp = &proof.sum_check_proofs[li - 1];
        let sub = match sum_check_verify(scp, claim, n2, &mut ts) {
            Ok(x) => x,
            Err(_) => {
                return Err(GkrError::SumCheckRejected);
            },
        };
        let (fv, chals) = sub;
        let scpb = scp.to_bytes();
        ts.append(&scpb);
        let (rb, rc) = split_fes(&chals, vb);
        proof {
            assert(fe_vals(rb@) =~= fe_vals(chals@).take(vb as int));
            assert(fe_vals(rc@) =~= fe_vals(chals@).skip(vb as int));
        }
        let (add_mle, mul_mle) = circuit.add_n_mul_mle(li - 1, va, vb);
        let pb_rb_rc = concat3_fes(&pb, &rb, &rc);
        let pc_rb_rc = concat3_fes(&pc, &rb, &rc);
        proof {
            assert(fe_vals(pb_rb_rc@) =~= fe_vals(pb@) + fe_vals(rb@) + fe_vals(rc@));
            assert(fe_vals(pc_rb_rc@) =~= fe_vals(pc@) + fe_vals(rb@) + fe_vals(rc@));
        }
        let add_b = add_mle.eval(&pb_rb_rc);
        let add_c = add_mle.eval(&pc_rb_rc);
        let mul_b = mul_mle.eval(&pb_rb_rc);
        let mul_c = mul_mle.eval(&pc_rb_rc);
        let addv = alpha.mul(add_b).add(beta.mul(add_c));
        let mulv = alpha.mul(mul_b).add(beta.mul(mul_c));
        let wb = proof.w_i_b[li - 1];
        let wc = proof.w_i_c[li - 1];
        let expected = addv.mul(wb.add(wc)).add(mulv.mul(wb.mul(wc)));
        if expected.v != fv.v {
            return Err(GkrError::LayerMismatch);
        }
        let wbb = wb.to_bytes();
        ts.append(&wbb);
        let wcb = wc.to_bytes();
        ts.append(&wcb);
        let na = ts.sample();
        let nb = ts.sample();
        let claim2 = na.mul(wb).add(nb.mul(wc));
        verify_layers_exec(circuit, evals, proof, nv, li + 1, na, rb, nb, rc, claim2, ts)
    }
}

/// Proving is deterministic: on one circuit and one evaluation, every
/// honest proof run yields byte-for-byte the same proof, because the
/// transcript's challenges are a function of the appended messages alone.
pub proof fn lemma_prove_deterministic(
    cv: Seq<Seq<Gate>>,
    evv: Seq<Seq<int>>,
    p1: (Seq<Seq<(int, int, int)>>, Seq<int>, Seq<int>),
    p2: (Seq<Seq<(int, int, int)>>, Seq<int>, Seq<int>),
)
    requires
        p1 == prove_spec(cv, evv),
        p2 == prove_spec(cv, evv),
    ensures
        p1 == p2,
{
}

/// The shape invariant of every honest proof: the reduction emits exactly
/// one sub-proof and one claimed-evaluation pair per remaining layer
/// transition.
pub proof fn lemma_prove_layers_shape(
    cv: Seq<Seq<Gate>>,
    evv: Seq<Seq<int>>,
    l: nat,
    alpha: int,
    pb: Seq<int>,
    beta: int,
    pc: Seq<int>,
    ts: Seq<u8>,
)
    requires
        l >= 1,
    ensures
        prove_layers_spec(cv, evv, l, alpha, pb, beta, pc, ts).0.len() == if l <= cv.len() {
            cv.len() - l
        } else {
            0
        },
        prove_layers_spec(cv, evv, l, alpha, pb, beta, pc, ts).1.len() == prove_layers_spec(
            cv,
            evv,
            l,
            alpha,
            pb,
            beta,
            pc,
            ts,
        ).0.len(),
        prove_layers_spec(cv, evv, l, alpha, pb, beta, pc, ts).2.len() == prove_layers_spec(
            cv,
            evv,
            l,
            alpha,
            pb,
            beta,
            pc,
            ts,
        ).0.len(),
    decreases cv.len() - l,
{
    if l < cv.len() {
        let v = lg(cv[l as int].len());
        let w_tab = evv[l as int];
        let add_tab = wiring_table_spec(cv[l - 1], cv[l as int].len() as int, false);
        let mul_tab = wiring_table_spec(cv[l - 1], cv[l as int].len() as int, true);
        let addc = scaled_sum_seq(alpha, fold_all(add_tab, pb), beta, fold_all(add_tab, pc));
        let mulc = scaled_sum_seq(alpha, fold_all(mul_tab, pb), beta, fold_all(mul_tab, pc));
        let tv = seq![
            (addc, add_distinct_seq(w_tab, w_tab)),
            (mulc, mul_distinct_seq(w_tab, w_tab)),
        ];
        let sc = sum_check_prove_spec(tv, 2 * v, ts);
        let ts1 = sc.2 + sum_check_proof_bytes(sc.0);
        let rb = sc.1.take(v as int);
        let rc = sc.1.skip(v as int);
        let wb = eval_mle(w_tab, rb);
        let wc = eval_mle(w_tab, rc);
        let ts2 = ts1 + fe_bytes(wb) + fe_bytes(wc);
        let na = squeeze_val(sha256_of(ts2));
        let ts3 = squeezed_state(ts2);
        let nb = squeeze_val(sha256_of(ts3));
        let ts4 = squeezed_state(ts3);
        lemma_prove_layers_shape(cv, evv, l + 1, na, rb, nb, rc, ts4);
    }
}

/// Every honest proof satisfies the shape invariant: as many sub-proofs
/// and claimed-evaluation pairs as the circuit has layer transitions.
pub proof fn lemma_proof_shape_invariant(cv: Seq<Seq<Gate>>, evv: Seq<Seq<int>>)
    requires
        cv.len() >= 1,
    ensures
        prove_spec(cv, evv).0.len() == cv.len() - 1,
        prove_spec(cv, evv).1.len() == cv.len() - 1,
        prove_spec(cv, evv).2.len() == cv.len() - 1,
{
    lemma_prove_layers_shape(cv, evv, 1, 1, Seq::empty(), 0, Seq::empty(), fes_bytes(evv[0]));
}

/// A circuit with a single layer has no reduction rounds: the empty proof
/// is accepted, and the whole verification rests on the output layer
/// recomputed from the input.
pub proof fn lemma_single_layer_trivial_verify(cv: Seq<Seq<Gate>>, iv: Seq<int>)
    requires
        cv.len() == 1,
        circuit_shapes_ok(cv),
        ranges_ok(cv, iv.len() as int),
    ensures
        verify_spec(cv, iv, (Seq::empty(), Seq::empty(), Seq::empty())) is Ok,
{
}

/// A proof whose claimed-evaluation sequences disagree in length with its
/// sub-proof sequence is rejected with a shape error before any field
/// arithmetic.
pub proof fn lemma_shape_mismatch_rejected(
    cv: Seq<Seq<Gate>>,
    iv: Seq<int>,
    pv: (Seq<Seq<(int, int, int)>>, Seq<int>, Seq<int>),
)
    requires
        !(pv.0.len() == pv.1.len() && pv.1.len() == pv.2.len()),
    ensures
        verify_spec(cv, iv, pv) == Err::<(), GkrError>(GkrError::InputMismatch),
{
}

} // verus!
