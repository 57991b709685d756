//! Layered arithmetic circuits of two-input `Add`/`Mul` gates, their
//! bottom-up evaluation, and the wiring-predicate tables the protocol
//! reduces over.
//!
//! Layers are stored output first: layer `0` is the single-output root,
//! each gate of layer `l` reads two values of layer `l + 1`, and the last
//! layer's gates read the circuit input directly.

use vstd::prelude::*;

use vstd::arithmetic::power2::pow2;

use crate::errors::GkrError;
use crate::field::{fadd, fmul, fe_vals, fe_wf, fes_wf, Fe};
use crate::mle::{mle_wf, Mle};

verus! {

/// The operation a gate applies to its two inputs.
#[derive(Clone, Copy, Debug, PartialEq, Eq, Structural)]
pub enum GateType {
    Add,
    Mul,
}

/// A two-input gate: an operation and the indices of its inputs in the
/// previous layer's outputs (or in the circuit input, for the last layer).
#[derive(Clone, Copy, Debug, PartialEq, Eq, Structural)]
pub struct Gate {
    pub op: GateType,
    pub left: usize,
    pub right: usize,
}

impl Gate {
    /// A gate from an operation and its two input indices.
    pub fn new(op: GateType, inputs: [usize; 2]) -> (g: Gate)
        ensures
            g.op == op,
            g.left == inputs[0],
            g.right == inputs[1],
    {
        Gate { op, left: inputs[0], right: inputs[1] }
    }
}

/// One layer of gates.
pub struct CircuitLayer {
    pub gates: Vec<Gate>,
}

impl CircuitLayer {
    /// A layer from its ordered gates.
    pub fn new(gates: Vec<Gate>) -> (l: CircuitLayer)
        ensures
            l.gates@ == gates@,
    {
        CircuitLayer { gates }
    }
}

/// A layered circuit, output layer first.
pub struct Circuit {
    pub layers: Vec<CircuitLayer>,
}

impl View for Circuit {
    type V = Seq<Seq<Gate>>;

    open spec fn view(&self) -> Seq<Seq<Gate>> {
        self.layers@.map_values(|l: CircuitLayer| l.gates@)
    }
}

/// The per-layer outputs of a circuit run, output layer first; one value
/// per gate of the matching layer.
pub struct CircuitEvaluation {
    pub layers: Vec<Vec<Fe>>,
}

impl View for CircuitEvaluation {
    type V = Seq<Seq<int>>;

    open spec fn view(&self) -> Seq<Seq<int>> {
        self.layers@.map_values(|v: Vec<Fe>| fe_vals(v@))
    }
}

/// Every stored value of the evaluation is a reduced field element.
pub open spec fn evaluation_wf(ev: CircuitEvaluation) -> bool {
    forall|l: int| 0 <= l < ev.layers@.len() ==> fes_wf(#[trigger] ev.layers@[l]@)
}

/// The width feeding layer `l`'s gates: the next layer's width, or the
/// input length for the last layer.
pub open spec fn next_width(cv: Seq<Seq<Gate>>, n_inputs: int, l: int) -> int {
    if l == cv.len() - 1 {
        n_inputs
    } else {
        cv[l + 1].len() as int
    }
}

/// Every gate of every layer reads indices inside the layer below it.
pub open spec fn ranges_ok(cv: Seq<Seq<Gate>>, n_inputs: int) -> bool {
    forall|l: int, i: int|
        0 <= l < cv.len() && 0 <= i < cv[l].len() ==> (#[trigger] cv[l][i]).left < next_width(
            cv,
            n_inputs,
            l,
        ) && cv[l][i].right < next_width(cv, n_inputs, l)
}

/// The output of one gate given the values it reads from.
pub open spec fn gate_eval(g: Gate, prev: Seq<int>) -> int {
    if g.op is Add {
        fadd(prev[g.left as int], prev[g.right as int])
    } else {
        fmul(prev[g.left as int], prev[g.right as int])
    }
}

/// The outputs of one layer of gates.
pub open spec fn layer_eval(gates: Seq<Gate>, prev: Seq<int>) -> Seq<int> {
    Seq::new(gates.len(), |i: int| gate_eval(gates[i], prev))
}

/// The per-layer outputs of the circuit suffix `cv` on `input`, computed
/// bottom up, output first.
pub open spec fn eval_layers(cv: Seq<Seq<Gate>>, input: Seq<int>) -> Seq<Seq<int>>
    decreases cv.len(),
{
    if cv.len() == 0 {
        Seq::empty()
    } else {
        let rest = eval_layers(cv.drop_first(), input);
        let prev = if cv.len() == 1 {
            input
        } else {
            rest[0]
        };
        seq![layer_eval(cv.first(), prev)] + rest
    }
}

/// Whether a gate of the layer routes this `(a, b, c)` triple with the
/// wanted operation: entry `k` decodes as `a = k / w^2`,
/// `b = (k % w^2) / w`, `c = k % w` over feeding width `w`.
pub open spec fn gate_matches(gates: Seq<Gate>, w: int, k: int, want_mul: bool) -> bool {
    let a = k / (w * w);
    let b = (k % (w * w)) / w;
    let c = k % w;
    &&& gates[a].left == b
    &&& gates[a].right == c
    &&& if want_mul {
        gates[a].op is Mul
    } else {
        gates[a].op is Add
    }
}

/// The wiring-predicate table over `(a, b, c)`: 1 where gate `a` combines
/// inputs `b, c` with the wanted operation, else 0.
pub open spec fn wiring_table_spec(gates: Seq<Gate>, w: int, want_mul: bool) -> Seq<int> {
    Seq::new((gates.len() * w * w) as nat, |k: int| if gate_matches(gates, w, k, want_mul) {
        1
    } else {
        0
    })
}

/// Decodes the flat index `a*w*w + b*w + c` back into its three digits.
proof fn lemma_abc_decode(a: int, b: int, c: int, w: int)
    requires
        0 < w,
        0 <= a,
        0 <= b < w,
        0 <= c < w,
    ensures
        (a * w * w + b * w + c) / (w * w) == a,
        ((a * w * w + b * w + c) % (w * w)) / w == b,
        (a * w * w + b * w + c) % w == c,
{
    let k = a * w * w + b * w + c;
    assert(0 <= b * w + c < w * w) by (nonlinear_arith)
        requires
            0 < w,
            0 <= b < w,
            0 <= c < w,
    ;
    assert(a * w * w + b * w + c == a * (w * w) + (b * w + c)) by (nonlinear_arith);
    vstd::arithmetic::div_mod::lemma_fundamental_div_mod_converse(k, w * w, a, b * w + c);
    vstd::arithmetic::div_mod::lemma_fundamental_div_mod_converse(b * w + c, w, b, c);
    assert(a * w * w + b * w + c == (a * w + b) * w + c) by (nonlinear_arith);
    vstd::arithmetic::div_mod::lemma_fundamental_div_mod_converse(k, w, a * w + b, c);
}

/// The exact power-of-two exponent of `n`, when one exists.
pub fn log2_exact(n: usize) -> (r: Option<usize>)
    ensures
        r is Some ==> n == pow2(r->0 as nat),
        r is None ==> forall|k: nat| pow2(k) != n,
    decreases n,
{
    if n == 0 {
        proof {
            assert forall|k: nat| pow2(k) != n by {
                vstd::arithmetic::power2::lemma_pow2_pos(k);
            }
        }
        None
    } else if n == 1 {
        proof {
            vstd::arithmetic::power2::lemma2_to64();
        }
        Some(0)
    } else if n % 2 == 1 {
        proof {
            assert forall|k: nat| pow2(k) != n by {
                vstd::arithmetic::power2::lemma2_to64();
                if k > 0 {
                    vstd::arithmetic::power2::lemma_pow2_unfold(k);
                }
            }
        }
        None
    } else {
        match log2_exact(n / 2) {
            Some(k) => {
                proof {
                    crate::mle::lemma_pow2_above(k as nat);
                    vstd::arithmetic::power2::lemma_pow2_unfold((k + 1) as nat);
                }
                Some(k + 1)
            },
            None => {
                proof {
                    assert forall|k: nat| pow2(k) != n by {
                        vstd::arithmetic::power2::lemma2_to64();
                        if k > 0 {
                            vstd::arithmetic::power2::lemma_pow2_unfold(k);
                            assert(pow2((k - 1) as nat) != n / 2);
                        }
                    }
                }
                None
            },
        }
    }
}

/// The evaluation has one row per layer, each as wide as its layer.
pub proof fn lemma_eval_layers_shape(cv: Seq<Seq<Gate>>, iv: Seq<int>)
    ensures
        eval_layers(cv, iv).len() == cv.len(),
        forall|j: int| 0 <= j < cv.len() ==> (#[trigger] eval_layers(cv, iv)[j]).len()
            == cv[j].len(),
    decreases cv.len(),
{
    if cv.len() > 0 {
        lemma_eval_layers_shape(cv.drop_first(), iv);
        assert forall|j: int| 0 <= j < cv.len() implies (#[trigger] eval_layers(cv, iv)[j]).len()
            == cv[j].len() by {
            if j > 0 {
                assert(eval_layers(cv, iv)[j] == eval_layers(cv.drop_first(), iv)[j - 1]);
                assert(cv.drop_first()[j - 1] == cv[j]);
            }
        }
    }
}

/// Two powers of two agree only on equal exponents.
pub proof fn lemma_pow2_inj(a: nat, b: nat)
    requires
        pow2(a) == pow2(b),
    ensures
        a == b,
{
    if a < b {
        vstd::arithmetic::power2::lemma_pow2_strictly_increases(a, b);
    }
    if b < a {
        vstd::arithmetic::power2::lemma_pow2_strictly_increases(b, a);
    }
}

impl Circuit {
    /// A circuit from its layers, output layer first.
    pub fn new(layers: Vec<CircuitLayer>) -> (c: Circuit)
        ensures
            c.layers@ == layers@,
    {
        Circuit { layers }
    }

    /// Runs the circuit bottom up on `input`, recording every layer's
    /// outputs; rejects a circuit whose gates read out of range.
    pub fn evaluate(&self, input: &Vec<Fe>) -> (r: Result<CircuitEvaluation, GkrError>)
        requires
            fes_wf(input@),
        ensures
            r is Ok <==> ranges_ok(self@, input@.len() as int),
            r is Err ==> r == Err::<CircuitEvaluation, GkrError>(GkrError::InputMismatch),
            r is Ok ==> (r->Ok_0)@ == eval_layers(self@, fe_vals(input@)) && evaluation_wf(
                r->Ok_0,
            ),
    {
        let ghost cv = self@;
        let ghost iv = fe_vals(input@);
        let depth = self.layers.len();
        let mut out: Vec<Vec<Fe>> = Vec::new();
        let mut l: usize = depth;
        proof {
            assert(out@.map_values(|v: Vec<Fe>| fe_vals(v@)) =~= eval_layers(
                cv.skip(depth as int),
                iv,
            ));
        }
        while l > 0
            invariant
                l <= depth,
                depth == cv.len(),
                cv == self@,
                iv == fe_vals(input@),
                fes_wf(input@),
                out@.len() == depth - l,
                forall|j: int| 0 <= j < out@.len() ==> fes_wf(#[trigger] out@[j]@),
                out@.map_values(|v: Vec<Fe>| fe_vals(v@)) == eval_layers(cv.skip(l as int), iv),
                forall|l2: int, i: int|
                    l <= l2 < depth && 0 <= i < cv[l2].len() ==> (#[trigger] cv[l2][i]).left
                        < next_width(cv, iv.len() as int, l2) && cv[l2][i].right < next_width(
                        cv,
                        iv.len() as int,
                        l2,
                    ),
            decreases l,
        {
            l -= 1;
            let ghost pre_out = out@;
            let gates = &self.layers[l].gates;
            let mut row: Vec<Fe> = Vec::new();
            let mut i: usize = 0;
            let ghost pv = if l == depth - 1 {
                iv
            } else {
                eval_layers(cv.skip(l + 1), iv)[0]
            };
            proof {
                if l < depth - 1 {
                    let s = cv.skip(l + 1);
                    assert(s.first() == cv[l + 1]);
                    assert(eval_layers(s, iv) == seq![
                        layer_eval(
                            s.first(),
                            if s.len() == 1 {
                                iv
                            } else {
                                eval_layers(s.drop_first(), iv)[0]
                            },
                        ),
                    ] + eval_layers(s.drop_first(), iv));
                    assert(eval_layers(s, iv)[0].len() == cv[l + 1].len());
                    assert(pv == fe_vals(out@[0]@));
                }
            }
            while i < gates.len()
                invariant
                    i <= gates@.len(),
                    gates@ == cv[l as int],
                    0 <= l < depth,
                    depth == cv.len(),
                    cv == self@,
                    iv == fe_vals(input@),
                    fes_wf(input@),
                    out@ == pre_out,
                    out@.len() == depth - l - 1,
                    forall|j: int| 0 <= j < out@.len() ==> fes_wf(#[trigger] out@[j]@),
                    out@.map_values(|v: Vec<Fe>| fe_vals(v@)) == eval_layers(cv.skip(l + 1), iv),
                    pv == (if l == depth - 1 {
                        iv
                    } else {
                        eval_layers(cv.skip(l + 1), iv)[0]
                    }),
                    pv.len() == next_width(cv, iv.len() as int, l as int),
                    l == depth - 1 ==> pv == iv,
                    l < depth - 1 ==> pv == fe_vals(out@[0]@),
                    row@.len() == i,
                    fes_wf(row@),
                    forall|j: int| 0 <= j < i ==> fe_vals(row@)[j] == layer_eval(cv[l as int], pv)[j],
                    forall|j: int| 0 <= j < i ==> (#[trigger] cv[l as int][j]).left < pv.len()
                        && cv[l as int][j].right < pv.len(),
                decreases gates@.len() - i,
            {
                let g = gates[i];
                let w = if l == depth - 1 {
                    input.len()
                } else {
                    out[0].len()
                };
                proof {
                    assert(w == pv.len());
                }
                if g.left >= w || g.right >= w {
                    proof {
                        assert(!ranges_ok(cv, iv.len() as int)) by {
                            assert(cv[l as int][i as int] == g);
                        }
                    }
                    return Err(GkrError::InputMismatch);
                }
                let a = if l == depth - 1 {
                    input[g.left]
                } else {
                    out[0][g.left]
                };
                let b = if l == depth - 1 {
                    input[g.right]
                } else {
                    out[0][g.right]
                };
                let ghost pre_row = fe_vals(row@);
                let v = match g.op {
                    GateType::Add => a.add(b),
                    GateType::Mul => a.mul(b),
                };
                row.push(v);
                proof {
                    assert(fe_vals(row@) =~= pre_row.push(v.val()));
                    assert(a.val() == pv[g.left as int]);
                    assert(b.val() == pv[g.right as int]);
                }
                i += 1;
            }
            out.insert(0, row);
            proof {
                assert(cv.skip(l as int).first() == cv[l as int]);
                assert(cv.skip(l as int).drop_first() =~= cv.skip(l + 1));
                assert(fe_vals(row@) =~= layer_eval(cv[l as int], pv));
                assert(out@.map_values(|v: Vec<Fe>| fe_vals(v@)) =~= seq![fe_vals(row@)]
                    + pre_out.map_values(|v: Vec<Fe>| fe_vals(v@)));
            }
        }
        proof {
            assert(cv.skip(0) =~= cv);
            assert forall|l2: int, i: int|
                0 <= l2 < cv.len() && 0 <= i < cv[l2].len() implies (#[trigger] cv[l2][i]).left
                < next_width(cv, iv.len() as int, l2) && cv[l2][i].right < next_width(
                cv,
                iv.len() as int,
                l2,
            ) by {}
        }
        Ok(CircuitEvaluation { layers: out })
    }

    /// The two wiring-predicate tables for the transition from layer `t`
    /// to the layer below it.
    pub fn add_n_mul_mle(&self, t: usize, v_a: usize, v_b: usize) -> (r: (Mle, Mle))
        requires
            t + 1 < self.layers@.len(),
            self@[t as int].len() == pow2(v_a as nat),
            self@[t as int + 1].len() == pow2(v_b as nat),
            self@[t as int].len() * self@[t as int + 1].len() * self@[t as int + 1].len()
                <= usize::MAX,
        ensures
            mle_wf(r.0),
            mle_wf(r.1),
            r.0.n_vars == v_a + 2 * v_b,
            r.1.n_vars == v_a + 2 * v_b,
            r.0@ == wiring_table_spec(self@[t as int], self@[t as int + 1].len() as int, false),
            r.1@ == wiring_table_spec(self@[t as int], self@[t as int + 1].len() as int, true),
    {
        let ghost cv = self@;
        let depth = self.layers.len();
        let gates = &self.layers[t].gates;
        let w = self.layers[t + 1].gates.len();
        let ghost wi = w as int;
        let ghost glen = gates@.len() as int;
        let mut add_out: Vec<Fe> = Vec::new();
        let mut mul_out: Vec<Fe> = Vec::new();
        let zero = Fe::zero();
        let one = Fe::one();
        let mut a: usize = 0;
        while a < gates.len()
            invariant
                a <= glen,
                glen == gates@.len(),
                gates@ == cv[t as int],
                wi == w,
                wi == cv[t as int + 1].len(),
                cv == self@,
                glen * wi * wi <= usize::MAX,
                zero.val() == 0,
                one.val() == 1,
                fe_wf(zero),
                fe_wf(one),
                add_out@.len() == a * wi * wi,
                mul_out@.len() == a * wi * wi,
                fes_wf(add_out@),
                fes_wf(mul_out@),
                forall|k: int| 0 <= k < a * wi * wi ==> fe_vals(add_out@)[k] == wiring_table_spec(
                    cv[t as int],
                    wi,
                    false,
                )[k],
                forall|k: int| 0 <= k < a * wi * wi ==> fe_vals(mul_out@)[k] == wiring_table_spec(
                    cv[t as int],
                    wi,
                    true,
                )[k],
            decreases glen - a,
        {
            proof {
                assert((a + 1) * wi * wi <= glen * wi * wi) by (nonlinear_arith)
                    requires
                        a < glen,
                        wi >= 0,
                ;
                assert(a * wi * wi + wi * wi == (a + 1) * wi * wi) by (nonlinear_arith);
            }
            let g = gates[a];
            let mut b: usize = 0;
            while b < w
                invariant
                    b <= wi,
                    a < glen,
                    glen == gates@.len(),
                    gates@ == cv[t as int],
                    wi == w,
                    cv == self@,
                    g == cv[t as int][a as int],
                    zero.val() == 0,
                    one.val() == 1,
                    fe_wf(zero),
                    fe_wf(one),
                    a * wi * wi + wi * wi <= usize::MAX,
                    add_out@.len() == a * wi * wi + b * wi,
                    mul_out@.len() == a * wi * wi + b * wi,
                    fes_wf(add_out@),
                    fes_wf(mul_out@),
                    forall|k: int| 0 <= k < a * wi * wi + b * wi ==> fe_vals(add_out@)[k]
                        == wiring_table_spec(cv[t as int], wi, false)[k],
                    forall|k: int| 0 <= k < a * wi * wi + b * wi ==> fe_vals(mul_out@)[k]
                        == wiring_table_spec(cv[t as int], wi, true)[k],
                decreases wi - b,
            {
                proof {
                    assert(b * wi + wi == (b + 1) * wi) by (nonlinear_arith);
                    assert((b + 1) * wi <= wi * wi) by (nonlinear_arith)
                        requires
                            b < wi,
                            wi >= 0,
                    ;
                }
                let mut c: usize = 0;
                while c < w
                    invariant
                        c <= wi,
                        b < wi,
                        a < glen,
                        glen == gates@.len(),
                        gates@ == cv[t as int],
                        wi == w,
                        cv == self@,
                        g == cv[t as int][a as int],
                        zero.val() == 0,
                        one.val() == 1,
                        fe_wf(zero),
                        fe_wf(one),
                        a * wi * wi + b * wi + wi <= a * wi * wi + wi * wi,
                        a * wi * wi + wi * wi <= usize::MAX,
                        add_out@.len() == a * wi * wi + b * wi + c,
                        mul_out@.len() == a * wi * wi + b * wi + c,
                        fes_wf(add_out@),
                        fes_wf(mul_out@),
                        forall|k: int| 0 <= k < a * wi * wi + b * wi + c ==> fe_vals(add_out@)[k]
                            == wiring_table_spec(cv[t as int], wi, false)[k],
                        forall|k: int| 0 <= k < a * wi * wi + b * wi + c ==> fe_vals(mul_out@)[k]
                            == wiring_table_spec(cv[t as int], wi, true)[k],
                    decreases wi - c,
                {
                    let ghost k = a * wi * wi + b * wi + c;
                    let ghost pre_add = fe_vals(add_out@);
                    let ghost pre_mul = fe_vals(mul_out@);
                    let hit = g.left == b && g.right == c;
                    let is_add_gate = match g.op {
                        GateType::Add => true,
                        GateType::Mul => false,
                    };
                    let av = if hit && is_add_gate {
                        one
                    } else {
                        zero
                    };
                    let mv = if hit && !is_add_gate {
                        one
                    } else {
                        zero
                    };
                    add_out.push(av);
                    mul_out.push(mv);
                    proof {
                        lemma_abc_decode(a as int, b as int, c as int, wi);
                        assert(a * wi * wi + b * wi + c < glen * wi * wi) by (nonlinear_arith)
                            requires
                                0 <= a < glen,
                                0 <= b < wi,
                                0 <= c < wi,
                        ;
                        assert(fe_vals(add_out@) =~= pre_add.push(av.val()));
                        assert(fe_vals(mul_out@) =~= pre_mul.push(mv.val()));
                        assert(wiring_table_spec(cv[t as int], wi, false)[k] == (
                        if gate_matches(cv[t as int], wi, k, false) {
                            1int
                        } else {
                            0int
                        }));
                        assert(wiring_table_spec(cv[t as int], wi, true)[k] == (
                        if gate_matches(cv[t as int], wi, k, true) {
                            1int
                        } else {
                            0int
                        }));
                    }
                    c += 1;
                }
                b += 1;
            }
            a += 1;
        }
        proof {
            assert(fe_vals(add_out@) =~= wiring_table_spec(cv[t as int], wi, false));
            assert(fe_vals(mul_out@) =~= wiring_table_spec(cv[t as int], wi, true));
            vstd::arithmetic::power2::lemma_pow2_adds(v_a as nat, v_b as nat);
            vstd::arithmetic::power2::lemma_pow2_adds((v_a + v_b) as nat, v_b as nat);
            assert(pow2(v_a as nat) * pow2(v_b as nat) * pow2(v_b as nat) == pow2(
                (v_a + 2 * v_b) as nat,
            )) by (nonlinear_arith)
                requires
                    pow2((v_a + v_b) as nat) == pow2(v_a as nat) * pow2(v_b as nat),
                    pow2(((v_a + v_b) + v_b) as nat) == pow2((v_a + v_b) as nat) * pow2(
                        v_b as nat,
                    ),
                    (v_a + 2 * v_b) as nat == ((v_a + v_b) + v_b) as nat,
            ;
            crate::mle::lemma_pow2_above((v_a + 2 * v_b) as nat);
        }
        let nv = v_a + 2 * v_b;
        (Mle { n_vars: nv, vals: add_out }, Mle { n_vars: nv, vals: mul_out })
    }
}

} // verus!
