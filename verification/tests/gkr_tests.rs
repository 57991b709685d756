use gkr::circuit::{Circuit, CircuitLayer, Gate, GateType};
use gkr::errors::GkrError;
use gkr::field::{Fe, FIELD_MODULUS, TWO_INV};
use gkr::mle::Mle;
use gkr::protocol::{GKRProof, GKRProtocol};
use gkr::transcript::Transcript;

fn fe(x: u64) -> Fe {
    Fe::from_u64(x)
}

fn fes(xs: &[u64]) -> Vec<Fe> {
    let mut v = Vec::new();
    for &x in xs {
        v.push(fe(x));
    }
    v
}

/// The worked two-layer circuit: one `Mul` over the two outputs of
/// `[Add(0,1), Mul(2,3)]`.
fn sample_circuit() -> Circuit {
    let layer_0 = CircuitLayer::new(vec![Gate::new(GateType::Mul, [0, 1])]);
    let layer_1 = CircuitLayer::new(vec![
        Gate::new(GateType::Add, [0, 1]),
        Gate::new(GateType::Mul, [2, 3]),
    ]);
    Circuit::new(vec![layer_0, layer_1])
}

#[test]
fn test_gkr_protocol() {
    let layer_0 = CircuitLayer::new(vec![Gate::new(GateType::Mul, [0, 1])]);
    let layer_1 = CircuitLayer::new(vec![
        Gate::new(GateType::Add, [0, 1]),
        Gate::new(GateType::Mul, [2, 3]),
    ]);
    let circuit = Circuit::new(vec![layer_0, layer_1]);
    let input = [
        Fe::from_u64(2),
        Fe::from_u64(3),
        Fe::from_u64(4),
        Fe::from_u64(5),
    ];
    let evaluation = circuit.evaluate(&input.to_vec()).unwrap();

    let _proof = GKRProtocol::prove(&circuit, &evaluation).unwrap();
}

#[test]
fn field_ops_exact_values() {
    assert_eq!(fe(3).add(fe(5)).v, 8);
    assert_eq!(fe(3).mul(fe(5)).v, 15);
    assert_eq!(fe(0).sub(fe(1)).v, FIELD_MODULUS - 1);
    assert_eq!(fe(FIELD_MODULUS - 1).add(fe(1)).v, 0);
    assert_eq!(Fe::from_u64(FIELD_MODULUS).v, 0);
    assert_eq!(fe(2).mul(fe(TWO_INV)).v, 1);
}

#[test]
fn fe_byte_encoding_is_little_endian() {
    let b = fe(0x01020304).to_bytes();
    assert_eq!(b, vec![0x04, 0x03, 0x02, 0x01]);
}

#[test]
fn transcript_is_deterministic_and_message_bound() {
    let mut t1 = Transcript::new();
    t1.append(&vec![1, 2, 3]);
    let c1 = t1.sample();
    assert!(c1.v < FIELD_MODULUS);

    let mut t2 = Transcript::new();
    t2.append(&vec![1, 2, 3]);
    let c2 = t2.sample();
    assert_eq!(c1.v, c2.v);

    // A different message must steer the challenge: this fails if the
    // digest ignored its input.
    let mut t3 = Transcript::new();
    t3.append(&vec![1, 2, 4]);
    let c3 = t3.sample();
    assert_ne!(c1.v, c3.v);
}

#[test]
fn mle_evaluates_its_table_at_boolean_points() {
    // Table over two variables; variable 0 is the most significant bit.
    let m = Mle::new(2, fes(&[7, 11, 13, 17]));
    assert_eq!(m.evaluate(&fes(&[0, 0])).unwrap().v, 7);
    assert_eq!(m.evaluate(&fes(&[0, 1])).unwrap().v, 11);
    assert_eq!(m.evaluate(&fes(&[1, 0])).unwrap().v, 13);
    assert_eq!(m.evaluate(&fes(&[1, 1])).unwrap().v, 17);
    // Multilinear in each variable: at (1, 2) the value is
    // 13 + 2*(17 - 13) = 21.
    assert_eq!(m.evaluate(&fes(&[1, 2])).unwrap().v, 21);
}

#[test]
fn mle_evaluate_rejects_wrong_arity() {
    let m = Mle::new(2, fes(&[7, 11, 13, 17]));
    assert_eq!(m.evaluate(&fes(&[0])), Err(GkrError::EvaluationArity));
}

#[test]
fn worked_example_evaluation_and_shape() {
    let circuit = sample_circuit();
    let input = fes(&[2, 3, 4, 5]);
    let evaluation = circuit.evaluate(&input).unwrap();
    assert_eq!(evaluation.layers.len(), 2);
    assert_eq!(evaluation.layers[0], fes(&[100]));
    assert_eq!(evaluation.layers[1], fes(&[5, 20]));

    let proof = GKRProtocol::prove(&circuit, &evaluation).unwrap();
    assert_eq!(proof.sum_check_proofs.len(), 1);
    assert_eq!(proof.w_i_b.len(), 1);
    assert_eq!(proof.w_i_c.len(), 1);
    assert!(GKRProtocol::verify(&circuit, &input, &proof));
}

#[test]
fn completeness_on_a_three_layer_circuit() {
    let layer_0 = CircuitLayer::new(vec![Gate::new(GateType::Mul, [0, 1])]);
    let layer_1 = CircuitLayer::new(vec![
        Gate::new(GateType::Add, [0, 1]),
        Gate::new(GateType::Mul, [2, 3]),
    ]);
    let layer_2 = CircuitLayer::new(vec![
        Gate::new(GateType::Add, [0, 1]),
        Gate::new(GateType::Mul, [1, 2]),
        Gate::new(GateType::Mul, [2, 3]),
        Gate::new(GateType::Add, [0, 3]),
    ]);
    let circuit = Circuit::new(vec![layer_0, layer_1, layer_2]);
    let input = fes(&[1, 2, 3, 4]);
    let evaluation = circuit.evaluate(&input).unwrap();
    assert_eq!(evaluation.layers[2], fes(&[3, 6, 12, 5]));
    assert_eq!(evaluation.layers[1], fes(&[9, 60]));
    assert_eq!(evaluation.layers[0], fes(&[540]));

    let proof = GKRProtocol::prove(&circuit, &evaluation).unwrap();
    assert_eq!(proof.sum_check_proofs.len(), 2);
    assert!(GKRProtocol::verify(&circuit, &input, &proof));
}

#[test]
fn prove_is_deterministic() {
    let circuit = sample_circuit();
    let input = fes(&[2, 3, 4, 5]);
    let evaluation = circuit.evaluate(&input).unwrap();
    let p1 = GKRProtocol::prove(&circuit, &evaluation).unwrap();
    let p2 = GKRProtocol::prove(&circuit, &evaluation).unwrap();
    assert_eq!(p1, p2);
}

#[test]
fn single_layer_circuit_gives_empty_proof() {
    let circuit = Circuit::new(vec![CircuitLayer::new(vec![Gate::new(GateType::Add, [0, 1])])]);
    let input = fes(&[2, 3]);
    let evaluation = circuit.evaluate(&input).unwrap();
    assert_eq!(evaluation.layers[0], fes(&[5]));
    let proof = GKRProtocol::prove(&circuit, &evaluation).unwrap();
    assert_eq!(proof.sum_check_proofs.len(), 0);
    assert_eq!(proof.w_i_b.len(), 0);
    assert_eq!(proof.w_i_c.len(), 0);
    assert!(GKRProtocol::verify(&circuit, &input, &proof));
}

#[test]
fn mutating_any_proof_element_is_rejected() {
    let circuit = sample_circuit();
    let input = fes(&[2, 3, 4, 5]);
    let evaluation = circuit.evaluate(&input).unwrap();
    let proof = GKRProtocol::prove(&circuit, &evaluation).unwrap();
    assert!(GKRProtocol::verify(&circuit, &input, &proof));

    let bump = |x: Fe| Fe::from_u64(x.v + 1);

    let mut tampered = proof.clone();
    tampered.w_i_b[0] = bump(tampered.w_i_b[0]);
    assert!(!GKRProtocol::verify(&circuit, &input, &tampered));

    let mut tampered = proof.clone();
    tampered.w_i_c[0] = bump(tampered.w_i_c[0]);
    assert!(!GKRProtocol::verify(&circuit, &input, &tampered));

    for round in 0..proof.sum_check_proofs[0].rounds.len() {
        for field_idx in 0..3 {
            let mut tampered = proof.clone();
            let rp = &mut tampered.sum_check_proofs[0].rounds[round];
            match field_idx {
                0 => rp.e0 = bump(rp.e0),
                1 => rp.e1 = bump(rp.e1),
                _ => rp.e2 = bump(rp.e2),
            }
            assert!(
                !GKRProtocol::verify(&circuit, &input, &tampered),
                "round {} value {} accepted after tampering",
                round,
                field_idx
            );
        }
    }
}

#[test]
fn shape_mismatch_fails_before_field_arithmetic() {
    let circuit = sample_circuit();
    let input = fes(&[2, 3, 4, 5]);
    let evaluation = circuit.evaluate(&input).unwrap();
    let proof = GKRProtocol::prove(&circuit, &evaluation).unwrap();

    let mut truncated = proof.clone();
    truncated.w_i_b.pop();
    assert_eq!(
        GKRProtocol::verify_checked(&circuit, &input, &truncated),
        Err(GkrError::InputMismatch)
    );

    let mut truncated = proof.clone();
    truncated.w_i_c.pop();
    assert_eq!(
        GKRProtocol::verify_checked(&circuit, &input, &truncated),
        Err(GkrError::InputMismatch)
    );

    let mut truncated = proof;
    truncated.sum_check_proofs.pop();
    assert_eq!(
        GKRProtocol::verify_checked(&circuit, &input, &truncated),
        Err(GkrError::InputMismatch)
    );
}

#[test]
fn empty_sub_proof_is_rejected_as_sum_check_failure() {
    let circuit = sample_circuit();
    let input = fes(&[2, 3, 4, 5]);
    let evaluation = circuit.evaluate(&input).unwrap();
    let proof = GKRProtocol::prove(&circuit, &evaluation).unwrap();
    let mut tampered = proof;
    tampered.sum_check_proofs[0].rounds.clear();
    assert_eq!(
        GKRProtocol::verify_checked(&circuit, &input, &tampered),
        Err(GkrError::SumCheckRejected)
    );
}

#[test]
fn mutated_claimed_evaluation_is_a_layer_mismatch() {
    let circuit = sample_circuit();
    let input = fes(&[2, 3, 4, 5]);
    let evaluation = circuit.evaluate(&input).unwrap();
    let proof = GKRProtocol::prove(&circuit, &evaluation).unwrap();
    let mut tampered = proof;
    tampered.w_i_b[0] = Fe::from_u64(tampered.w_i_b[0].v + 1);
    assert_eq!(
        GKRProtocol::verify_checked(&circuit, &input, &tampered),
        Err(GkrError::LayerMismatch)
    );
}

#[test]
fn dishonest_internal_layer_fails_the_final_input_check() {
    // Internally consistent evaluation (4 * 25 == 100) whose last layer is
    // not what the input dictates ([5, 20]); every transition check passes
    // but the final check against the input-derived layer must fail.
    let circuit = sample_circuit();
    let input = fes(&[2, 3, 4, 5]);
    let fake = gkr::circuit::CircuitEvaluation {
        layers: vec![fes(&[100]), fes(&[4, 25])],
    };
    let proof = GKRProtocol::prove(&circuit, &fake).unwrap();
    assert_eq!(
        GKRProtocol::verify_checked(&circuit, &input, &proof),
        Err(GkrError::FinalInputMismatch)
    );
}

#[test]
fn prove_rejects_mismatched_shapes() {
    let circuit = sample_circuit();
    let input = fes(&[2, 3, 4, 5]);
    let evaluation = circuit.evaluate(&input).unwrap();

    // Wrong layer count.
    let short = gkr::circuit::CircuitEvaluation {
        layers: vec![evaluation.layers[0].clone()],
    };
    assert_eq!(
        GKRProtocol::prove(&circuit, &short).err(),
        Some(GkrError::InputMismatch)
    );

    // Wrong width in one layer.
    let wide = gkr::circuit::CircuitEvaluation {
        layers: vec![fes(&[100]), fes(&[5, 20, 0])],
    };
    assert_eq!(
        GKRProtocol::prove(&circuit, &wide).err(),
        Some(GkrError::InputMismatch)
    );
}

#[test]
fn evaluate_rejects_out_of_range_gate_indices() {
    let circuit = Circuit::new(vec![CircuitLayer::new(vec![Gate::new(GateType::Add, [0, 7])])]);
    let input = fes(&[2, 3]);
    assert_eq!(circuit.evaluate(&input).err(), Some(GkrError::InputMismatch));
}

#[test]
fn verify_rejects_a_proof_for_another_input() {
    let circuit = sample_circuit();
    let input = fes(&[2, 3, 4, 5]);
    let evaluation = circuit.evaluate(&input).unwrap();
    let proof = GKRProtocol::prove(&circuit, &evaluation).unwrap();
    let other_input = fes(&[2, 3, 4, 6]);
    assert!(!GKRProtocol::verify(&circuit, &other_input, &proof));
}

#[test]
fn distinct_variable_combinations_tabulate_pairwise() {
    let f = Mle::new(1, fes(&[2, 3]));
    let g = Mle::new(1, fes(&[5, 7]));
    let s = f.add_distinct(&g);
    let p = f.mul_distinct(&g);
    // Index (b, c) with b the high bit.
    assert_eq!(s.vals, fes(&[7, 9, 8, 10]));
    assert_eq!(p.vals, fes(&[10, 14, 15, 21]));
    assert_eq!(s.n_vars, 2);
    assert_eq!(p.n_vars, 2);
}
