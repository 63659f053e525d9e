use gkr::field::Fe;
use gkr::gkr::{Circuit, Gate, Layer, Op};

fn fe(v: u64) -> Fe {
    Fe::from_u64(v)
}

fn sample_circuit() -> Circuit {
    let gate1 = Gate::new(fe(1), fe(2), Op::Add);
    let gate2 = Gate::new(fe(3), fe(4), Op::Mul);
    let gate3 = Gate::new(fe(5), fe(6), Op::Add);
    let gate4 = Gate::new(fe(7), fe(8), Op::Add);

    let mut layer = Layer::new();
    layer.add_gate(gate1);
    layer.add_gate(gate2);
    layer.add_gate(gate3);
    layer.add_gate(gate4);

    let mut circuit = Circuit::new();
    circuit.add_layer(layer.clone());

    let _layer1_output = layer.evaluate_layer(vec![Op::Add, Op::Add]);
    circuit.add_layer(layer.clone());
    let _layer2_output = layer.evaluate_layer(vec![Op::Add]);
    circuit.add_layer(layer.clone());
    circuit
}

#[test]
fn test_add_i_or_mul_i() {
    let circuit = sample_circuit();
    let _v = circuit.layers[0].clone();
    let (add_i, mul_i) = circuit.add_i_or_mul_i(0);
    assert_eq!(add_i.len(), 8);
    assert_eq!(mul_i.len(), 8);
    let gkr_proof = circuit.prove();
    assert!(circuit.verify(&gkr_proof));
}

#[test]
fn test_gate() {
    let left = fe(2);
    let right = fe(3);
    let gate = Gate::new(left, right, Op::Add);
    assert_eq!(gate.output, fe(5));
}

#[test]
fn test_compute_circuits() {
    let circuit = sample_circuit();
    let _v = circuit.layers[0].clone();
    let indices = circuit.generate_gate_indices_for_layer_i(1);
    assert_eq!(indices, vec!["00001", "11011"]);
}

#[test]
fn test_addi() {
    let indices = vec![fe(0), fe(0), fe(1)];
    let values = vec![fe(4), fe(2), fe(3)];
    let _res = Circuit::add_i(indices, values);
}

#[test]
fn test_gkr_end_to_end() {
    // depth-3 circuit over the leaf gates Add(1,2), Mul(3,4), Add(5,6),
    // Add(7,8), reduced through two further Add layers
    let circuit = sample_circuit();
    let gkr_proof = circuit.prove();
    assert!(circuit.verify(&gkr_proof));
}

#[test]
fn test_gkr_flipped_operator_rejected() {
    for layer in 0..3usize {
        let circuit = sample_circuit();
        let gates = circuit.layers[layer].gates.len();
        for g in 0..gates {
            let mut tampered = circuit.clone();
            let old = tampered.layers[layer].gates[g].op;
            tampered.layers[layer].gates[g].op = match old {
                Op::Add => Op::Mul,
                Op::Mul => Op::Add,
            };
            let gkr_proof = tampered.prove();
            assert!(!tampered.verify(&gkr_proof));
        }
    }
}

#[test]
fn test_w_i_wraps_value_table() {
    let values = vec![fe(3), fe(12), fe(11), fe(15)];
    let poly = Circuit::w_i(values.clone()).unwrap();
    assert_eq!(poly.representation, values);
    assert!(Circuit::w_i(vec![fe(1), fe(2), fe(3)]).is_err());
}

#[test]
fn test_gkr_proof_deterministic() {
    let circuit = sample_circuit();
    let p1 = circuit.prove();
    let p2 = circuit.prove();
    assert_eq!(p1, p2);
}
