use faer::fx128;
use qcircuit::gate::{
    admission, has_duplicate, is_well_shaped, joint_dimension, operator_dimension,
};
use qcircuit::index::{agrees_elsewhere, bit_at, dimension, is_target, small_index, targets_below};
use qcircuit::matrix::alloc_fits_exec;
use qcircuit::circuit::{label_of, label_state};
use qcircuit::amplitude::is_below;
use qcircuit::unitary::{is_identity_within, is_unit_within, unit_verdict, unit_verdict_within};
use qcircuit::{
    is_identity, is_unit, norm, Circuit, Error, Gate, Matrix, C, DETERMINANT_TOLERANCE,
    IDENTITY_TOLERANCE,
};

const ONE: C = fx128::ONE;
const Z: C = fx128::ZERO;

fn quad(x: f64) -> C {
    C::from_f64(x)
}

fn bits(a: C) -> (u64, u64) {
    (a.0.to_bits(), a.1.to_bits())
}

fn mat(rows: Vec<Vec<C>>) -> Matrix {
    Matrix::from_rows(&rows).unwrap()
}

fn reals(rows: Vec<Vec<f64>>) -> Matrix {
    mat(rows.into_iter().map(|r| r.into_iter().map(quad).collect()).collect())
}

fn assert_entries(m: &Matrix, want: Vec<Vec<f64>>) {
    assert_eq!(m.shape(), (want.len(), want[0].len()));
    for (i, row) in want.iter().enumerate() {
        for (j, x) in row.iter().enumerate() {
            assert_eq!(bits(m.entry(i, j).unwrap()), bits(quad(*x)), "entry ({i}, {j})");
        }
    }
}

fn amplitude(outcome: &[(String, C)], label: &str) -> C {
    outcome.iter().find(|(l, _)| l == label).unwrap().1
}

#[test]
fn tolerances_are_the_stated_doubles() {
    assert_eq!(f64::from_bits(IDENTITY_TOLERANCE), 1e-5);
    assert_eq!(f64::from_bits(DETERMINANT_TOLERANCE), 1e-10);
}

#[test]
fn norm_is_the_magnitude_of_the_pair() {
    assert_eq!(f64::from_bits(norm(qd::Quad(3.0, 4.0))), 5.0);
    assert_eq!(f64::from_bits(norm(qd::Quad(-3.0, 4.0))), 5.0);
    assert_eq!(f64::from_bits(norm(ONE)), 1.0);
    assert_eq!(f64::from_bits(norm(Z)), 0.0);
    assert_eq!(f64::from_bits(norm(quad(-2.0))), 2.0);
}

#[test]
fn is_below_compares_with_the_tolerance() {
    assert!(is_below(quad(0.5e-5), IDENTITY_TOLERANCE));
    assert!(!is_below(quad(1e-5), IDENTITY_TOLERANCE));
    assert!(!is_below(quad(2e-5), IDENTITY_TOLERANCE));
    assert!(is_below(Z, IDENTITY_TOLERANCE));
    assert!(!is_below(quad(f64::NAN), IDENTITY_TOLERANCE));
    assert!(!is_below(quad(f64::INFINITY), IDENTITY_TOLERANCE));
    assert!(is_below(quad(-0.5e-10), DETERMINANT_TOLERANCE));
    assert!(!is_below(quad(-2e-10), DETERMINANT_TOLERANCE));
}

#[test]
fn from_rows_keeps_every_entry() {
    let m = reals(vec![vec![1.0, 2.0, 3.0], vec![4.0, 5.0, 6.0]]);
    assert_entries(&m, vec![vec![1.0, 2.0, 3.0], vec![4.0, 5.0, 6.0]]);
    assert!(m.entry(2, 0).is_none());
    assert!(m.entry(0, 3).is_none());
}

#[test]
fn from_rows_rejects_ragged_rows() {
    assert!(Matrix::from_rows(&vec![vec![ONE, Z], vec![ONE]]).is_none());
    assert!(Matrix::from_rows(&vec![vec![], vec![ONE]]).is_none());
}

#[test]
fn from_rows_of_nothing_is_empty() {
    let m = Matrix::from_rows(&vec![]).unwrap();
    assert_eq!(m.shape(), (0, 0));
}

#[test]
fn alloc_fits_exec_knows_the_limits() {
    assert!(alloc_fits_exec(2, 2));
    assert!(alloc_fits_exec(0, 0));
    assert!(alloc_fits_exec(1000, 0));
    assert!(!alloc_fits_exec(usize::MAX, 0));
    assert!(!alloc_fits_exec(usize::MAX, 1));
    assert!(!alloc_fits_exec(usize::MAX / 16, 1));
    assert!(!alloc_fits_exec(1 << 31, 1 << 31));
}

#[test]
fn dimension_is_two_to_the_n() {
    assert_eq!(dimension(0), Some(1));
    assert_eq!(dimension(3), Some(8));
    assert_eq!(dimension(10), Some(1024));
    assert_eq!(dimension(usize::BITS as usize - 1), Some(1 << (usize::BITS - 1)));
    assert_eq!(dimension(usize::BITS as usize), None);
    assert_eq!(dimension(usize::MAX), None);
}

#[test]
fn operator_dimension_stops_at_what_can_be_held() {
    assert_eq!(operator_dimension(0), Some(1));
    assert_eq!(operator_dimension(2), Some(4));
    assert_eq!(operator_dimension(usize::BITS as usize / 2), None);
    assert_eq!(operator_dimension(usize::MAX), None);
    assert_eq!(joint_dimension(1, 2), Some(8));
    assert_eq!(joint_dimension(usize::MAX, 1), None);
    assert_eq!(joint_dimension(1, usize::MAX), None);
}

#[test]
fn bit_at_reads_single_bits() {
    assert_eq!(bit_at(0b101, 0), 1);
    assert_eq!(bit_at(0b101, 1), 0);
    assert_eq!(bit_at(0b101, 2), 1);
    assert_eq!(bit_at(0b101, 3), 0);
    assert_eq!(bit_at(usize::MAX, usize::BITS as usize - 1), 1);
    assert_eq!(bit_at(usize::MAX, usize::BITS as usize), 0);
    assert_eq!(bit_at(usize::MAX, usize::MAX), 0);
}

#[test]
fn small_index_gathers_in_list_order() {
    assert_eq!(small_index(0b101, &vec![0, 2]), 0b11);
    assert_eq!(small_index(0b100, &vec![0, 2]), 0b10);
    assert_eq!(small_index(0b100, &vec![2, 0]), 0b01);
    assert_eq!(small_index(0b110, &vec![1]), 1);
    assert_eq!(small_index(0b110, &vec![0]), 0);
    assert_eq!(small_index(0b110, &vec![]), 0);
    assert_eq!(small_index(0b0110, &vec![3, 2, 1, 0]), 0b0110);
    assert_eq!(small_index(0b0010, &vec![3, 2, 1, 0]), 0b0100);
}

#[test]
fn agrees_elsewhere_ignores_the_targets() {
    assert!(agrees_elsewhere(0b101, 0b100, 3, &vec![0]));
    assert!(!agrees_elsewhere(0b101, 0b100, 3, &vec![1]));
    assert!(agrees_elsewhere(0b101, 0b010, 3, &vec![0, 1, 2]));
    assert!(!agrees_elsewhere(0b101, 0b001, 3, &vec![0, 1]));
    assert!(agrees_elsewhere(0b101, 0b001, 2, &vec![]));
    assert!(agrees_elsewhere(0b11, 0b11, 2, &vec![]));
}

#[test]
fn target_lists_are_searched() {
    assert!(is_target(&vec![3, 1], 1));
    assert!(!is_target(&vec![3, 1], 2));
    assert!(!is_target(&vec![], 0));
    assert!(targets_below(&vec![0, 1, 2], 3));
    assert!(!targets_below(&vec![0, 3], 3));
    assert!(targets_below(&vec![], 0));
    assert!(!has_duplicate(&vec![2, 0, 1]));
    assert!(has_duplicate(&vec![2, 0, 2]));
    assert!(!has_duplicate(&vec![]));
}

#[test]
fn labels_are_binary_with_leading_zeros() {
    assert_eq!(label_of(5, 3), "101");
    assert_eq!(label_of(1, 4), "0001");
    assert_eq!(label_of(0, 2), "00");
    assert_eq!(label_of(6, 3), "110");
    assert_eq!(label_of(0, 0), "");
}

#[test]
fn label_state_lists_by_index() {
    let v = Circuit::new(2).get_vec(2).unwrap();
    let listed = label_state(&v, 2);
    let labels: Vec<&str> = listed.iter().map(|(l, _)| l.as_str()).collect();
    assert_eq!(labels, vec!["00", "01", "10", "11"]);
    assert_eq!(bits(listed[2].1), bits(ONE));
    assert_eq!(bits(listed[0].1), bits(Z));
    assert_eq!(bits(listed[1].1), bits(Z));
    assert_eq!(bits(listed[3].1), bits(Z));
}

#[test]
fn run_lists_every_label_once_in_order() {
    let mut c = Circuit::new(3);
    c.h(0).unwrap();
    let res = c.run().unwrap();
    let labels: Vec<&str> = res.iter().map(|(l, _)| l.as_str()).collect();
    assert_eq!(labels, vec!["000", "001", "010", "011", "100", "101", "110", "111"]);
}

#[test]
fn run_without_gates_is_the_zero_state() {
    let res = Circuit::new(2).run().unwrap();
    assert_eq!(res.len(), 4);
    assert_eq!(bits(amplitude(&res, "00")), bits(ONE));
    assert_eq!(bits(amplitude(&res, "01")), bits(Z));
    assert_eq!(bits(amplitude(&res, "10")), bits(Z));
    assert_eq!(bits(amplitude(&res, "11")), bits(Z));
}

#[test]
fn run_without_qubits_fails() {
    assert_eq!(Circuit::new(0).run().err(), Some(Error::NoQubits));
}

#[test]
fn get_vec_rejects_an_index_out_of_range() {
    let c = Circuit::new(3);
    assert_eq!(c.get_vec(8).err(), Some(Error::InvalidInitialIndex));
    assert_eq!(c.get_vec(usize::MAX).err(), Some(Error::InvalidInitialIndex));
    assert!(c.get_vec(7).is_ok());
    let none = Circuit::new(0);
    assert_eq!(none.get_vec(0).unwrap().len(), 1);
    assert_eq!(none.get_vec(1).err(), Some(Error::InvalidInitialIndex));
}

#[test]
fn get_vec_is_one_at_the_index_only() {
    let v = Circuit::new(2).get_vec(3).unwrap();
    assert_eq!(v.len(), 4);
    for i in 0..4 {
        let want = if i == 3 { ONE } else { Z };
        assert_eq!(bits(v.entry(i).unwrap()), bits(want));
    }
    assert!(v.entry(4).is_none());
}

#[test]
fn identity_check_has_a_strict_tolerance() {
    assert!(is_identity(&reals(vec![vec![1.0 + 0.5e-5, 0.5e-5], vec![-0.5e-5, 1.0 - 0.5e-5]])));
    assert!(!is_identity(&reals(vec![vec![1.0 + 2e-5, 0.0], vec![0.0, 1.0]])));
    assert!(!is_identity(&reals(vec![vec![1.0, 0.0], vec![2e-5, 1.0]])));
    assert!(!is_identity(&reals(vec![vec![1.0, 0.0], vec![0.0, -1.0]])));
    assert!(!is_identity(&reals(vec![vec![1.0, 0.0], vec![0.0, f64::NAN]])));
}

#[test]
fn identity_check_needs_a_square() {
    assert!(!is_identity(&reals(vec![vec![1.0, 0.0, 0.0], vec![0.0, 1.0, 0.0]])));
    assert!(!is_identity(&reals(vec![vec![1.0], vec![0.0]])));
    assert!(is_identity(&Matrix::from_rows(&vec![]).unwrap()));
}

#[test]
fn identity_check_takes_another_tolerance() {
    let m = reals(vec![vec![1.0 + 1e-3, 0.0], vec![0.0, 1.0]]);
    assert!(!is_identity(&m));
    assert!(is_identity_within(&m, 1e-2f64.to_bits()));
    assert!(!is_identity_within(&m, 1e-4f64.to_bits()));
}

#[test]
fn unit_check_uses_the_adjoint() {
    // a rotation: its square is no identity, its product with its transpose is
    let (s, c) = (0.6, 0.8);
    assert!(is_unit(&reals(vec![vec![c, -s], vec![s, c]])));
    assert!(is_unit(&reals(vec![vec![0.0, 1.0], vec![1.0, 0.0]])));
}

#[test]
fn unit_check_rejects_what_is_not_unitary() {
    assert!(!is_unit(&reals(vec![vec![0.0, 0.0], vec![0.0, 0.0]])));
    assert!(!is_unit(&reals(vec![vec![2.0, 0.0], vec![0.0, 0.5]])));
    assert!(!is_unit(&reals(vec![vec![1e-6, 0.0], vec![0.0, 1e-6]])));
    assert!(!is_unit(&reals(vec![vec![1.0, 0.0, 0.0], vec![0.0, 1.0, 0.0]])));
}

#[test]
fn unit_verdict_joins_both_checks() {
    let id = reals(vec![vec![1.0, 0.0], vec![0.0, 1.0]]);
    let off = reals(vec![vec![1.0, 0.1], vec![0.0, 1.0]]);
    assert!(unit_verdict(ONE, &id));
    assert!(unit_verdict(quad(-1.0), &id));
    assert!(unit_verdict(quad(1e-10), &id));
    assert!(!unit_verdict(quad(0.5e-10), &id));
    assert!(!unit_verdict(Z, &id));
    assert!(!unit_verdict(ONE, &off));
}

#[test]
fn admission_names_the_first_failure() {
    let id2 = reals(vec![vec![1.0, 0.0], vec![0.0, 1.0]]);
    let wide = reals(vec![vec![1.0, 0.0, 0.0], vec![0.0, 1.0, 0.0]]);
    assert_eq!(admission(&id2, &vec![0], true), None);
    assert_eq!(admission(&id2, &vec![0], false), Some(Error::NotUnitary));
    assert_eq!(admission(&id2, &vec![0, 1], true), Some(Error::MalformedOperator));
    assert_eq!(admission(&id2, &vec![], true), Some(Error::MalformedOperator));
    assert_eq!(admission(&wide, &vec![0], true), Some(Error::MalformedOperator));
    assert_eq!(admission(&id2, &vec![0, 0], false), Some(Error::MalformedOperator));
    let id4 = Gate::cx(0, 1).unwrap();
    assert_eq!(admission(id4.matrix(), &vec![3, 3], true), Some(Error::DuplicateTarget));
    assert_eq!(admission(id4.matrix(), &vec![3, 3], false), Some(Error::NotUnitary));
}

#[test]
fn construction_rejects_what_is_not_unitary() {
    let m = reals(vec![vec![1.0, 1.0], vec![1.0, 1.0]]);
    assert_eq!(Gate::new(m, vec![0]).err(), Some(Error::NotUnitary));
    let m = reals(vec![vec![1.0, 1.0], vec![0.0, 1.0]]);
    assert_eq!(Gate::new(m, vec![4]).err(), Some(Error::NotUnitary));
}

#[test]
fn construction_checks_shape_then_unitarity_then_targets() {
    let wide = reals(vec![vec![1.0, 0.0, 0.0], vec![0.0, 1.0, 0.0]]);
    assert_eq!(Gate::new(wide, vec![0]).err(), Some(Error::MalformedOperator));
    let id3 = reals(vec![vec![1.0, 0.0, 0.0], vec![0.0, 1.0, 0.0], vec![0.0, 0.0, 1.0]]);
    assert_eq!(Gate::new(id3, vec![0, 0]).err(), Some(Error::MalformedOperator));
    let id2 = reals(vec![vec![1.0, 0.0], vec![0.0, 1.0]]);
    assert_eq!(Gate::new(id2, vec![0, 1]).err(), Some(Error::MalformedOperator));
    let mut bad4 = vec![vec![0.0; 4]; 4];
    bad4[0][0] = 1.0;
    assert_eq!(Gate::new(reals(bad4), vec![1, 1]).err(), Some(Error::NotUnitary));
}

#[test]
fn construction_keeps_operator_and_targets() {
    let (s, c) = (0.6, 0.8);
    let g = Gate::new(reals(vec![vec![c, -s], vec![s, c]]), vec![7]).unwrap();
    assert_eq!(g.qubits(), vec![7]);
    assert_entries(g.matrix(), vec![vec![c, -s], vec![s, c]]);
    let empty = Gate::new(reals(vec![vec![1.0]]), vec![]).unwrap();
    assert_eq!(empty.qubits().len(), 0);
}

#[test]
fn hadamard_has_the_stated_entries() {
    let g = Gate::h(3).unwrap();
    assert_eq!(g.qubits(), vec![3]);
    let m = g.matrix();
    assert_eq!(m.shape(), (2, 2));
    let x = m.entry(0, 0).unwrap();
    assert!((x.0 - std::f64::consts::FRAC_1_SQRT_2).abs() < 1e-15);
    assert!(x.1.abs() < 1e-16);
    assert_eq!(bits(m.entry(0, 1).unwrap()), bits(x));
    assert_eq!(bits(m.entry(1, 0).unwrap()), bits(x));
    assert_eq!(bits(m.entry(1, 1).unwrap()), bits(-x));
    assert_eq!(bits(m.entry(1, 1).unwrap()), (x.0.to_bits() ^ (1 << 63), x.1.to_bits() ^ (1 << 63)));
}

#[test]
fn pauli_x_has_the_stated_entries() {
    let g = Gate::x(1).unwrap();
    assert_eq!(g.qubits(), vec![1]);
    assert_entries(g.matrix(), vec![vec![0.0, 1.0], vec![1.0, 0.0]]);
}

#[test]
fn controlled_x_is_the_identity_with_a_trailing_block() {
    let g = Gate::cx(5, 2).unwrap();
    assert_eq!(g.qubits(), vec![2, 5]);
    assert_entries(
        g.matrix(),
        vec![
            vec![1.0, 0.0, 0.0, 0.0],
            vec![0.0, 1.0, 0.0, 0.0],
            vec![0.0, 0.0, 0.0, 1.0],
            vec![0.0, 0.0, 1.0, 0.0],
        ],
    );
}

#[test]
fn doubly_controlled_x_is_the_identity_with_a_trailing_block() {
    let g = Gate::cnx(vec![0, 1], 2).unwrap();
    assert_eq!(g.qubits(), vec![2, 0, 1]);
    let mut want = vec![vec![0.0; 8]; 8];
    for i in 0..6 {
        want[i][i] = 1.0;
    }
    want[6][7] = 1.0;
    want[7][6] = 1.0;
    assert_entries(g.matrix(), want);
}

#[test]
fn controlled_without_controls_keeps_the_gate() {
    let g = Gate::x(4).unwrap().controlled(vec![]).unwrap();
    assert_eq!(g.qubits(), vec![4]);
    assert_entries(g.matrix(), vec![vec![0.0, 1.0], vec![1.0, 0.0]]);
}

#[test]
fn controlled_rejects_a_control_that_is_a_target() {
    assert_eq!(Gate::cx(1, 1).err(), Some(Error::DuplicateTarget));
    assert_eq!(Gate::cnx(vec![0, 0], 1).err(), Some(Error::DuplicateTarget));
    assert_eq!(
        Gate::x(0).unwrap().controlled(vec![1, 0]).err(),
        Some(Error::DuplicateTarget)
    );
}

#[test]
fn controlled_rejects_more_qubits_than_can_be_held() {
    let controls: Vec<usize> = (1..70).collect();
    assert_eq!(
        Gate::x(0).unwrap().controlled(controls.clone()).err(),
        Some(Error::MalformedOperator)
    );
    assert_eq!(Gate::cnx(controls, 0).err(), Some(Error::MalformedOperator));
}

#[test]
fn embedding_x_on_the_high_qubit() {
    let big = Gate::x(1).unwrap().turn_big(2);
    assert_entries(
        &big,
        vec![
            vec![0.0, 0.0, 1.0, 0.0],
            vec![0.0, 0.0, 0.0, 1.0],
            vec![1.0, 0.0, 0.0, 0.0],
            vec![0.0, 1.0, 0.0, 0.0],
        ],
    );
}

#[test]
fn embedding_x_on_the_low_qubit() {
    let big = Gate::x(0).unwrap().turn_big(2);
    assert_entries(
        &big,
        vec![
            vec![0.0, 1.0, 0.0, 0.0],
            vec![1.0, 0.0, 0.0, 0.0],
            vec![0.0, 0.0, 0.0, 1.0],
            vec![0.0, 0.0, 1.0, 0.0],
        ],
    );
}

#[test]
fn embedding_follows_the_order_of_the_targets() {
    // control on qubit 0, target on qubit 1: basis 01 and 11 change places
    let low_control = Gate::cx(0, 1).unwrap().turn_big(2);
    assert_entries(
        &low_control,
        vec![
            vec![1.0, 0.0, 0.0, 0.0],
            vec![0.0, 0.0, 0.0, 1.0],
            vec![0.0, 0.0, 1.0, 0.0],
            vec![0.0, 1.0, 0.0, 0.0],
        ],
    );
    // control on qubit 1, target on qubit 0: basis 10 and 11 change places
    let high_control = Gate::cx(1, 0).unwrap().turn_big(2);
    assert_entries(
        &high_control,
        vec![
            vec![1.0, 0.0, 0.0, 0.0],
            vec![0.0, 1.0, 0.0, 0.0],
            vec![0.0, 0.0, 0.0, 1.0],
            vec![0.0, 0.0, 1.0, 0.0],
        ],
    );
}

#[test]
fn embedding_into_its_own_qubits_keeps_the_operator() {
    let g = Gate::cnx(vec![1, 2], 0).unwrap();
    let big = g.turn_big(3);
    for i in 0..8 {
        for j in 0..8 {
            assert_eq!(bits(big.entry(i, j).unwrap()), bits(g.matrix().entry(i, j).unwrap()));
        }
    }
}

#[test]
fn toffoli_fires_when_both_controls_are_set() {
    let mut c = Circuit::new(3);
    c.x(0).unwrap();
    c.x(1).unwrap();
    c.cnx(vec![0, 1], 2).unwrap();
    let res = c.run().unwrap();
    for (label, a) in &res {
        let want = if label == "111" { 1.0 } else { 0.0 };
        assert!((a.0 - want).abs() < 1e-12, "{label}");
    }
}

#[test]
fn toffoli_rests_when_a_control_is_clear() {
    let mut c = Circuit::new(3);
    c.x(1).unwrap();
    c.cnx(vec![0, 1], 2).unwrap();
    let res = c.run().unwrap();
    for (label, a) in &res {
        let want = if label == "010" { 1.0 } else { 0.0 };
        assert!((a.0 - want).abs() < 1e-12, "{label}");
    }
}

#[test]
fn gates_apply_in_the_order_of_their_appending() {
    // X then H gives (|0> - |1>) / sqrt 2, H then X gives (|0> + |1>) / sqrt 2
    let mut c = Circuit::new(1);
    c.x(0).unwrap();
    c.h(0).unwrap();
    let res = c.run().unwrap();
    assert!(amplitude(&res, "1").0 < -0.7);
    let mut c = Circuit::new(1);
    c.h(0).unwrap();
    c.x(0).unwrap();
    let res = c.run().unwrap();
    assert!(amplitude(&res, "1").0 > 0.7);
}

#[test]
fn appending_counts_the_gates() {
    let mut c = Circuit::new(3);
    assert_eq!(c.qubits(), 3);
    assert_eq!(c.len(), 0);
    c.h(0).unwrap();
    c.x(2).unwrap();
    c.cx(0, 1).unwrap();
    c.cnx(vec![0, 1], 2).unwrap();
    c.add_gate(Gate::h(1).unwrap()).unwrap();
    assert_eq!(c.len(), 5);
}

#[test]
fn a_failed_append_leaves_the_circuit_alone() {
    let mut c = Circuit::new(2);
    c.h(0).unwrap();
    assert_eq!(c.cx(1, 1), Err(Error::DuplicateTarget));
    assert_eq!(c.cnx(vec![0, 0], 1), Err(Error::DuplicateTarget));
    assert_eq!(c.cnx(vec![0, 1, 5], 1), Err(Error::QubitIndexOutOfRange));
    assert_eq!(c.add_gate(Gate::cx(0, 2).unwrap()), Err(Error::QubitIndexOutOfRange));
    assert_eq!(c.h(9), Err(Error::QubitIndexOutOfRange));
    assert_eq!(c.len(), 1);
    let res = c.run().unwrap();
    assert!((amplitude(&res, "01").0 - std::f64::consts::FRAC_1_SQRT_2).abs() < 1e-12);
    assert!((amplitude(&res, "00").0 - std::f64::consts::FRAC_1_SQRT_2).abs() < 1e-12);
}

#[test]
fn add_gate_takes_any_valid_gate() {
    let (s, co) = (0.6, 0.8);
    let mut c = Circuit::new(2);
    c.add_gate(Gate::new(reals(vec![vec![co, -s], vec![s, co]]), vec![1]).unwrap()).unwrap();
    let res = c.run().unwrap();
    assert!((amplitude(&res, "00").0 - co).abs() < 1e-12);
    assert!((amplitude(&res, "10").0 - s).abs() < 1e-12);
    assert!(amplitude(&res, "01").0.abs() < 1e-12);
    assert!(amplitude(&res, "11").0.abs() < 1e-12);
}

#[test]
fn unit_check_takes_other_tolerances() {
    let nearly = reals(vec![vec![1.0 + 1e-3, 0.0], vec![0.0, 1.0]]);
    assert!(!is_unit(&nearly));
    assert!(is_unit_within(&nearly, DETERMINANT_TOLERANCE, 1e-2f64.to_bits()));
    assert!(!is_unit_within(&nearly, 2.0f64.to_bits(), 1e-2f64.to_bits()));
    let id = reals(vec![vec![1.0, 0.0], vec![0.0, 1.0]]);
    assert!(is_unit_within(&id, 1.0f64.to_bits(), IDENTITY_TOLERANCE));
    assert!(!is_unit_within(&id, 1.5f64.to_bits(), IDENTITY_TOLERANCE));
    assert!(unit_verdict_within(quad(0.5), &id, 0.25f64.to_bits(), IDENTITY_TOLERANCE));
    assert!(!unit_verdict_within(quad(0.5), &id, 0.75f64.to_bits(), IDENTITY_TOLERANCE));
    assert!(!unit_verdict_within(quad(0.5), &nearly, 0.25f64.to_bits(), IDENTITY_TOLERANCE));
    assert!(unit_verdict_within(quad(0.5), &nearly, 0.25f64.to_bits(), 1e-2f64.to_bits()));
}

#[test]
fn shape_check_wants_two_to_the_targets() {
    let id2 = reals(vec![vec![1.0, 0.0], vec![0.0, 1.0]]);
    assert!(is_well_shaped(&id2, &vec![9]));
    assert!(!is_well_shaped(&id2, &vec![]));
    assert!(!is_well_shaped(&id2, &vec![0, 1]));
    assert!(is_well_shaped(&reals(vec![vec![1.0]]), &vec![]));
    assert!(!is_well_shaped(&reals(vec![vec![1.0, 0.0]]), &vec![]));
    let many: Vec<usize> = (0..100).collect();
    assert!(!is_well_shaped(&id2, &many));
}

#[test]
fn unit_check_of_an_empty_matrix_does_not_fail() {
    let empty = Matrix::from_rows(&vec![]).unwrap();
    // no entry deviates from the identity, and the empty product is one
    assert!(is_unit(&empty));
}

#[test]
fn a_gate_without_targets_embeds_as_a_multiple_of_the_identity() {
    let g = Gate::new(reals(vec![vec![-1.0]]), vec![]).unwrap();
    assert_entries(&g.turn_big(0), vec![vec![-1.0]]);
    assert_entries(&g.turn_big(1), vec![vec![-1.0, 0.0], vec![0.0, -1.0]]);
    let mut c = Circuit::new(1);
    c.add_gate(g).unwrap();
    let res = c.run().unwrap();
    assert_eq!(bits(amplitude(&res, "0")), bits(quad(-1.0)));
}

#[test]
fn embedding_ignores_targets_above_the_system() {
    // bit 3 of an index below four is clear, so only the first column of X counts
    let big = Gate::x(3).unwrap().turn_big(2);
    for i in 0..4 {
        for j in 0..4 {
            assert_eq!(bits(big.entry(i, j).unwrap()), bits(Z), "entry ({i}, {j})");
        }
    }
}
