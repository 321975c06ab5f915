use num::Complex;
use tiny_qsim::{outcome_bits, qubit_mask, ControlledStep, Gate, QuantumSystem, Qubit};

fn system(qubits: usize) -> (QuantumSystem<i64>, Vec<Qubit>) {
    let mut s = QuantumSystem::new(1);
    let qs = (0..qubits).map(|_| s.new_qubit(0)).collect();
    (s, qs)
}

#[test]
fn qubit_mask_sets_one_bit_per_qubit() {
    let (_, q) = system(4);
    assert_eq!(qubit_mask(&[]), 0);
    assert_eq!(qubit_mask(&[q[0]]), 1);
    assert_eq!(qubit_mask(&[q[3], q[1]]), 0b1010);
    assert_eq!(qubit_mask(&[q[2], q[2]]), 0b100);
}

#[test]
fn matching_states_lists_the_agreeing_states_in_order() {
    let (s, _) = system(3);
    assert_eq!(s.matching_states(0b101, 0b001), vec![1, 3]);
    assert_eq!(s.matching_states(0, 0), (0..8).collect::<Vec<usize>>());
    assert_eq!(s.matching_states(0b010, 0b010), vec![2, 3, 6, 7]);
    // An outcome with a bit outside the mask matches nothing.
    assert_eq!(s.matching_states(0b010, 0b011), Vec::<usize>::new());
}

#[test]
fn outcome_states_take_the_result_as_measured() {
    let (s, q) = system(3);
    // Qubit 1 alone: result 1 means bit 1 set.
    assert_eq!(s.outcome_states(&[q[1]], 1), vec![2, 3, 6, 7]);
    assert_eq!(s.outcome_states(&[q[1]], 0), vec![0, 1, 4, 5]);
    // Result bits follow the order of the qubits given.
    assert_eq!(s.outcome_states(&[q[2], q[0]], 0b01), vec![4, 6]);
    assert_eq!(s.outcome_states(&[q[2], q[0]], 0b10), vec![1, 3]);
    // A result with a bit beyond the measured qubits never comes.
    assert_eq!(s.outcome_states(&[q[1]], 2), Vec::<usize>::new());
    // The same qubit twice: both bits agree or nothing matches.
    assert_eq!(s.outcome_states(&[q[0], q[0]], 0b11), vec![1, 3, 5, 7]);
    assert_eq!(s.outcome_states(&[q[0], q[0]], 0b01), Vec::<usize>::new());
}

#[test]
fn the_result_of_a_collapsed_state_reads_only_the_measured_bits() {
    let (_, q) = system(4);
    let qs = [q[3], q[1]];
    let mask = qubit_mask(&qs);
    for c in 0..16usize {
        assert_eq!(outcome_bits(c & mask, &qs), outcome_bits(c, &qs));
    }
}

#[test]
fn outcomes_split_the_states() {
    let (s, _) = system(3);
    let mask = 0b110;
    let mut all: Vec<usize> = Vec::new();
    for outcome in [0b000, 0b010, 0b100, 0b110] {
        all.extend(s.matching_states(mask, outcome));
    }
    all.sort();
    assert_eq!(all, (0..8).collect::<Vec<usize>>());
}

#[test]
fn collapse_zeroes_the_other_outcomes() {
    let (mut s, _) = system(3);
    for i in 0..8 {
        s.set_amplitude(i, i as i64 + 1);
    }
    s.collapse(0b100, 0b100, 0);
    assert_eq!(s.amplitudes(), &[0, 0, 0, 0, 5, 6, 7, 8][..]);
    s.collapse(0b001, 0b000, 0);
    assert_eq!(s.amplitudes(), &[0, 0, 0, 0, 5, 0, 7, 0][..]);
}

#[test]
fn outcome_bits_read_the_qubits_in_the_order_given() {
    let (_, q) = system(4);
    assert_eq!(outcome_bits(0b1010, &[q[1], q[3]]), 0b11);
    assert_eq!(outcome_bits(0b1010, &[q[0], q[1]]), 0b10);
    assert_eq!(outcome_bits(0b1010, &[q[1], q[0]]), 0b01);
    assert_eq!(outcome_bits(0b0100, &[q[2]]), 1);
    assert_eq!(outcome_bits(0b0100, &[]), 0);
    assert_eq!(outcome_bits(0b0100, &[q[2], q[2]]), 0b11);
}

type C = Complex<f32>;

fn apply(s: &mut QuantumSystem<C>, g: &Gate<C>, c: &[Qubit], t: &[Qubit]) {
    match s.plan_controlled(g, c, t).unwrap() {
        ControlledStep::EachTarget => {
            for q in t {
                apply(s, g, c, &[*q]);
            }
        }
        ControlledStep::Blocks(p) => {
            s.apply_blocks(&p, |v: Vec<C>| {
                let mut out = vec![C::new(0.0, 0.0); g.size()];
                for r in 0..g.size() {
                    for k in 0..g.size() {
                        out[r] += g.row(r)[k] * v[k];
                    }
                }
                out
            });
        }
    }
}

fn probability(s: &QuantumSystem<C>, q: &[Qubit], state: usize) -> f32 {
    s.outcome_states(q, state).iter().map(|&i| s.amplitudes()[i].norm_sqr()).sum()
}

#[test]
fn hadamard_then_controlled_not_entangles_two_qubits() {
    let h = 1.0 / 2f32.sqrt();
    let hg = Gate::new(vec![C::new(h, 0.0), C::new(h, 0.0), C::new(h, 0.0), C::new(-h, 0.0)]).unwrap();
    let x = Gate::new(vec![C::new(0.0, 0.0), C::new(1.0, 0.0), C::new(1.0, 0.0), C::new(0.0, 0.0)])
        .unwrap();
    let mut s = QuantumSystem::new(C::new(1.0, 0.0));
    let a = s.new_qubit(C::new(0.0, 0.0));
    let b = s.new_qubit(C::new(0.0, 0.0));
    apply(&mut s, &hg, &[], &[a]);
    apply(&mut s, &x, &[a], &[b]);
    let amps = s.amplitudes();
    assert!((amps[0].re - h).abs() < 1e-6);
    assert!(amps[1].norm() < 1e-6);
    assert!(amps[2].norm() < 1e-6);
    assert!((amps[3].re - h).abs() < 1e-6);
    assert!((probability(&s, &[a], 1) - 0.5).abs() < 1e-6);
    assert!((probability(&s, &[b], 1) - 0.5).abs() < 1e-6);
    assert!((probability(&s, &[a, b], 0b11) - 0.5).abs() < 1e-6);
    assert!(probability(&s, &[a, b], 0b01) < 1e-6);

    // Collapse onto a = 1: both qubits are then 1.
    let mask = qubit_mask(&[a, b]);
    s.collapse(mask, 3 & mask, C::new(0.0, 0.0));
    assert_eq!(outcome_bits(3 & mask, &[a, b]), 0b11);
    assert!(s.amplitudes()[0].norm() < 1e-6);
    assert!((s.amplitudes()[3].re - h).abs() < 1e-6);
}
