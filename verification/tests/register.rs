use tiny_qsim::{Gate, QuantumSystem};

#[test]
fn new_system_has_one_state() {
    let s: QuantumSystem<i64> = QuantumSystem::new(1);
    assert_eq!(s.count_states(), 1);
    assert_eq!(s.count_qubits(), 0);
    assert_eq!(s.amplitudes(), &[1][..]);
}

#[test]
fn new_qubit_doubles_the_states_and_returns_the_next_position() {
    let mut s: QuantumSystem<i64> = QuantumSystem::new(7);
    let a = s.new_qubit(0);
    assert_eq!(a.position(), 0);
    assert_eq!(s.count_states(), 2);
    assert_eq!(s.amplitudes(), &[7, 0][..]);
    let b = s.new_qubit(0);
    assert_eq!(b.position(), 1);
    assert_eq!(s.count_states(), 4);
    assert_eq!(s.count_qubits(), 2);
    assert_eq!(s.amplitudes(), &[7, 0, 0, 0][..]);
    let c = s.new_qubit(-1);
    assert_eq!(c.position(), 2);
    assert_eq!(s.amplitudes(), &[7, 0, 0, 0, -1, -1, -1, -1][..]);
}

#[test]
fn count_states_is_two_to_the_number_of_qubits() {
    let mut s: QuantumSystem<u8> = QuantumSystem::new(1);
    for n in 0..10 {
        assert_eq!(s.count_qubits(), n);
        assert_eq!(s.count_states(), 1usize << n);
        s.new_qubit(0);
    }
}

#[test]
fn reset_puts_every_qubit_in_state_zero() {
    let mut s: QuantumSystem<i64> = QuantumSystem::new(1);
    s.new_qubit(0);
    s.new_qubit(0);
    for i in 0..4 {
        s.set_amplitude(i, 10 + i as i64);
    }
    assert_eq!(s.amplitudes(), &[10, 11, 12, 13][..]);
    s.reset(0, 1);
    assert_eq!(s.amplitudes(), &[1, 0, 0, 0][..]);
    assert_eq!(s.count_qubits(), 2);
}

#[test]
fn set_amplitude_changes_one_state() {
    let mut s: QuantumSystem<i64> = QuantumSystem::new(1);
    s.new_qubit(0);
    s.set_amplitude(1, 5);
    assert_eq!(s.amplitudes(), &[1, 5][..]);
}

#[test]
fn gate_rejects_lengths_that_are_not_powers_of_two() {
    for len in [0usize, 1, 3, 5, 6, 7, 12] {
        assert!(Gate::new(vec![0u8; len]).is_none(), "length {}", len);
    }
}

#[test]
fn gate_shape_follows_the_length() {
    let g = Gate::new(vec![1, 2]).unwrap();
    assert_eq!(g.size(), 1);
    assert_eq!(g.qubits(), 0);
    let g = Gate::new(vec![1, 2, 3, 4]).unwrap();
    assert_eq!(g.size(), 2);
    assert_eq!(g.qubits(), 1);
    let g = Gate::new(vec![0; 8]).unwrap();
    assert_eq!(g.size(), 2);
    assert_eq!(g.qubits(), 1);
    let g = Gate::new((0..16).collect::<Vec<i32>>()).unwrap();
    assert_eq!(g.size(), 4);
    assert_eq!(g.qubits(), 2);
    assert_eq!(g.size(), 1 << g.qubits());
}

#[test]
fn gate_rows_are_consecutive_slices() {
    let g = Gate::new((0..16).collect::<Vec<i32>>()).unwrap();
    assert_eq!(g.row(0), &[0, 1, 2, 3][..]);
    assert_eq!(g.row(2), &[8, 9, 10, 11][..]);
    assert_eq!(g.row(3), &[12, 13, 14, 15][..]);
    assert_eq!(g.values().len(), 16);
    let odd = Gate::new((0..8).collect::<Vec<i32>>()).unwrap();
    assert_eq!(odd.row(1), &[2, 3][..]);
    assert_eq!(odd.row(3), &[6, 7][..]);
}

#[test]
fn only_new_qubit_changes_the_number_of_qubits() {
    let mut s: QuantumSystem<i64> = QuantumSystem::new(1);
    let mut added = 0;
    for step in 0..12 {
        if step % 3 == 0 {
            s.new_qubit(0);
            added += 1;
        } else if step % 3 == 1 {
            s.reset(0, 1);
        } else {
            s.collapse(1, 0, 0);
            s.set_amplitude(0, 2);
        }
        assert_eq!(s.count_qubits(), added);
    }
}
