use tiny_qsim::{ApplyError, ApplyPlan, ControlledStep, Gate, QuantumSystem, Qubit};

fn system(qubits: usize) -> (QuantumSystem<i64>, Vec<Qubit>) {
    let mut s = QuantumSystem::new(1);
    let qs = (0..qubits).map(|_| s.new_qubit(0)).collect();
    (s, qs)
}

fn plan(s: &QuantumSystem<i64>, g: &Gate<i64>, c: &[Qubit], t: &[Qubit]) -> ApplyPlan {
    match s.plan_controlled(g, c, t) {
        Ok(ControlledStep::Blocks(p)) => p,
        Ok(ControlledStep::EachTarget) => panic!("expected blocks"),
        Err(e) => panic!("unexpected {:?}", e),
    }
}

fn blocks(p: &ApplyPlan) -> Vec<usize> {
    let mut out = Vec::new();
    let mut cur = p.first_block();
    while let Some(b) = cur {
        out.push(b);
        cur = p.next_block(b);
    }
    out
}

fn err(s: &QuantumSystem<i64>, g: &Gate<i64>, c: &[Qubit], t: &[Qubit]) -> ApplyError {
    match s.plan_controlled(g, c, t) {
        Err(e) => e,
        Ok(_) => panic!("expected an error"),
    }
}

fn one_qubit() -> Gate<i64> {
    Gate::new(vec![0, 1, 1, 0]).unwrap()
}

fn two_qubit() -> Gate<i64> {
    Gate::new((0..16).collect()).unwrap()
}

/// Applies an integer matrix block by block, as a simulator would.
fn apply(s: &mut QuantumSystem<i64>, g: &Gate<i64>, c: &[Qubit], t: &[Qubit]) {
    match s.plan_controlled(g, c, t).unwrap() {
        ControlledStep::EachTarget => {
            for q in t {
                apply(s, g, c, &[*q]);
            }
        }
        ControlledStep::Blocks(p) => {
            s.apply_blocks(&p, |v: Vec<i64>| {
                let mut out = vec![0; g.size()];
                for r in 0..g.size() {
                    for k in 0..g.size() {
                        out[r] += g.row(r)[k] * v[k];
                    }
                }
                out
            });
        }
    }
}

#[test]
fn one_qubit_gate_on_several_targets_goes_target_by_target() {
    let (s, q) = system(3);
    assert!(matches!(
        s.plan_controlled(&one_qubit(), &[], &[q[0], q[1]]),
        Ok(ControlledStep::EachTarget)
    ));
    // Even with faulty controls: the split comes first.
    assert!(matches!(
        s.plan_controlled(&one_qubit(), &[q[2], q[2]], &[q[0], q[1]]),
        Ok(ControlledStep::EachTarget)
    ));
}

#[test]
fn target_count_must_match_the_gate() {
    let (s, q) = system(3);
    assert_eq!(err(&s, &two_qubit(), &[], &[q[0]]), ApplyError::TargetCountMismatch);
    assert_eq!(err(&s, &one_qubit(), &[], &[]), ApplyError::TargetCountMismatch);
    assert_eq!(err(&s, &two_qubit(), &[], &[q[0], q[1], q[2]]), ApplyError::TargetCountMismatch);
}

#[test]
fn duplicate_controls_are_refused() {
    let (s, q) = system(3);
    assert_eq!(err(&s, &one_qubit(), &[q[1], q[2], q[1]], &[q[0]]), ApplyError::DuplicateControl);
}

#[test]
fn duplicate_targets_are_refused() {
    let (s, q) = system(3);
    assert_eq!(err(&s, &two_qubit(), &[], &[q[1], q[1]]), ApplyError::DuplicateTarget);
}

#[test]
fn a_control_cannot_be_a_target() {
    let (s, q) = system(3);
    assert_eq!(err(&s, &one_qubit(), &[q[0]], &[q[0]]), ApplyError::ControlAsTarget);
    // The first faulty target decides the error.
    assert_eq!(err(&s, &two_qubit(), &[q[0]], &[q[0], q[0]]), ApplyError::ControlAsTarget);
    assert_eq!(err(&s, &two_qubit(), &[q[0]], &[q[1], q[1]]), ApplyError::DuplicateTarget);
}

#[test]
fn duplicate_controls_are_found_before_target_faults() {
    let (s, q) = system(3);
    assert_eq!(err(&s, &two_qubit(), &[q[0], q[0]], &[q[0], q[0]]), ApplyError::DuplicateControl);
}

#[test]
fn a_target_outside_the_register_is_refused() {
    let (small, _) = system(2);
    let (_, big) = system(4);
    assert_eq!(err(&small, &one_qubit(), &[], &[big[3]]), ApplyError::TargetOutOfRange);
    assert_eq!(err(&small, &one_qubit(), &[big[0]], &[big[2]]), ApplyError::TargetOutOfRange);
}

#[test]
fn a_control_outside_the_register_leaves_nothing_to_do() {
    let (small, _) = system(2);
    let (_, big) = system(4);
    let p = plan(&small, &one_qubit(), &[big[3]], &[big[2]]);
    assert_eq!(p.first_block(), None);
    let p = plan(&small, &one_qubit(), &[big[3]], &[big[0]]);
    assert_eq!(p.first_block(), None);
}

#[test]
fn blocks_have_no_target_bit_and_every_control_bit() {
    let (s, q) = system(3);
    let p = plan(&s, &one_qubit(), &[q[0]], &[q[1]]);
    assert_eq!(blocks(&p), vec![1, 5]);
    let p = plan(&s, &one_qubit(), &[], &[q[1]]);
    assert_eq!(blocks(&p), vec![0, 1, 4, 5]);
    let p = plan(&s, &one_qubit(), &[q[0], q[2]], &[q[1]]);
    assert_eq!(blocks(&p), vec![5]);
    let p = plan(&s, &two_qubit(), &[], &[q[0], q[2]]);
    assert_eq!(blocks(&p), vec![0, 2]);
    let p = plan(&s, &two_qubit(), &[q[1]], &[q[2], q[0]]);
    assert_eq!(blocks(&p), vec![2]);
}

#[test]
fn gate_without_targets_visits_each_controlled_state() {
    let (s, q) = system(3);
    let g = Gate::new(vec![1, 0]).unwrap();
    let p = plan(&s, &g, &[q[1]], &[]);
    assert_eq!(p.block_size(), 1);
    assert_eq!(blocks(&p), vec![2, 3, 6, 7]);
}

#[test]
fn the_last_target_is_the_low_bit_of_a_row() {
    let (mut s, q) = system(3);
    for i in 0..8 {
        s.set_amplitude(i, i as i64);
    }
    let p = plan(&s, &two_qubit(), &[], &[q[0], q[2]]);
    assert_eq!(p.block_size(), 4);
    // Rows 0..4 of block 0: target q2 holds bit 0 of the row, q0 bit 1.
    assert_eq!(s.block_amplitudes(&p, 0), vec![0, 4, 1, 5]);
    assert_eq!(s.block_amplitudes(&p, 2), vec![2, 6, 3, 7]);
    let p = plan(&s, &two_qubit(), &[], &[q[2], q[0]]);
    assert_eq!(s.block_amplitudes(&p, 0), vec![0, 1, 4, 5]);
}

#[test]
fn applying_blocks_leaves_the_uncontrolled_states() {
    let (mut s, q) = system(3);
    for i in 0..8 {
        s.set_amplitude(i, i as i64);
    }
    let p = plan(&s, &one_qubit(), &[q[0]], &[q[2]]);
    assert_eq!(blocks(&p), vec![1, 3]);
    // Each block is handed over once, with its rows in order.
    s.apply_blocks(&p, |v: Vec<i64>| vec![100 * v[0] + v[1], -v[0]]);
    assert_eq!(s.amplitudes(), &[0, 105, 2, 307, 4, -1, 6, -3][..]);
}

#[test]
fn applying_blocks_without_blocks_changes_nothing() {
    let (mut s, _) = system(2);
    let (_, big) = system(4);
    for i in 0..4 {
        s.set_amplitude(i, i as i64 + 1);
    }
    let p = plan(&s, &one_qubit(), &[big[3]], &[big[0]]);
    s.apply_blocks(&p, |_v: Vec<i64>| vec![0, 0]);
    assert_eq!(s.amplitudes(), &[1, 2, 3, 4][..]);
}

#[test]
fn blocks_cover_every_controlled_state_once() {
    let (s, q) = system(4);
    let g = two_qubit();
    let p = plan(&s, &g, &[q[3]], &[q[1], q[0]]);
    let mut seen = vec![0; 16];
    let mut cur = p.first_block();
    while let Some(b) = cur {
        let mut probe: QuantumSystem<i64> = QuantumSystem::new(0);
        for _ in 0..4 {
            probe.new_qubit(0);
        }
        for i in 0..16 {
            probe.set_amplitude(i, i as i64);
        }
        for idx in probe.block_amplitudes(&p, b) {
            seen[idx as usize] += 1;
        }
        cur = p.next_block(b);
    }
    for j in 0..16 {
        assert_eq!(seen[j], if j & 8 == 8 { 1 } else { 0 }, "state {}", j);
    }
}

#[test]
fn not_and_controlled_not_move_integer_amplitudes() {
    let (mut s, q) = system(2);
    let x = one_qubit();
    apply(&mut s, &x, &[], &[q[0]]);
    assert_eq!(s.amplitudes(), &[0, 1, 0, 0][..]);
    apply(&mut s, &x, &[q[0]], &[q[1]]);
    assert_eq!(s.amplitudes(), &[0, 0, 0, 1][..]);
    apply(&mut s, &x, &[], &[q[0], q[1]]);
    assert_eq!(s.amplitudes(), &[1, 0, 0, 0][..]);
}

#[test]
fn swap_exchanges_two_qubits() {
    let (mut s, q) = system(3);
    let swap = Gate::new(vec![1, 0, 0, 0, 0, 0, 1, 0, 0, 1, 0, 0, 0, 0, 0, 1]).unwrap();
    for i in 0..8 {
        s.set_amplitude(i, 10 * i as i64);
    }
    apply(&mut s, &swap, &[], &[q[0], q[2]]);
    // State i goes to i with bits 0 and 2 exchanged.
    assert_eq!(s.amplitudes(), &[0, 40, 20, 60, 10, 50, 30, 70][..]);
}
