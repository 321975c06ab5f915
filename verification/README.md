# tiny_qsim

A small state-vector simulator of qubits.

- `src/` is the verified library. It holds the register (`QuantumSystem`),
  gates (`Gate`), qubit handles (`Qubit`) and the index arithmetic of the
  simulator: the checks on controls and targets, the layout of a controlled
  gate into independent blocks of basis states (`ApplyPlan`), the masks and
  collapse of a measurement and the reading of its result. Amplitudes and
  matrix entries are generic: the library moves them and never computes
  with them. The public proof functions in `laws.rs` state how the blocks
  of a gate cover the register and how rows and results map to qubit bits.
- `app/` puts the simulator on `num::Complex<f32>`: the constant gates, the
  matrix product of each block, probabilities, normalisation and the random
  draw of a measurement.
