//! A small state-vector simulator of qubits, with its index arithmetic
//! verified: which basis states a controlled gate reaches, in which order,
//! and how a measurement collapses the state and reads off its result.
//!
//! Amplitudes and matrix entries are kept generic: the library moves them
//! between basis states and never computes with them.

mod bits;
mod gate;
mod laws;
mod measure;
mod offsets;
mod plan;
mod qubit;
mod system;

pub use bits::{mask_of, all_below, within, low_bits, is_pow2, log2_of};
pub use gate::{Gate, is_gate_len, arity_of_len, law_gate_lengths};
pub use laws::{
    starts_block, block_state, count_added, law_blocks_partition, law_row_bits, law_outcome_bits,
    law_outcome_reads_measured, law_qubit_count, law_per_target, law_plan_faults, law_block_starts,
    law_block_contents, law_positions, law_mask_bits,
};
pub use measure::{outcome_of, qubit_mask, outcome_bits};
pub use offsets::offset_of;
pub use plan::{
    ApplyError, ApplyPlan, ControlledStep, positions, target_fault_from, applies_per_target,
    apply_fault,
};
pub use qubit::Qubit;
pub use system::{QuantumSystem, block_of, reached};
