use vstd::prelude::*;
use crate::bits::{
    lemma_join, lemma_split, lemma_low_bits_small, lemma_mask_contains,
    mask_of, all_below, lemma_mask_below, };
use crate::offsets::{
    offset_of, lemma_offset_within, lemma_offset_injective, lemma_offset_onto, lemma_offset_first,
};
use crate::plan::{apply_fault, target_fault_from, applies_per_target, lemma_all_below_weaken, ApplyError};
use crate::measure::outcome_of;
use crate::system::{QuantumSystem, block_of, reached};
use crate::plan::{ApplyPlan, positions};
use crate::qubit::Qubit;

verus! {

/// Basis state `b` starts a block of a register of `n` qubits under
/// control mask `cm` and target mask `tm`.
pub open spec fn starts_block(n: usize, cm: usize, tm: usize, b: usize) -> bool {
    &&& b < (1usize << n)
    &&& b & tm == 0
    &&& b & cm == cm
}

/// The basis state that row `r` of the matrix stands for in block `b`.
pub open spec fn block_state(t: Seq<usize>, b: usize, r: usize) -> usize {
    b | offset_of(t, r)
}

/// No target fault from `k` on means the targets from `k` on are new and
/// are not controls.
proof fn lemma_no_target_fault(t: Seq<usize>, cm: usize, k: int)
    requires
        0 <= k <= t.len(),
        target_fault_from(t, cm, k) is None,
    ensures
        forall|i: int, j: int| 0 <= i < j < t.len() && k <= j ==> t[i] != t[j],
        forall|j: int| k <= j < t.len() ==> cm & (1usize << #[trigger] t[j]) == 0,
    decreases t.len() - k,
{
    if k < t.len() {
        lemma_no_target_fault(t, cm, k + 1);
        assert forall|i: int| 0 <= i < k implies t[i] != t[k] by {
            if t[i] == t[k] {
                assert(t.take(k)[i] == t[k]);
            }
        }
    }
}

/// The facts that a fault-free layout gives about its masks.
proof fn lemma_layout(n: usize, c: Seq<usize>, t: Seq<usize>)
    requires
        n < usize::BITS - 1,
        all_below(c, (usize::BITS - 1) as usize),
        all_below(t, (usize::BITS - 1) as usize),
        apply_fault(n, t.len() as usize, c, t) is None,
    ensures
        t.no_duplicates(),
        mask_of(c) & mask_of(t) == 0,
        mask_of(c) < (1usize << n) ==> mask_of(t) < (1usize << n),
{
    let cm = mask_of(c);
    lemma_no_target_fault(t, cm, 0);
    lemma_all_below_weaken(c, (usize::BITS - 1) as usize, usize::BITS as usize);
    lemma_all_below_weaken(t, (usize::BITS - 1) as usize, usize::BITS as usize);
    lemma_mask_below(c, n);
    lemma_mask_below(t, n);
    lemma_disjoint_from_mask(cm, t);
}

proof fn lemma_disjoint_from_mask(cm: usize, t: Seq<usize>)
    requires
        forall|j: int| 0 <= j < t.len() ==> cm & (1usize << #[trigger] t[j]) == 0,
    ensures
        cm & mask_of(t) == 0,
    decreases t.len(),
{
    if t.len() == 0 {
        assert(cm & 0usize == 0) by (bit_vector);
    } else {
        let u = t.drop_first();
        assert forall|j: int| 0 <= j < u.len() implies cm & (1usize << #[trigger] u[j]) == 0 by {
            assert(u[j] == t[j + 1]);
        }
        lemma_disjoint_from_mask(cm, u);
        let m = mask_of(u);
        let b = 1usize << t[0];
        assert(cm & (1usize << t[0]) == 0);
        assert(cm & m == 0 && cm & b == 0 ==> cm & (m | b) == 0) by (bit_vector);
    }
}



proof fn lemma_decompose(j: usize, cm: usize, tm: usize, n: usize)
    by (bit_vector)
    requires
        n < usize::BITS,
        j < (1usize << n),
        j & cm == cm,
        cm & tm == 0,
    ensures
        (j & !tm) < (1usize << n),
        (j & !tm) & tm == 0,
        (j & !tm) & cm == cm,
        (j & tm) & !tm == 0,
        (j & !tm) | (j & tm) == j,
{
}


/// A gate applied under controls changes only basis states whose control
/// bits are all set, and reaches each of them exactly once: for a layout
/// with no fault, every pair of a block and a row of the matrix names a basis
/// state of the register with every control bit set, distinct pairs name
/// distinct basis states, and every basis state with every control bit set
/// is named by some pair.
pub proof fn law_blocks_partition(n: usize, c: Seq<usize>, t: Seq<usize>)
    requires
        n < usize::BITS - 1,
        all_below(c, (usize::BITS - 1) as usize),
        all_below(t, (usize::BITS - 1) as usize),
        t.len() < usize::BITS / 2,
        apply_fault(n, t.len() as usize, c, t) is None,
    ensures
        ({
            let cm = mask_of(c);
            let tm = mask_of(t);
            let k = t.len() as usize;
            &&& forall|b: usize, r: usize|
                starts_block(n, cm, tm, b) && r < (1usize << k) ==> #[trigger] block_state(t, b, r)
                    < (1usize << n) && block_state(t, b, r) & cm == cm
            &&& forall|b1: usize, r1: usize, b2: usize, r2: usize|
                starts_block(n, cm, tm, b1) && starts_block(n, cm, tm, b2) && r1 < (1usize << k)
                    && r2 < (1usize << k) && #[trigger] block_state(t, b1, r1)
                    == #[trigger] block_state(t, b2, r2) ==> b1 == b2 && r1 == r2
            &&& forall|j: usize|
                j < (1usize << n) && #[trigger] (j & cm) == cm ==> exists|b: usize, r: usize|
                    starts_block(n, cm, tm, b) && r < (1usize << k) && j == #[trigger] block_state(
                        t,
                        b,
                        r,
                    )
        }),
{
    let cm = mask_of(c);
    let tm = mask_of(t);
    let k = t.len() as usize;
    lemma_layout(n, c, t);
    lemma_all_below_weaken(t, (usize::BITS - 1) as usize, usize::BITS as usize);
    assert forall|b: usize, r: usize|
        starts_block(n, cm, tm, b) && r < (1usize << k) implies #[trigger] block_state(t, b, r)
        < (1usize << n) && block_state(t, b, r) & cm == cm by {
        lemma_offset_within(t, r);
        lemma_join(b, offset_of(t, r), cm, tm, n);
    }
    assert forall|b1: usize, r1: usize, b2: usize, r2: usize|
        starts_block(n, cm, tm, b1) && starts_block(n, cm, tm, b2) && r1 < (1usize << k) && r2 < (
        1usize << k) && #[trigger] block_state(t, b1, r1) == #[trigger] block_state(t, b2, r2)
        implies b1 == b2 && r1 == r2 by {
        lemma_offset_within(t, r1);
        lemma_offset_within(t, r2);
        lemma_split(b1, offset_of(t, r1), b2, offset_of(t, r2), tm);
        lemma_offset_injective(t, r1, r2);
        lemma_low_bits_small(r1, k);
        lemma_low_bits_small(r2, k);
    }
    assert forall|j: usize| j < (1usize << n) && #[trigger] (j & cm) == cm implies exists|
        b: usize,
        r: usize,
    | starts_block(n, cm, tm, b) && r < (1usize << k) && j == #[trigger] block_state(t, b, r) by {
        lemma_decompose(j, cm, tm, n);
        let b = j & !tm;
        let r = lemma_offset_onto(t, j & tm);
        assert(starts_block(n, cm, tm, b));
        assert(j == block_state(t, b, r));
    }
}

proof fn lemma_other_bit(x: usize, r: usize, j: usize, p: usize, q: usize)
    by (bit_vector)
    requires
        p < usize::BITS,
        q < usize::BITS,
        p != q,
    ensures
        ((x | (((r >> j) & 1) << p)) >> q) & 1 == (x >> q) & 1,
{
}

/// Row `r` of the matrix stands for the basis states where the target
/// listed `i`-th from the end holds bit `i` of `r`: the last target is the
/// least significant bit of the row.
pub proof fn law_row_bits(t: Seq<usize>, r: usize, q: int)
    requires
        all_below(t, usize::BITS as usize),
        t.no_duplicates(),
        0 <= q < t.len(),
    ensures
        (offset_of(t, r) >> t[q]) & 1 == (r >> ((t.len() - 1 - q) as usize)) & 1,
    decreases t.len(),
{
    if q == 0 {
        lemma_offset_first(t, r);
    } else {
        let u = t.drop_first();
        assert forall|i: int| 0 <= i < u.len() implies #[trigger] u[i] < usize::BITS by {
            assert(u[i] == t[i + 1]);
        }
        assert forall|i: int, j: int| 0 <= i < u.len() && 0 <= j < u.len() && i != j implies u[i]
            != u[j] by {
            assert(u[i] == t[i + 1] && u[j] == t[j + 1]);
        }
        assert(u[q - 1] == t[q]);
        law_row_bits(u, r, q - 1);
        assert(t[0] != t[q]);
        lemma_other_bit(offset_of(u, r), r, (t.len() - 1) as usize, t[0], t[q]);
    }
}

proof fn lemma_or_bit_at(x: usize, c: usize, p: usize, m: usize, i: usize)
    by (bit_vector)
    requires
        m < usize::BITS,
        i < usize::BITS,
    ensures
        ((x | (((c >> p) & 1) << m)) >> i) & 1 == if i == m {
            ((x >> i) & 1) | ((c >> p) & 1)
        } else {
            (x >> i) & 1
        },
{
}

/// Bit `i` of a measurement result is the value that the `i`-th measured
/// qubit has in the collapsed state; the result has no bit beyond the
/// number of measured qubits.
pub proof fn law_outcome_bits(c: usize, t: Seq<usize>, i: usize)
    requires
        t.len() <= usize::BITS,
        i < usize::BITS,
    ensures
        (outcome_of(c, t) >> i) & 1 == if i < t.len() {
            (c >> t[i as int]) & 1
        } else {
            0
        },
    decreases t.len(),
{
    if t.len() == 0 {
        assert(i < usize::BITS ==> (0usize >> i) & 1 == 0) by (bit_vector);
    } else {
        let u = t.drop_last();
        let m = (t.len() - 1) as usize;
        law_outcome_bits(c, u, i);
        lemma_or_bit_at(outcome_of(c, u), c, t.last(), m, i);
        if i < m {
            assert(u[i as int] == t[i as int]);
        }
        let b = (c >> t.last()) & 1;
        assert(0usize | b == b) by (bit_vector);
    }
}

proof fn lemma_outcome_same_bits(c1: usize, c2: usize, t: Seq<usize>)
    requires
        forall|j: int| 0 <= j < t.len() ==> (c1 >> #[trigger] t[j]) & 1 == (c2 >> t[j]) & 1,
    ensures
        outcome_of(c1, t) == outcome_of(c2, t),
    decreases t.len(),
{
    if t.len() > 0 {
        let u = t.drop_last();
        assert forall|j: int| 0 <= j < u.len() implies (c1 >> #[trigger] u[j]) & 1 == (c2 >> u[j]) & 1 by {
            assert(u[j] == t[j]);
        }
        lemma_outcome_same_bits(c1, c2, u);
        assert((c1 >> t.last()) & 1 == (c2 >> t[t.len() - 1]) & 1);
    }
}

proof fn lemma_masked_bit(c: usize, m: usize, p: usize)
    by (bit_vector)
    requires
        p < usize::BITS,
        m & (1usize << p) != 0,
    ensures
        ((c & m) >> p) & 1 == (c >> p) & 1,
{
}

/// A measurement reads only the measured qubits: the result read off a
/// basis state is the same as the one read off its bits under the mask of
/// the measured qubits. So the result of a measurement that collapsed onto
/// `c & mask` is the outcome whose probability sums the states agreeing
/// with `c`.
pub proof fn law_outcome_reads_measured(c: usize, t: Seq<usize>)
    requires
        all_below(t, usize::BITS as usize),
    ensures
        outcome_of(c & mask_of(t), t) == outcome_of(c, t),
{
    let m = mask_of(t);
    assert forall|j: int| 0 <= j < t.len() implies ((c & m) >> #[trigger] t[j]) & 1 == (c >> t[j]) & 1 by {
        assert(t.contains(t[j]));
        lemma_mask_contains(t, t[j]);
        lemma_masked_bit(c, m, t[j]);
    }
    lemma_outcome_same_bits(c & m, c, t);
}

/// The number of steps of a run that add a qubit.
pub open spec fn count_added(grows: Seq<bool>) -> nat
    decreases grows.len(),
{
    if grows.len() == 0 {
        0
    } else {
        count_added(grows.drop_last()) + if grows.last() {
            1nat
        } else {
            0nat
        }
    }
}

/// Only adding a qubit changes the number of qubits: along a run of
/// systems where each step either adds one qubit (as `new_qubit` does) or
/// keeps the number of qubits (as every other operation does), the last
/// system has the qubits of the first plus one per step that added one.
pub proof fn law_qubit_count<A>(run: Seq<QuantumSystem<A>>, grows: Seq<bool>)
    requires
        run.len() == grows.len() + 1,
        forall|i: int|
            0 <= i < grows.len() ==> #[trigger] run[i + 1].num_qubits() == run[i].num_qubits() + if grows[i] {
                1int
            } else {
                0int
            },
    ensures
        run.last().num_qubits() == run[0].num_qubits() + count_added(grows),
    decreases grows.len(),
{
    if grows.len() > 0 {
        let k = grows.len() - 1;
        let shorter = run.drop_last();
        let g = grows.drop_last();
        assert forall|i: int| 0 <= i < g.len() implies #[trigger] shorter[i + 1].num_qubits()
            == shorter[i].num_qubits() + if g[i] {
            1int
        } else {
            0int
        } by {
            assert(shorter[i + 1] == run[i + 1] && shorter[i] == run[i] && g[i] == grows[i]);
        }
        law_qubit_count(shorter, g);
        assert(run[k + 1].num_qubits() == run[k].num_qubits() + if grows[k] {
            1int
        } else {
            0int
        });
    }
}

/// A gate on one qubit goes to each target in turn exactly when it is
/// given two targets or more.
pub proof fn law_per_target(k: usize, t: Seq<usize>)
    ensures
        applies_per_target(k, t) <==> (k == 1 && t.len() >= 2),
{
}

proof fn lemma_no_target_fault_from(t: Seq<usize>, cm: usize, j: int)
    requires
        0 <= j <= t.len(),
        t.no_duplicates(),
        forall|i: int| 0 <= i < t.len() ==> cm & (1usize << #[trigger] t[i]) == 0,
    ensures
        target_fault_from(t, cm, j) is None,
    decreases t.len() - j,
{
    if j < t.len() {
        if t.take(j).contains(t[j]) {
            let a = choose|a: int| 0 <= a < j && t.take(j)[a] == t[j];
            assert(t[a] == t[j]);
        }
        lemma_no_target_fault_from(t, cm, j + 1);
    }
}

proof fn lemma_target_fault_meaning(t: Seq<usize>, cm: usize, j: int)
    requires
        0 <= j,
    ensures
        target_fault_from(t, cm, j) is None || (target_fault_from(t, cm, j) == Some(
            ApplyError::DuplicateTarget,
        ) && !t.no_duplicates()) || (target_fault_from(t, cm, j) == Some(
            ApplyError::ControlAsTarget,
        ) && exists|i: int| 0 <= i < t.len() && cm & (1usize << #[trigger] t[i]) != 0),
    decreases t.len() - j,
{
    if j < t.len() {
        if t.take(j).contains(t[j]) {
            let a = choose|a: int| 0 <= a < j && t.take(j)[a] == t[j];
            assert(t[a] == t[j]);
        } else if cm & (1usize << t[j]) != 0 {
        } else {
            lemma_target_fault_meaning(t, cm, j + 1);
        }
    }
}

proof fn lemma_fault_none_iff(t: Seq<usize>, cm: usize, j: int)
    requires
        0 <= j,
    ensures
        target_fault_from(t, cm, j) is None <==> forall|b: int|
            j <= b < t.len() ==> !t.take(b).contains(#[trigger] t[b]) && cm & (1usize << t[b]) == 0,
    decreases t.len() - j,
{
    if j < t.len() {
        lemma_fault_none_iff(t, cm, j + 1);
    }
}

/// What each refusal of a controlled gate means, and that nothing else is
/// refused: with `k` the number of qubits a gate acts on, `n` those of the
/// register, `c` and `t` the positions of controls and targets,
/// - a mismatch comes only when `k` differs from the number of targets,
/// - a duplicate control only when a control repeats,
/// - a duplicate target only when a target repeats,
/// - a control used as target only when some target is a control,
/// - a target out of range only when some target lies outside the
///   register while every control lies inside it;
/// and distinct controls, distinct targets none of which is a control,
/// `k` targets, all inside the register, are never refused. The checks go
/// in this order: target count, repeated controls, then the targets, then
/// their range.
pub proof fn law_plan_faults(n: usize, k: usize, c: Seq<usize>, t: Seq<usize>)
    requires
        all_below(c, usize::BITS as usize),
        all_below(t, usize::BITS as usize),
    ensures
        apply_fault(n, k, c, t) == Some(ApplyError::TargetCountMismatch) ==> k != t.len(),
        apply_fault(n, k, c, t) == Some(ApplyError::DuplicateControl) ==> !c.no_duplicates(),
        apply_fault(n, k, c, t) == Some(ApplyError::DuplicateTarget) ==> !t.no_duplicates(),
        apply_fault(n, k, c, t) == Some(ApplyError::ControlAsTarget) ==> exists|i: int, j: int|
            0 <= i < t.len() && 0 <= j < c.len() && #[trigger] t[i] == #[trigger] c[j],
        apply_fault(n, k, c, t) == Some(ApplyError::TargetOutOfRange) ==> all_below(c, n) && exists|
            i: int,
        | 0 <= i < t.len() && #[trigger] t[i] >= n,
        apply_fault(n, k, c, t) is None ==> {
            &&& k == t.len()
            &&& c.no_duplicates()
            &&& t.no_duplicates()
            &&& forall|i: int, j: int|
                0 <= i < t.len() && 0 <= j < c.len() ==> #[trigger] t[i] != #[trigger] c[j]
            &&& all_below(c, n) ==> all_below(t, n)
        },
        ({
            &&& k == t.len()
            &&& c.no_duplicates()
            &&& t.no_duplicates()
            &&& forall|i: int, j: int|
                0 <= i < t.len() && 0 <= j < c.len() ==> #[trigger] t[i] != #[trigger] c[j]
            &&& all_below(t, n)
        }) ==> apply_fault(n, k, c, t) is None,
        k != t.len() ==> apply_fault(n, k, c, t) == Some(ApplyError::TargetCountMismatch),
        k == t.len() && !c.no_duplicates() ==> apply_fault(n, k, c, t) == Some(
            ApplyError::DuplicateControl,
        ),
        k == t.len() && c.no_duplicates() && !t.no_duplicates() && (forall|i: int, j: int|
            0 <= i < t.len() && 0 <= j < c.len() ==> #[trigger] t[i] != #[trigger] c[j])
            ==> apply_fault(n, k, c, t) == Some(ApplyError::DuplicateTarget),
        k == t.len() && c.no_duplicates() && t.no_duplicates() && (exists|i: int, j: int|
            0 <= i < t.len() && 0 <= j < c.len() && #[trigger] t[i] == #[trigger] c[j])
            ==> apply_fault(n, k, c, t) == Some(ApplyError::ControlAsTarget),
        k == t.len() && c.no_duplicates() && t.no_duplicates() && (forall|i: int, j: int|
            0 <= i < t.len() && 0 <= j < c.len() ==> #[trigger] t[i] != #[trigger] c[j])
            ==> apply_fault(n, k, c, t) == if all_below(c, n) && !all_below(t, n) {
            Some(ApplyError::TargetOutOfRange)
        } else {
            None
        },
{
    lemma_fault_none_iff(t, mask_of(c), 0);
    if !t.no_duplicates() {
        let (a, b) = choose|a: int, b: int| 0 <= a < t.len() && 0 <= b < t.len() && a != b && t[a] == t[b];
        let (a, b) = if a < b { (a, b) } else { (b, a) };
        assert(t.take(b)[a] == t[b]);
        assert(t.take(b).contains(t[b]));
    }
    if exists|i: int, j: int| 0 <= i < t.len() && 0 <= j < c.len() && #[trigger] t[i] == #[trigger] c[j] {
        let (i, j) = choose|i: int, j: int| 0 <= i < t.len() && 0 <= j < c.len() && #[trigger] t[i] == #[trigger] c[j];
        assert(c.contains(t[i]));
        lemma_mask_contains(c, t[i]);
    }
    let cm = mask_of(c);
    lemma_target_fault_meaning(t, cm, 0);
    if target_fault_from(t, cm, 0) == Some(ApplyError::ControlAsTarget) {
        let i = choose|i: int| 0 <= i < t.len() && cm & (1usize << #[trigger] t[i]) != 0;
        lemma_mask_contains(c, t[i]);
        let j = choose|j: int| 0 <= j < c.len() && c[j] == t[i];
        assert(t[i] == c[j]);
    }
    if target_fault_from(t, cm, 0) is None && c.no_duplicates() && k == t.len() {
        lemma_no_target_fault(t, cm, 0);
        assert(t.no_duplicates());
        assert forall|i: int, j: int| 0 <= i < t.len() && 0 <= j < c.len() implies #[trigger] t[i]
            != #[trigger] c[j] by {
            if t[i] == c[j] {
                assert(c.contains(t[i]));
                lemma_mask_contains(c, t[i]);
            }
        }
    }
    if k == t.len() && c.no_duplicates() && t.no_duplicates() && (forall|i: int, j: int|
        0 <= i < t.len() && 0 <= j < c.len() ==> #[trigger] t[i] != #[trigger] c[j]) {
        assert forall|i: int| 0 <= i < t.len() implies cm & (1usize << #[trigger] t[i]) == 0 by {
            lemma_mask_contains(c, t[i]);
            if c.contains(t[i]) {
                let j = choose|j: int| 0 <= j < c.len() && c[j] == t[i];
                assert(t[i] == c[j]);
            }
        }
        lemma_no_target_fault_from(t, cm, 0);
    }
}

/// A block of a plan starts at a basis state of the register with no
/// target bit and every control bit set.
pub proof fn law_block_starts(p: ApplyPlan, b: usize)
    ensures
        p.is_block(b) <==> (b < p.num_states() && b & p.target_mask() == 0 && b & p.control_mask()
            == p.control_mask()),
{
}

/// Row `r` of block `b` is the amplitude of basis state `b | offsets[r]`,
/// and a basis state is reached when it is such a state of some block.
pub proof fn law_block_contents<A>(s: Seq<A>, p: ApplyPlan, b: usize, j: int)
    ensures
        block_of(s, p, b).len() == p.offsets().len(),
        forall|r: int| 0 <= r < p.offsets().len() ==> #[trigger] block_of(s, p, b)[r] == s[(b
            | p.offsets()[r]) as int],
        reached(p, j) <==> exists|b2: usize, r: int|
            p.is_block(b2) && 0 <= r < p.offsets().len() && #[trigger] (b2 | p.offsets()[r]) == j,
{
    if reached(p, j) {
        let (b2, r) = choose|b2: usize, r: int|
            p.is_block(b2) && 0 <= r < p.offsets().len() && #[trigger] p.state_index(b2, r) == j;
        assert((b2 | p.offsets()[r]) == j);
    }
    if exists|b2: usize, r: int|
        p.is_block(b2) && 0 <= r < p.offsets().len() && #[trigger] (b2 | p.offsets()[r]) == j {
        let (b2, r) = choose|b2: usize, r: int|
            p.is_block(b2) && 0 <= r < p.offsets().len() && #[trigger] (b2 | p.offsets()[r]) == j;
        assert(p.state_index(b2, r) == j);
    }
}

/// The positions of a list of qubits are their bit positions, in order.
pub proof fn law_positions(qs: Seq<Qubit>)
    ensures
        positions(qs).len() == qs.len(),
        forall|i: int| 0 <= i < qs.len() ==> #[trigger] positions(qs)[i] == qs[i].pos(),
{
}

/// The mask of a list of bit positions has exactly the bits of the
/// positions in the list set.
pub proof fn law_mask_bits(s: Seq<usize>, p: usize)
    requires
        all_below(s, usize::BITS as usize),
        p < usize::BITS,
    ensures
        (mask_of(s) & (1usize << p) != 0) <==> s.contains(p),
{
    lemma_mask_contains(s, p);
}

} // verus!
