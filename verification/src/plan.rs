use vstd::prelude::*;
use crate::bits::{
    mask_of, all_below, step_over, lemma_mask_contains, lemma_mask_below,
    lemma_mask_push, lemma_step_shape, lemma_step_skips, lemma_join, lemma_split,
    lemma_low_bits_small,
};
use crate::offsets::{offset_of, lemma_offset_within, lemma_offset_injective};
use crate::gate::Gate;
use crate::qubit::Qubit;
use crate::system::QuantumSystem;
use crate::laws::law_plan_faults;

verus! {

/// The bit positions of a sequence of qubits.
pub open spec fn positions(qs: Seq<Qubit>) -> Seq<usize> {
    qs.map_values(|q: Qubit| q.pos())
}

/// Why a gate cannot be applied to the given qubits.
#[derive(Clone, Copy, Debug, PartialEq, Eq, Structural)]
pub enum ApplyError {
    /// The number of targets differs from the number of qubits this gate acts on.
    TargetCountMismatch,
    /// A qubit is listed twice among the controls.
    DuplicateControl,
    /// A qubit is listed twice among the targets.
    DuplicateTarget,
    /// A target is also a control.
    ControlAsTarget,
    /// A target lies outside the register while every control lies inside it.
    TargetOutOfRange,
}

/// The first fault among the targets from position `k` on, in their order:
/// a target seen before, or a target that is a control.
pub open spec fn target_fault_from(t: Seq<usize>, cm: usize, k: int) -> Option<ApplyError>
    decreases t.len() - k,
{
    if k < 0 || k >= t.len() {
        None
    } else if t.take(k).contains(t[k]) {
        Some(ApplyError::DuplicateTarget)
    } else if cm & (1usize << t[k]) != 0 {
        Some(ApplyError::ControlAsTarget)
    } else {
        target_fault_from(t, cm, k + 1)
    }
}

/// A gate on one qubit given several targets is applied to each in turn.
pub open spec fn applies_per_target(arity: usize, t: Seq<usize>) -> bool {
    arity == 1 && t.len() > 1
}

/// What stops a gate of `arity` qubits from acting on targets `t` under
/// controls `c` in a register of `n` qubits, checked in this order.
pub open spec fn apply_fault(n: usize, arity: usize, c: Seq<usize>, t: Seq<usize>) -> Option<
    ApplyError,
> {
    if arity != t.len() {
        Some(ApplyError::TargetCountMismatch)
    } else if !c.no_duplicates() {
        Some(ApplyError::DuplicateControl)
    } else if target_fault_from(t, mask_of(c), 0) is Some {
        target_fault_from(t, mask_of(c), 0)
    } else if all_below(c, n) && !all_below(t, n) {
        Some(ApplyError::TargetOutOfRange)
    } else {
        None
    }
}

/// How a controlled gate proceeds.
pub enum ControlledStep {
    /// Apply the one-qubit gate to each target separately, in order.
    EachTarget,
    /// Apply the matrix block by block as the plan lays out.
    Blocks(ApplyPlan),
}

/// The layout of one controlled application of a gate on a register.
///
/// The full matrix is the tensor product of the matrix of a gate (for the
/// targets) and the identity (for the other qubits), so it splits into
/// independent blocks. A block starts at a basis state `b` with no target
/// bit set and every control bit set; row `r` of the matrix maps to basis
/// state `b | offsets[r]`.
pub struct ApplyPlan {
    qubits: usize,
    control_mask: usize,
    target_mask: usize,
    offsets: Vec<usize>,
    targets: Ghost<Seq<usize>>,
}

impl ApplyPlan {
    #[verifier::type_invariant]
    pub closed spec fn layout_ok(self) -> bool {
        &&& self.qubits < usize::BITS - 1
        &&& all_below(self.targets@, (usize::BITS - 1) as usize)
        &&& self.targets@.no_duplicates()
        &&& self.targets@.len() < usize::BITS / 2
        &&& self.target_mask == mask_of(self.targets@)
        &&& self.control_mask & self.target_mask == 0
        &&& self.control_mask < (1usize << self.qubits) ==> self.target_mask < (1usize
            << self.qubits)
        &&& self.offsets@.len() == 1usize << self.targets@.len()
        &&& forall|r: int|
            0 <= r < self.offsets@.len() ==> #[trigger] self.offsets@[r] == offset_of(
                self.targets@,
                r as usize,
            )
    }

    /// The number of basis states of the register the plan was made for.
    pub closed spec fn num_states(&self) -> usize {
        1usize << self.qubits
    }

    /// The mask of the control qubits.
    pub closed spec fn control_mask(&self) -> usize {
        self.control_mask
    }

    /// The mask of the target qubits.
    pub closed spec fn target_mask(&self) -> usize {
        self.target_mask
    }

    /// The positions of the targets, in the order given.
    pub closed spec fn target_positions(&self) -> Seq<usize> {
        self.targets@
    }

    /// The offset of each row of the matrix inside a block.
    pub closed spec fn offsets(&self) -> Seq<usize> {
        self.offsets@
    }

    /// Basis state `b` starts a block: no target bit and every control bit
    /// is set.
    pub open spec fn is_block(&self, b: usize) -> bool {
        &&& b < self.num_states()
        &&& b & self.target_mask() == 0
        &&& b & self.control_mask() == self.control_mask()
    }

    /// The basis state that row `r` of the matrix stands for in block `b`.
    pub open spec fn state_index(&self, b: usize, r: int) -> usize {
        b | self.offsets()[r]
    }

    /// The number of rows of the matrix, the size of each block.
    pub fn block_size(&self) -> (n: usize)
        ensures
            n == self.offsets().len(),
    {
        self.offsets.len()
    }

    /// The offset of row `r` inside a block.
    pub(crate) fn offset(&self, r: usize) -> (o: usize)
        requires
            r < self.offsets().len(),
        ensures
            o == self.offsets()[r as int],
    {
        self.offsets[r]
    }

    /// Facts that hold of every plan, for code that holds one.
    pub(crate) fn layout_facts(&self)
        ensures
            self.num_states() < (1usize << (usize::BITS - 2) as usize) + 1,
            self.offsets().len() == 1usize << self.target_positions().len(),
            self.target_positions().len() < usize::BITS / 2,
            forall|b: usize, r: int|
                self.is_block(b) && 0 <= r < self.offsets().len() ==> #[trigger] self.state_index(
                    b,
                    r,
                ) < self.num_states(),
            forall|b: usize, r: int|
                self.is_block(b) && 0 <= r < self.offsets().len() ==> #[trigger] self.state_index(
                    b,
                    r,
                ) & self.control_mask() == self.control_mask(),
            forall|b1: usize, r1: int, b2: usize, r2: int|
                self.is_block(b1) && self.is_block(b2) && 0 <= r1 < self.offsets().len() && 0 <= r2
                    < self.offsets().len() && #[trigger] self.state_index(b1, r1)
                    == #[trigger] self.state_index(b2, r2) ==> b1 == b2 && r1 == r2,
    {
        proof {
            use_type_invariant(self);
            let n = self.qubits;
            let k = self.targets@.len() as usize;
            let t = self.targets@;
            let tm = self.target_mask;
            let cm = self.control_mask;
            assert(n < usize::BITS - 1 ==> (1usize << n) <= (1usize << (usize::BITS - 2) as usize))
                by (bit_vector);
            assert forall|b: usize, r: int|
                self.is_block(b) && 0 <= r < self.offsets().len() implies #[trigger] self.state_index(
                b,
                r,
            ) < self.num_states() && self.state_index(b, r) & cm == cm by {
                let o = self.offsets@[r];
                lemma_all_below_weaken(t, (usize::BITS - 1) as usize, usize::BITS as usize);
                lemma_offset_within(t, r as usize);
                lemma_join(b, o, cm, tm, n);
            }
            assert forall|b1: usize, r1: int, b2: usize, r2: int|
                self.is_block(b1) && self.is_block(b2) && 0 <= r1 < self.offsets().len() && 0 <= r2
                    < self.offsets().len() && #[trigger] self.state_index(b1, r1)
                    == #[trigger] self.state_index(b2, r2) implies b1 == b2 && r1 == r2 by {
                let o1 = self.offsets@[r1];
                let o2 = self.offsets@[r2];
                lemma_all_below_weaken(t, (usize::BITS - 1) as usize, usize::BITS as usize);
                lemma_offset_within(t, r1 as usize);
                lemma_offset_within(t, r2 as usize);
                lemma_split(b1, o1, b2, o2, tm);
                lemma_offset_injective(t, r1 as usize, r2 as usize);
                lemma_low_bits_small(r1 as usize, k);
                lemma_low_bits_small(r2 as usize, k);
            }
        }
    }
}

impl ApplyPlan {
    /// The first block at or after `start`, following the blocks upward.
    fn search_from(&self, start: usize) -> (res: Option<usize>)
        requires
            start & self.target_mask() == 0,
            start <= self.num_states(),
        ensures
            res matches Some(b) ==> self.is_block(b) && start <= b && forall|j: usize|
                start <= j < b ==> !self.is_block(j),
            res is None ==> forall|j: usize| start <= j ==> !self.is_block(j),
    {
        proof {
            use_type_invariant(self);
            lemma_all_below_weaken(self.targets@, (usize::BITS - 1) as usize, usize::BITS as usize);
            lemma_mask_below(self.targets@, (usize::BITS - 1) as usize);
        }
        let len: usize = 1usize << self.qubits;
        let tm = self.target_mask;
        let cm = self.control_mask;
        let mut i = start;
        while i < len
            invariant
                len == self.num_states(),
                tm == self.target_mask(),
                cm == self.control_mask(),
                tm < (1usize << (usize::BITS - 1) as usize),
                self.qubits < usize::BITS - 1,
                len == 1usize << self.qubits,
                i & tm == 0,
                start <= i,
                forall|j: usize| start <= j < i ==> !self.is_block(j),
            decreases usize::MAX - i,
        {
            if i & cm == cm {
                return Some(i);
            }
            proof {
                lemma_or_below_top(i, tm, self.qubits);
                lemma_step_shape(i, tm);
                assert forall|j: usize| start <= j < step_over(i, tm) implies !self.is_block(j) by {
                    if i < j {
                        lemma_step_skips(i, tm, j);
                    }
                }
            }
            i = ((i | tm) + 1) & !tm;
        }
        None
    }

    /// The lowest block of the register, if any.
    pub fn first_block(&self) -> (res: Option<usize>)
        ensures
            res matches Some(b) ==> self.is_block(b) && forall|j: usize|
                j < b ==> !self.is_block(j),
            res is None ==> forall|j: usize| !self.is_block(j),
    {
        let tm = self.target_mask;
        assert(0usize & tm == 0) by (bit_vector);
        self.search_from(0)
    }

    /// The next block above block `b`, if any.
    pub fn next_block(&self, b: usize) -> (res: Option<usize>)
        requires
            self.is_block(b),
        ensures
            res matches Some(c) ==> self.is_block(c) && b < c && forall|j: usize|
                b < j < c ==> !self.is_block(j),
            res is None ==> forall|j: usize| b < j ==> !self.is_block(j),
    {
        proof {
            use_type_invariant(self);
            lemma_all_below_weaken(self.targets@, (usize::BITS - 1) as usize, usize::BITS as usize);
            lemma_mask_below(self.targets@, (usize::BITS - 1) as usize);
        }
        let tm = self.target_mask;
        proof {
            lemma_or_below_top(b, tm, self.qubits);
            lemma_step_shape(b, tm);
            lemma_step_bounded(b, tm, self.control_mask, self.qubits);
            assert forall|j: usize| b < j < step_over(b, tm) implies !self.is_block(j) by {
                lemma_step_skips(b, tm, j);
            }
        }
        let start = ((b | tm) + 1) & !tm;
        self.search_from(start)
    }
}

impl<A: Copy> QuantumSystem<A> {
    /// Lays out the application of `gate` to `targets` under `controls`:
    /// which check fails first, or how to proceed.
    pub fn plan_controlled<E>(&self, gate: &Gate<E>, controls: &[Qubit], targets: &[Qubit]) -> (res:
        Result<ControlledStep, ApplyError>)
        ensures
            ({
                let n = self.num_qubits();
                let k = gate.arity();
                let c = positions(controls@);
                let t = positions(targets@);
                &&& applies_per_target(k, t) ==> (res matches Ok(ControlledStep::EachTarget))
                &&& !applies_per_target(k, t) ==> match res {
                    Ok(ControlledStep::EachTarget) => false,
                    Ok(ControlledStep::Blocks(p)) => {
                        &&& apply_fault(n, k, c, t) is None
                        &&& p.num_states() == self@.len()
                        &&& p.control_mask() == mask_of(c)
                        &&& p.target_positions() == t
                        &&& p.target_mask() == mask_of(t)
                        &&& p.offsets().len() == gate.dim()
                        &&& forall|r: int|
                            0 <= r < gate.dim() ==> #[trigger] p.offsets()[r] == offset_of(
                                t,
                                r as usize,
                            )
                    },
                    Err(e) => apply_fault(n, k, c, t) == Some(e),
                }
            }),
            // The same in terms of the qubits alone.
            gate.arity() == 1 && targets@.len() >= 2 ==> (res matches Ok(ControlledStep::EachTarget)),
            (res matches Ok(ControlledStep::EachTarget)) ==> gate.arity() == 1 && targets@.len() >= 2,
            (res matches Err(ApplyError::TargetCountMismatch)) ==> gate.arity() != targets@.len(),
            (res matches Err(ApplyError::DuplicateControl)) ==> !positions(controls@).no_duplicates(),
            (res matches Err(ApplyError::DuplicateTarget)) ==> !positions(targets@).no_duplicates(),
            (res matches Err(ApplyError::ControlAsTarget)) ==> exists|i: int, j: int|
                0 <= i < targets@.len() && 0 <= j < controls@.len() && #[trigger] targets@[i].pos()
                    == #[trigger] controls@[j].pos(),
            (res matches Err(ApplyError::TargetOutOfRange)) ==> exists|i: int|
                0 <= i < targets@.len() && #[trigger] targets@[i].pos() >= self.num_qubits(),
            ({
                &&& gate.arity() == targets@.len()
                &&& positions(controls@).no_duplicates()
                &&& positions(targets@).no_duplicates()
                &&& forall|i: int, j: int|
                    0 <= i < targets@.len() && 0 <= j < controls@.len() ==> #[trigger] targets@[i].pos()
                        != #[trigger] controls@[j].pos()
                &&& forall|i: int| 0 <= i < targets@.len() ==> #[trigger] targets@[i].pos() < self.num_qubits()
            }) ==> (res matches Ok(ControlledStep::Blocks(_))),
    {
        let res = self.lay_out(gate, controls, targets);
        let ghost c = positions(controls@);
        let ghost t = positions(targets@);
        positions_fit(controls);
        positions_fit(targets);
        proof {
            lemma_all_below_weaken(c, (usize::BITS - 1) as usize, usize::BITS as usize);
            lemma_all_below_weaken(t, (usize::BITS - 1) as usize, usize::BITS as usize);
            law_plan_faults(self.num_qubits(), gate.arity(), c, t);
            assert forall|i: int| 0 <= i < targets@.len() implies #[trigger] t[i] == targets@[i].pos() by {}
            assert forall|j: int| 0 <= j < controls@.len() implies #[trigger] c[j] == controls@[j].pos() by {}
        }
        res
    }

    /// Lays out the application, stated over the positions of the qubits.
    fn lay_out<E>(&self, gate: &Gate<E>, controls: &[Qubit], targets: &[Qubit]) -> (res:
        Result<ControlledStep, ApplyError>)
        ensures
            ({
                let n = self.num_qubits();
                let k = gate.arity();
                let c = positions(controls@);
                let t = positions(targets@);
                &&& applies_per_target(k, t) ==> (res matches Ok(ControlledStep::EachTarget))
                &&& !applies_per_target(k, t) ==> match res {
                    Ok(ControlledStep::EachTarget) => false,
                    Ok(ControlledStep::Blocks(p)) => {
                        &&& apply_fault(n, k, c, t) is None
                        &&& p.num_states() == self@.len()
                        &&& p.control_mask() == mask_of(c)
                        &&& p.target_positions() == t
                        &&& p.target_mask() == mask_of(t)
                        &&& p.offsets().len() == gate.dim()
                        &&& forall|r: int|
                            0 <= r < gate.dim() ==> #[trigger] p.offsets()[r] == offset_of(
                                t,
                                r as usize,
                            )
                    },
                    Err(e) => apply_fault(n, k, c, t) == Some(e),
                }
            }),
    {
        gate.shape_facts();
        let k = gate.qubits();
        let ghost c = positions(controls@);
        let ghost t = positions(targets@);
        if k == 1 && targets.len() > 1 {
            return Ok(ControlledStep::EachTarget);
        }
        if k != targets.len() {
            return Err(ApplyError::TargetCountMismatch);
        }
        // The control mask; a control bit set twice is a duplicate.
        let mut cm: usize = 0;
        let mut j: usize = 0;
        while j < controls.len()
            invariant
                j <= controls.len(),
                c == positions(controls@),
                t == positions(targets@),
                k == gate.arity(),
                k == t.len(),
                !applies_per_target(k, t),
                cm == mask_of(c.take(j as int)),
                c.take(j as int).no_duplicates(),
                all_below(c.take(j as int), (usize::BITS - 1) as usize),
            decreases controls.len() - j,
        {
            let p = controls[j].position();
            assert(c[j as int] == p);
            assert(c.take(j + 1) =~= c.take(j as int).push(p));
            proof {
                lemma_all_below_weaken(c.take(j as int), (usize::BITS - 1) as usize, usize::BITS as usize);
                lemma_mask_contains(c.take(j as int), p);
                lemma_mask_push(c.take(j as int), p);
            }
            if cm & (1usize << p) != 0 {
                proof {
                    let i = choose|i: int| 0 <= i < j && c.take(j as int)[i] == p;
                    assert(c[i] == c[j as int]);
                    assert(!c.no_duplicates());
                }
                return Err(ApplyError::DuplicateControl);
            }
            cm = cm | (1usize << p);
            proof {
                lemma_push_distinct(c.take(j as int), p);
            }
            j += 1;
        }
        assert(c.take(controls.len() as int) =~= c);
        // The target mask; a target bit set twice is a duplicate, a target
        // bit among the controls a control used as target.
        let mut tm: usize = 0;
        let mut j: usize = 0;
        assert(t.take(0) =~= Seq::<usize>::empty());
        assert(cm & 0usize == 0) by (bit_vector);
        while j < targets.len()
            invariant
                j <= targets.len(),
                t == positions(targets@),
                c == positions(controls@),
                k == gate.arity(),
                k == t.len(),
                !applies_per_target(k, t),
                cm == mask_of(c),
                c.no_duplicates(),
                all_below(c, (usize::BITS - 1) as usize),
                tm == mask_of(t.take(j as int)),
                cm & tm == 0,
                t.take(j as int).no_duplicates(),
                all_below(t.take(j as int), (usize::BITS - 1) as usize),
                target_fault_from(t, cm, 0) == target_fault_from(t, cm, j as int),
            decreases targets.len() - j,
        {
            let p = targets[j].position();
            assert(t[j as int] == p);
            assert(t.take(j + 1) =~= t.take(j as int).push(p));
            proof {
                lemma_all_below_weaken(t.take(j as int), (usize::BITS - 1) as usize, usize::BITS as usize);
                lemma_mask_contains(t.take(j as int), p);
                lemma_mask_push(t.take(j as int), p);
            }
            if tm & (1usize << p) != 0 {
                return Err(ApplyError::DuplicateTarget);
            }
            if cm & (1usize << p) != 0 {
                return Err(ApplyError::ControlAsTarget);
            }
            proof {
                lemma_disjoint_add_bit(cm, tm, p);
                lemma_push_distinct(t.take(j as int), p);
            }
            tm = tm | (1usize << p);
            j += 1;
        }
        assert(t.take(targets.len() as int) =~= t);
        assert(target_fault_from(t, cm, targets.len() as int) is None);
        // The offset of each row of the matrix inside a block.
        let size = gate.size();
        let mut offsets: Vec<usize> = Vec::with_capacity(size);
        let mut r: usize = 0;
        while r < size
            invariant
                r <= size,
                size == gate.dim(),
                size == 1usize << k,
                k == targets.len(),
                k < usize::BITS / 2,
                t == positions(targets@),
                offsets@.len() == r,
                forall|i: int| 0 <= i < r ==> #[trigger] offsets@[i] == offset_of(t, i as usize),
            decreases size - r,
        {
            let mut bo: usize = 0;
            let mut i: usize = 0;
            while i < k
                invariant
                    i <= k,
                    k == targets.len(),
                    k < usize::BITS / 2,
                    t == positions(targets@),
                    bo == offset_of(t.subrange(k - i, k as int), r),
                decreases k - i,
            {
                let p = targets[k - 1 - i].position();
                let ghost u = t.subrange(k - i - 1, k as int);
                assert(u.drop_first() =~= t.subrange(k - i, k as int));
                assert(u[0] == p);
                bo = bo | (((r >> i) & 1) << p);
                i += 1;
            }
            assert(t.subrange(0, k as int) =~= t);
            offsets.push(bo);
            r += 1;
        }
        // A target outside the register is reached as soon as one block
        // exists, which is exactly when every control lies inside it.
        let len = self.count_states();
        let n = self.count_qubits();
        proof {
            lemma_all_below_weaken(c, (usize::BITS - 1) as usize, usize::BITS as usize);
            lemma_all_below_weaken(t, (usize::BITS - 1) as usize, usize::BITS as usize);
            lemma_mask_below(c, n);
            lemma_mask_below(t, n);
        }
        if cm < len && tm >= len {
            return Err(ApplyError::TargetOutOfRange);
        }
        let plan = ApplyPlan { qubits: n, control_mask: cm, target_mask: tm, offsets, targets: Ghost(t) };
        Ok(ControlledStep::Blocks(plan))
    }
}

/// Every qubit's position leaves room below the top bit.
fn positions_fit(qs: &[Qubit])
    ensures
        all_below(positions(qs@), (usize::BITS - 1) as usize),
{
    let mut j: usize = 0;
    while j < qs.len()
        invariant
            j <= qs.len(),
            forall|i: int| 0 <= i < j ==> #[trigger] qs@[i].pos() < usize::BITS - 1,
        decreases qs.len() - j,
    {
        let _ = qs[j].position();
        j += 1;
    }
}

proof fn lemma_push_distinct(s: Seq<usize>, p: usize)
    requires
        s.no_duplicates(),
        !s.contains(p),
    ensures
        s.push(p).no_duplicates(),
{
    let u = s.push(p);
    assert forall|i: int, j: int| 0 <= i < u.len() && 0 <= j < u.len() && i != j implies u[i]
        != u[j] by {
        if i < s.len() && j < s.len() {
            assert(u[i] == s[i] && u[j] == s[j]);
        } else if i < s.len() {
            assert(u[i] == s[i]);
        } else if j < s.len() {
            assert(u[j] == s[j]);
        }
    }
}

proof fn lemma_disjoint_add_bit(cm: usize, tm: usize, p: usize)
    by (bit_vector)
    requires
        cm & tm == 0,
        cm & (1usize << p) == 0,
    ensures
        cm & (tm | (1usize << p)) == 0,
{
}

proof fn lemma_or_below_top(i: usize, tm: usize, n: usize)
    by (bit_vector)
    requires
        n < usize::BITS - 1,
        i < (1usize << n),
        tm < (1usize << (usize::BITS - 1) as usize),
    ensures
        (i | tm) != !0usize,
        (i | tm) < (1usize << (usize::BITS - 1) as usize),
{
}

proof fn lemma_step_bounded(b: usize, tm: usize, cm: usize, n: usize)
    by (bit_vector)
    requires
        n < usize::BITS - 1,
        b < (1usize << n),
        b & tm == 0,
        b & cm == cm,
        cm < (1usize << n) ==> tm < (1usize << n),
    ensures
        step_over(b, tm) <= (1usize << n),
{
}

pub proof fn lemma_all_below_weaken(s: Seq<usize>, n: usize, m: usize)
    requires
        all_below(s, n),
        n <= m,
    ensures
        all_below(s, m),
{
}




} // verus!
