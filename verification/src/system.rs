use vstd::prelude::*;
use crate::qubit::Qubit;
use crate::plan::ApplyPlan;
use crate::bits::lemma_shl_one_positive;

verus! {

/// The state vector of a register of qubits: one amplitude per basis state,
/// `2^n` of them for `n` qubits. Basis state `i` has qubit `q` in state 1
/// exactly where bit `q` of `i` is set.
///
/// The amplitude type is left open: the library moves amplitudes but never
/// computes with them.
pub struct QuantumSystem<A> {
    states: Vec<A>,
    qubits: usize,
}

impl<A> View for QuantumSystem<A> {
    type V = Seq<A>;

    closed spec fn view(&self) -> Seq<A> {
        self.states@
    }
}

/// The amplitudes of block `b` of a plan in the state vector `s`, one per
/// row of the matrix.
pub open spec fn block_of<A>(s: Seq<A>, plan: ApplyPlan, b: usize) -> Seq<A> {
    Seq::new(plan.offsets().len(), |r: int| s[plan.state_index(b, r) as int])
}

/// Basis state `j` belongs to some block of the plan.
pub open spec fn reached(plan: ApplyPlan, j: int) -> bool {
    exists|b: usize, r: int|
        plan.is_block(b) && 0 <= r < plan.offsets().len() && #[trigger] plan.state_index(b, r) == j
}

impl<A> QuantumSystem<A> {
    /// The register holds `2^n` amplitudes for its `n` qubits, and `n`
    /// leaves room below the top bit of a `usize`.
    #[verifier::type_invariant]
    pub closed spec fn register_ok(self) -> bool {
        &&& self.qubits < usize::BITS - 1
        &&& self.states.len() == 1usize << self.qubits
    }

    /// The number of qubits in the register.
    pub closed spec fn num_qubits(&self) -> usize {
        self.qubits
    }
}

impl<A: Copy> QuantumSystem<A> {
    /// Takes the amplitudes out, leaving a register of no qubits in their
    /// place until they are put back.
    fn take_states(&mut self) -> (r: (Vec<A>, usize))
        ensures
            r.0@ == old(self)@,
            r.1 == old(self).num_qubits(),
            r.1 < usize::BITS - 1,
            r.0@.len() == 1usize << r.1,
    {
        proof {
            use_type_invariant(&*self);
            lemma_shl_one_positive(self.qubits);
            assert(1usize << 0usize == 1) by (bit_vector);
        }
        let filler = self.states[0];
        let mut v: Vec<A> = Vec::new();
        v.push(filler);
        let mut other = QuantumSystem { states: v, qubits: 0 };
        std::mem::swap(self, &mut other);
        proof {
            use_type_invariant(&other);
        }
        let QuantumSystem { states, qubits } = other;
        (states, qubits)
    }

    /// Puts amplitudes back for `qubits` qubits.
    fn put_states(&mut self, states: Vec<A>, qubits: usize)
        requires
            qubits < usize::BITS - 1,
            states@.len() == 1usize << qubits,
        ensures
            final(self)@ == states@,
            final(self).num_qubits() == qubits,
    {
        *self = QuantumSystem { states, qubits };
    }

    /// A system of no qubits, whose single basis state has amplitude `one`.
    pub fn new(one: A) -> (s: Self)
        ensures
            s.num_qubits() == 0,
            s@ == seq![one],
    {
        let mut states: Vec<A> = Vec::new();
        states.push(one);
        proof {
            assert(1usize << 0usize == 1) by (bit_vector);
        }
        QuantumSystem { states, qubits: 0 }
    }

    /// Adds a qubit in state 0: the amplitudes of the states where it is 1
    /// are `zero`, those where it is 0 are the old ones. Returns the new
    /// qubit, whose position is the old number of qubits.
    pub fn new_qubit(&mut self, zero: A) -> (q: Qubit)
        requires
            old(self).num_qubits() + 2 < usize::BITS,
        ensures
            q.pos() == old(self).num_qubits(),
            final(self).num_qubits() == old(self).num_qubits() + 1,
            final(self)@.len() == 2 * old(self)@.len(),
            final(self)@.subrange(0, old(self)@.len() as int) == old(self)@,
            forall|i: int| old(self)@.len() <= i < final(self)@.len() ==> final(self)@[i] == zero,
    {
        let (mut states, old_qubits) = self.take_states();
        let len = states.len();
        let ghost old_states = states@;
        let mut k: usize = 0;
        while k < len
            invariant
                k <= len,
                len == old_states.len(),
                states@.len() == len + k,
                states@.subrange(0, len as int) == old_states,
                forall|i: int| len <= i < len + k ==> states@[i] == zero,
            decreases len - k,
        {
            states.push(zero);
            k += 1;
            assert(states@.subrange(0, len as int) =~= old_states);
        }
        proof {
            assert(old_qubits + 2 < usize::BITS ==> (1usize << (old_qubits + 1) as usize)
                == 2 * (1usize << old_qubits)) by (bit_vector);
        }
        self.put_states(states, old_qubits + 1);
        Qubit::from_position(old_qubits)
    }

    /// Returns the number of basis states.
    /// This always equals 2^n where n is the number of qubits.
    pub fn count_states(&self) -> (n: usize)
        ensures
            n == self@.len(),
            n == 1usize << self.num_qubits(),
            self.num_qubits() < usize::BITS - 1,
    {
        proof {
            use_type_invariant(self);
        }
        self.states.len()
    }

    /// Returns the number of qubits.
    pub fn count_qubits(&self) -> (n: usize)
        ensures
            n == self.num_qubits(),
            self@.len() == 1usize << n,
            n < usize::BITS - 1,
    {
        proof {
            use_type_invariant(self);
        }
        self.qubits
    }

    /// Returns the probability amplitudes of all basis states.
    pub fn amplitudes(&self) -> (a: &[A])
        ensures
            a@ == self@,
    {
        self.states.as_slice()
    }

    /// Resets all qubits to state 0: basis state 0 gets amplitude `one`,
    /// every other basis state `zero`.
    pub fn reset(&mut self, zero: A, one: A)
        ensures
            final(self).num_qubits() == old(self).num_qubits(),
            final(self)@.len() == old(self)@.len(),
            final(self)@[0] == one,
            forall|i: int| 0 < i < final(self)@.len() ==> final(self)@[i] == zero,
    {
        let (mut states, qubits) = self.take_states();
        proof {
            lemma_shl_one_positive(qubits);
        }
        let len = states.len();
        let mut i: usize = 0;
        while i < len
            invariant
                i <= len,
                len == states@.len(),
                forall|j: int| 0 <= j < i ==> states@[j] == zero,
            decreases len - i,
        {
            states.set(i, zero);
            i += 1;
        }
        states.set(0, one);
        self.put_states(states, qubits);
    }

    /// The amplitudes of block `b` of the plan, one per row of the matrix:
    /// entry `r` is the amplitude of basis state `b | offsets[r]`.
    pub fn block_amplitudes(&self, plan: &ApplyPlan, b: usize) -> (v: Vec<A>)
        requires
            plan.num_states() == self@.len(),
            plan.is_block(b),
        ensures
            v@.len() == plan.offsets().len(),
            forall|r: int|
                0 <= r < v@.len() ==> #[trigger] v@[r] == self@[plan.state_index(b, r) as int],
    {
        plan.layout_facts();
        let size = plan.block_size();
        let mut v: Vec<A> = Vec::with_capacity(size);
        let mut r: usize = 0;
        while r < size
            invariant
                r <= size,
                size == plan.offsets().len(),
                plan.num_states() == self@.len(),
                plan.is_block(b),
                v@.len() == r,
                forall|b: usize, r: int|
                    plan.is_block(b) && 0 <= r < plan.offsets().len() ==> #[trigger] plan.state_index(
                        b,
                        r,
                    ) < plan.num_states(),
                forall|i: int| 0 <= i < r ==> #[trigger] v@[i] == self@[plan.state_index(b, i) as int],
            decreases size - r,
        {
            let i = b | plan.offset(r);
            assert(i == plan.state_index(b, r as int));
            v.push(self.states[i]);
            r += 1;
        }
        v
    }

    /// Applies a map to every block of the plan, each once: the amplitudes
    /// of block `b` become `f` of its old amplitudes. Basis states outside
    /// the blocks, among them every state with a control bit clear, keep
    /// their amplitude.
    pub fn apply_blocks<F: Fn(Vec<A>) -> Vec<A>>(&mut self, plan: &ApplyPlan, f: F)
        requires
            plan.num_states() == old(self)@.len(),
            forall|v: Vec<A>| v@.len() == plan.offsets().len() ==> #[trigger] f.requires((v,)),
            forall|v: Vec<A>, w: Vec<A>| #[trigger] f.ensures((v,), w) ==> w@.len() == v@.len(),
        ensures
            final(self).num_qubits() == old(self).num_qubits(),
            final(self)@.len() == old(self)@.len(),
            forall|b: usize|
                plan.is_block(b) ==> exists|v: Vec<A>, w: Vec<A>|
                    v@ == block_of(old(self)@, *plan, b) && w@ == block_of(final(self)@, *plan, b)
                        && #[trigger] f.ensures((v,), w),
            forall|j: int|
                0 <= j < old(self)@.len() && !reached(*plan, j) ==> #[trigger] final(self)@[j]
                    == old(self)@[j],
            forall|j: usize|
                j < old(self)@.len() && j & plan.control_mask() != plan.control_mask()
                    ==> #[trigger] final(self)@[j as int] == old(self)@[j as int],
    {
        plan.layout_facts();
        let (mut states, qubits) = self.take_states();
        let ghost old_states = states@;
        let len = states.len();
        let size = plan.block_size();
        let ghost mut ins: Map<usize, Vec<A>> = Map::empty();
        let ghost mut outs: Map<usize, Vec<A>> = Map::empty();
        let mut cur = plan.first_block();
        let ghost mut limit: int = match cur {
            Some(b) => b as int,
            None => len as int,
        };
        while cur.is_some()
            invariant
                len == states@.len(),
                len == old_states.len(),
                plan.num_states() == len,
                size == plan.offsets().len(),
                forall|v: Vec<A>| v@.len() == plan.offsets().len() ==> #[trigger] f.requires((v,)),
                forall|v: Vec<A>, w: Vec<A>| #[trigger] f.ensures((v,), w) ==> w@.len() == v@.len(),
                cur matches Some(b) ==> plan.is_block(b) && limit == b,
                cur is None ==> limit == len,
                forall|j: usize|
                    plan.is_block(j) && j < limit ==> #[trigger] ins.contains_key(j) && outs.contains_key(j)
                        && ins[j]@ == block_of(old_states, *plan, j) && outs[j]@ == block_of(
                        states@,
                        *plan,
                        j,
                    ) && f.ensures((ins[j],), outs[j]),
                forall|i: int|
                    0 <= i < len && !(exists|j: usize, r: int|
                        plan.is_block(j) && j < limit && 0 <= r < size && #[trigger] plan.state_index(j, r) == i)
                        ==> #[trigger] states@[i] == old_states[i],
            decreases len - limit,
        {
            plan.layout_facts();
            let b = cur.unwrap();
            // Read the block; its states belong to no block below it.
            let mut v: Vec<A> = Vec::with_capacity(size);
            let mut r: usize = 0;
            while r < size
                invariant
                    r <= size,
                    size == plan.offsets().len(),
                    plan.num_states() == len,
                    len == states@.len(),
                    plan.is_block(b),
                    b == limit,
                    v@.len() == r,
                    forall|b: usize, r: int|
                        plan.is_block(b) && 0 <= r < plan.offsets().len() ==> #[trigger] plan.state_index(
                            b,
                            r,
                        ) < plan.num_states(),
                    forall|i: int| 0 <= i < r ==> #[trigger] v@[i] == states@[plan.state_index(b, i) as int],
                decreases size - r,
            {
                let i = b | plan.offset(r);
                assert(i == plan.state_index(b, r as int));
                v.push(states[i]);
                r += 1;
            }
            assert(v@ =~= block_of(old_states, *plan, b)) by {
                assert forall|r: int| 0 <= r < size implies v@[r] == old_states[plan.state_index(b, r) as int] by {
                    let i = plan.state_index(b, r) as int;
                    if exists|j: usize, r2: int|
                        plan.is_block(j) && j < limit && 0 <= r2 < size && #[trigger] plan.state_index(j, r2) == i {
                        let (j, r2) = choose|j: usize, r2: int|
                            plan.is_block(j) && j < limit && 0 <= r2 < size && #[trigger] plan.state_index(j, r2) == i;
                        assert(j == b);
                    }
                }
            }
            let ghost gv = v;
            let w = f(v);
            let ghost prev = states@;
            // Write the block.
            let mut r: usize = 0;
            while r < size
                invariant
                    r <= size,
                    size == plan.offsets().len(),
                    size == w@.len(),
                    plan.num_states() == len,
                    len == states@.len(),
                    len == prev.len(),
                    plan.is_block(b),
                    forall|b: usize, r: int|
                        plan.is_block(b) && 0 <= r < plan.offsets().len() ==> #[trigger] plan.state_index(
                            b,
                            r,
                        ) < plan.num_states(),
                    forall|b1: usize, r1: int, b2: usize, r2: int|
                        plan.is_block(b1) && plan.is_block(b2) && 0 <= r1 < plan.offsets().len() && 0 <= r2
                            < plan.offsets().len() && #[trigger] plan.state_index(b1, r1)
                            == #[trigger] plan.state_index(b2, r2) ==> b1 == b2 && r1 == r2,
                    forall|i: int|
                        0 <= i < r ==> states@[plan.state_index(b, i) as int] == #[trigger] w@[i],
                    forall|j: int|
                        0 <= j < len && (forall|i: int|
                            0 <= i < r ==> plan.state_index(b, i) != j) ==> #[trigger] states@[j]
                            == prev[j],
                decreases size - r,
            {
                let i = b | plan.offset(r);
                assert(i == plan.state_index(b, r as int));
                states.set(i, w[r]);
                r += 1;
            }
            assert(w@ =~= block_of(states@, *plan, b));
            proof {
                // Blocks below `b` keep what was written to them.
                assert forall|j: usize| plan.is_block(j) && j < limit implies block_of(states@, *plan, j)
                    =~= block_of(prev, *plan, j) by {
                    assert forall|r: int| 0 <= r < size implies states@[plan.state_index(j, r) as int]
                        == prev[plan.state_index(j, r) as int] by {
                        let x = plan.state_index(j, r) as int;
                        assert forall|i: int| 0 <= i < size implies plan.state_index(b, i) != x by {
                            if plan.state_index(b, i) == x {
                                assert(j == b);
                            }
                        }
                    }
                }
                ins = ins.insert(b, gv);
                outs = outs.insert(b, w);
            }
            cur = plan.next_block(b);
            proof {
                let new_limit: int = match cur {
                    Some(c) => c as int,
                    None => len as int,
                };
                assert forall|i: int|
                    0 <= i < len && !(exists|j: usize, r: int|
                        plan.is_block(j) && j < new_limit && 0 <= r < size && #[trigger] plan.state_index(j, r) == i)
                        implies #[trigger] states@[i] == old_states[i] by {
                    assert forall|r: int| 0 <= r < size implies plan.state_index(b, r) != i by {
                        if plan.state_index(b, r) == i {
                            assert(plan.is_block(b) && b < new_limit);
                        }
                    }
                    if exists|j: usize, r: int|
                        plan.is_block(j) && j < limit && 0 <= r < size && #[trigger] plan.state_index(j, r) == i {
                        let (j, r) = choose|j: usize, r: int|
                            plan.is_block(j) && j < limit && 0 <= r < size && #[trigger] plan.state_index(j, r) == i;
                        assert(j < new_limit);
                    }
                }
                assert forall|j: usize| plan.is_block(j) && j < new_limit implies #[trigger] ins.contains_key(j)
                    && outs.contains_key(j) && ins[j]@ == block_of(old_states, *plan, j) && outs[j]@
                    == block_of(states@, *plan, j) && f.ensures((ins[j],), outs[j]) by {
                    if j != b {
                        assert(j < limit);
                    }
                }
                limit = new_limit;
            }
        }
        proof {
            assert forall|j: usize| j < len && j & plan.control_mask() != plan.control_mask()
                implies !reached(*plan, j as int) by {
                if reached(*plan, j as int) {
                    let (b, r) = choose|b: usize, r: int|
                        plan.is_block(b) && 0 <= r < plan.offsets().len() && #[trigger] plan.state_index(b, r) == j as int;
                    assert(plan.state_index(b, r) & plan.control_mask() == plan.control_mask());
                }
            }
            assert forall|b: usize| plan.is_block(b) implies exists|v: Vec<A>, w: Vec<A>|
                v@ == block_of(old_states, *plan, b) && w@ == block_of(states@, *plan, b)
                    && #[trigger] f.ensures((v,), w) by {
                assert(ins.contains_key(b));
                assert(f.ensures((ins[b],), outs[b]));
            }
        }
        self.put_states(states, qubits);
    }

    /// The basis states whose bits under `mask` equal `outcome`, in
    /// increasing order.
    pub fn matching_states(&self, mask: usize, outcome: usize) -> (v: Vec<usize>)
        ensures
            forall|k: int| 0 <= k < v@.len() ==> #[trigger] v@[k] < self@.len() && v@[k] & mask == outcome,
            forall|k1: int, k2: int| 0 <= k1 < k2 < v@.len() ==> #[trigger] v@[k1] < #[trigger] v@[k2],
            forall|i: usize| i < self@.len() && i & mask == outcome ==> #[trigger] v@.contains(i),
    {
        let len = self.states.len();
        let mut v: Vec<usize> = Vec::new();
        let mut i: usize = 0;
        while i < len
            invariant
                i <= len,
                len == self@.len(),
                forall|k: int| 0 <= k < v@.len() ==> #[trigger] v@[k] < i && v@[k] & mask == outcome,
                forall|k1: int, k2: int| 0 <= k1 < k2 < v@.len() ==> #[trigger] v@[k1] < #[trigger] v@[k2],
                forall|j: usize| j < i && j & mask == outcome ==> #[trigger] v@.contains(j),
            decreases len - i,
        {
            if i & mask == outcome {
                let ghost old_v = v@;
                v.push(i);
                assert forall|j: usize| j < i + 1 && j & mask == outcome implies #[trigger] v@.contains(j) by {
                    if j < i {
                        assert(old_v.contains(j));
                        let k = choose|k: int| 0 <= k < old_v.len() && old_v[k] == j;
                        assert(v@[k] == j);
                    } else {
                        assert(v@[old_v.len() as int] == j);
                    }
                }
            } else {
                assert forall|j: usize| j < i + 1 && j & mask == outcome implies #[trigger] v@.contains(j) by {
                    if j < i {
                    }
                }
            }
            i += 1;
        }
        v
    }

    /// Collapses the state onto the measured outcome: every basis state
    /// whose bits under `mask` differ from `outcome` gets amplitude `zero`;
    /// the others keep theirs.
    pub fn collapse(&mut self, mask: usize, outcome: usize, zero: A)
        ensures
            final(self).num_qubits() == old(self).num_qubits(),
            final(self)@.len() == old(self)@.len(),
            forall|i: int|
                0 <= i < final(self)@.len() ==> #[trigger] final(self)@[i] == if (i as usize) & mask
                    == outcome {
                    old(self)@[i]
                } else {
                    zero
                },
    {
        let (mut states, qubits) = self.take_states();
        let ghost old_states = states@;
        let len = states.len();
        let mut i: usize = 0;
        while i < len
            invariant
                i <= len,
                len == states@.len(),
                len == old_states.len(),
                forall|j: int|
                    0 <= j < i ==> #[trigger] states@[j] == if (j as usize) & mask == outcome {
                        old_states[j]
                    } else {
                        zero
                    },
                forall|j: int| i <= j < len ==> #[trigger] states@[j] == old_states[j],
            decreases len - i,
        {
            if i & mask != outcome {
                states.set(i, zero);
            }
            i += 1;
        }
        self.put_states(states, qubits);
    }

    /// Sets the amplitude of basis state `i`.
    pub fn set_amplitude(&mut self, i: usize, value: A)
        requires
            i < old(self)@.len(),
        ensures
            final(self).num_qubits() == old(self).num_qubits(),
            final(self)@ == old(self)@.update(i as int, value),
    {
        let (mut states, qubits) = self.take_states();
        states.set(i, value);
        self.put_states(states, qubits);
    }
}

} // verus!
