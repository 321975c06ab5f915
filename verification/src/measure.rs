use vstd::prelude::*;
use crate::bits::{mask_of, lemma_mask_push};
use crate::plan::positions;
use crate::qubit::Qubit;
use crate::system::QuantumSystem;

verus! {

/// The result of a measurement read off the collapsed basis state `c`:
/// bit `i` of the result is the bit of `c` at position `t[i]`.
pub open spec fn outcome_of(c: usize, t: Seq<usize>) -> usize
    decreases t.len(),
{
    if t.len() == 0 {
        0
    } else {
        outcome_of(c, t.drop_last()) | (((c >> t.last()) & 1) << ((t.len() - 1) as usize))
    }
}

/// The mask with the bit of each of the given qubits set.
pub fn qubit_mask(qubits: &[Qubit]) -> (m: usize)
    ensures
        m == mask_of(positions(qubits@)),
{
    let ghost q = positions(qubits@);
    let mut m: usize = 0;
    let mut j: usize = 0;
    assert(q.take(0) =~= Seq::<usize>::empty());
    while j < qubits.len()
        invariant
            j <= qubits.len(),
            q == positions(qubits@),
            m == mask_of(q.take(j as int)),
        decreases qubits.len() - j,
    {
        let p = qubits[j].position();
        assert(q.take(j + 1) =~= q.take(j as int).push(p));
        proof {
            lemma_mask_push(q.take(j as int), p);
        }
        m = m | (1usize << p);
        j += 1;
    }
    assert(q.take(qubits.len() as int) =~= q);
    m
}

/// The result of measuring `qubits` once the state has collapsed onto
/// basis states that agree with `collapsed` on those qubits: bit `i` of the
/// result is the value of `qubits[i]`.
pub fn outcome_bits(collapsed: usize, qubits: &[Qubit]) -> (r: usize)
    requires
        qubits.len() <= usize::BITS,
    ensures
        r == outcome_of(collapsed, positions(qubits@)),
{
    let ghost q = positions(qubits@);
    let mut r: usize = 0;
    let mut i: usize = 0;
    assert(q.take(0) =~= Seq::<usize>::empty());
    while i < qubits.len()
        invariant
            i <= qubits.len(),
            qubits.len() <= usize::BITS,
            q == positions(qubits@),
            r == outcome_of(collapsed, q.take(i as int)),
        decreases qubits.len() - i,
    {
        let p = qubits[i].position();
        assert(q.take(i + 1).drop_last() =~= q.take(i as int));
        assert(q.take(i + 1).last() == p);
        r = r | (((collapsed >> p) & 1) << i);
        i += 1;
    }
    assert(q.take(qubits.len() as int) =~= q);
    r
}

impl<A: Copy> QuantumSystem<A> {
    /// The basis states on which measuring `qubits` gives `outcome`, in
    /// increasing order: bit `i` of `outcome` is the value of `qubits[i]`.
    pub fn outcome_states(&self, qubits: &[Qubit], outcome: usize) -> (v: Vec<usize>)
        requires
            qubits.len() <= usize::BITS,
        ensures
            forall|k: int|
                0 <= k < v@.len() ==> #[trigger] v@[k] < self@.len() && outcome_of(
                    v@[k],
                    positions(qubits@),
                ) == outcome,
            forall|k1: int, k2: int| 0 <= k1 < k2 < v@.len() ==> #[trigger] v@[k1] < #[trigger] v@[k2],
            forall|i: usize|
                i < self@.len() && outcome_of(i, positions(qubits@)) == outcome
                    ==> #[trigger] v@.contains(i),
    {
        let ghost t = positions(qubits@);
        let len = self.count_states();
        let mut v: Vec<usize> = Vec::new();
        let mut i: usize = 0;
        while i < len
            invariant
                i <= len,
                len == self@.len(),
                qubits.len() <= usize::BITS,
                t == positions(qubits@),
                forall|k: int| 0 <= k < v@.len() ==> #[trigger] v@[k] < i && outcome_of(v@[k], t) == outcome,
                forall|k1: int, k2: int| 0 <= k1 < k2 < v@.len() ==> #[trigger] v@[k1] < #[trigger] v@[k2],
                forall|j: usize| j < i && outcome_of(j, t) == outcome ==> #[trigger] v@.contains(j),
            decreases len - i,
        {
            if outcome_bits(i, qubits) == outcome {
                let ghost old_v = v@;
                v.push(i);
                assert forall|j: usize| j < i + 1 && outcome_of(j, t) == outcome implies #[trigger] v@.contains(j) by {
                    if j < i {
                        assert(old_v.contains(j));
                        let k = choose|k: int| 0 <= k < old_v.len() && old_v[k] == j;
                        assert(v@[k] == j);
                    } else {
                        assert(v@[old_v.len() as int] == j);
                    }
                }
            }
            i += 1;
        }
        v
    }
}

} // verus!
