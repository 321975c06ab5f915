use vstd::prelude::*;
use crate::bits::{is_pow2, log2_of, lemma_log2_of_shl, exact_log2, lemma_shl_one_injective};

verus! {

/// The lengths that a gate's matrix may have: a power of two, at least 2.
pub open spec fn is_gate_len(len: usize) -> bool {
    is_pow2(len) && len >= 2
}

/// The number of target qubits of a gate whose matrix has `len` entries.
pub open spec fn arity_of_len(len: usize) -> usize {
    (log2_of(len) / 2) as usize
}

/// The entries of a unitary matrix, row by row, together with its rank.
///
/// The entry type is left open: the library moves entries but never
/// computes with them.
pub struct Gate<E> {
    values: Vec<E>,
    size: usize,
    qubits: usize,
}

impl<E> Gate<E> {
    #[verifier::type_invariant]
    spec fn shape_ok(self) -> bool {
        &&& is_gate_len(self.values.len())
        &&& self.qubits == arity_of_len(self.values.len())
        &&& self.size == 1usize << self.qubits
    }

    /// The matrix entries, row after row.
    pub closed spec fn entries(&self) -> Seq<E> {
        self.values@
    }

    /// The rank of the matrix.
    pub closed spec fn dim(&self) -> usize {
        self.size
    }

    /// The number of target qubits this gate acts on.
    pub closed spec fn arity(&self) -> usize {
        self.qubits
    }

    /// The shape facts that every gate satisfies, for use in code that
    /// holds a gate.
    pub(crate) fn shape_facts(&self)
        ensures
            is_gate_len(self.entries().len() as usize),
            self.arity() == arity_of_len(self.entries().len() as usize),
            self.dim() == 1usize << self.arity(),
            self.arity() < usize::BITS / 2,
            self.dim() * self.dim() <= self.entries().len(),
    {
        proof {
            use_type_invariant(self);
            lemma_dim_square(self.values.len());
        }
    }

    /// Creates a gate from the values of a unitary matrix, or `None` where
    /// their number is not a power of two of at least 2.
    pub fn new(values: Vec<E>) -> (g: Option<Gate<E>>)
        ensures
            g is Some <==> is_gate_len(values@.len() as usize),
            g matches Some(g) ==> {
                &&& g.entries() == values@
                &&& g.arity() == arity_of_len(values@.len() as usize)
                &&& g.dim() == 1usize << g.arity()
            },
            // Every power of two of at least 2 is accepted, with half its
            // exponent (rounded down) as the number of target qubits, and
            // nothing else is.
            forall|m: usize|
                1 <= m < usize::BITS && #[trigger] (1usize << m) == values@.len() ==> g is Some
                    && g->0.arity() == m / 2 && (m % 2 == 0 ==> g->0.dim() * g->0.dim()
                    == values@.len()),
            g is Some ==> exists|m: usize|
                1 <= m < usize::BITS && #[trigger] (1usize << m) == values@.len(),
    {
        let len = values.len();
        match exact_log2(len) {
            None => {
                assert forall|m: usize| 1 <= m < usize::BITS implies #[trigger] (1usize << m)
                    != len by {
                    if (1usize << m) == len {
                        assert(m < usize::BITS && len == 1usize << m);
                    }
                }
                None
            },
            Some(order) => {
                proof {
                    lemma_log2_of_shl(order);
                    assert(order < usize::BITS ==> ((1usize << order) >= 2 <==> order >= 1))
                        by (bit_vector);
                }
                if order < 1 {
                    assert forall|m: usize| 1 <= m < usize::BITS implies #[trigger] (1usize << m)
                        != len by {
                        assert(1 <= m < usize::BITS ==> (1usize << m) >= 2) by (bit_vector);
                    }
                    return None;
                }
                let qubits = order / 2;
                assert(qubits < usize::BITS);
                let size = 1usize << qubits;
                proof {
                    assert forall|m: usize|
                        1 <= m < usize::BITS && #[trigger] (1usize << m) == len implies m == order by {
                        lemma_shl_one_injective(m, order);
                    }
                    lemma_square_of_half(order);
                }
                Some(Gate { values, size, qubits })
            },
        }
    }

    /// Returns the n-th row of this gate's unitary matrix.
    pub fn row(&self, n: usize) -> (r: &[E])
        requires
            (n + 1) * self.dim() <= self.entries().len(),
        ensures
            r@ == self.entries().subrange(n * self.dim(), (n + 1) * self.dim()),
    {
        proof {
            use_type_invariant(self);
            assert((n + 1) * self.dim() == n * self.dim() + self.dim()) by (nonlinear_arith);
        }
        let base = n * self.size;
        &self.values.as_slice()[base..(base + self.size)]
    }

    /// Returns all entries of the matrix, row after row.
    pub fn values(&self) -> (v: &[E])
        ensures
            v@ == self.entries(),
    {
        self.values.as_slice()
    }

    /// Returns the rank of this gate's unitary matrix.
    /// This always equals 2^n where n is the number of target qubits.
    pub fn size(&self) -> (s: usize)
        ensures
            s == self.dim(),
            s == 1usize << self.arity(),
    {
        proof {
            use_type_invariant(self);
        }
        self.size
    }

    /// Returns the number of target qubits this gate operates on.
    pub fn qubits(&self) -> (q: usize)
        ensures
            q == self.arity(),
            self.dim() == 1usize << q,
    {
        proof {
            use_type_invariant(self);
        }
        self.qubits
    }
}

/// For an even exponent, the rank of the half exponent squared is the
/// whole power.
proof fn lemma_square_of_half(m: usize)
    requires
        m < usize::BITS,
    ensures
        m % 2 == 0 ==> (1usize << m / 2) * (1usize << m / 2) == (1usize << m),
{
    let q = m / 2;
    if m % 2 == 0 {
        assert(q + q == m);
        assert((1usize << q) * (1usize << q) == (1usize << m)) by (bit_vector)
            requires
                q + q == m,
                m < usize::BITS,
        ;
    }
}

/// What the shape functions give on every length: a power of two `2^m`
/// with `m >= 1` is a gate length whose gate acts on `m / 2` qubits, and
/// no other length is a gate length.
pub proof fn law_gate_lengths(len: usize)
    ensures
        is_gate_len(len) <==> exists|m: usize| 1 <= m < usize::BITS && #[trigger] (1usize << m) == len,
        forall|m: usize|
            1 <= m < usize::BITS && #[trigger] (1usize << m) == len ==> arity_of_len(len) == m / 2,
{
    assert forall|m: usize| 1 <= m < usize::BITS && #[trigger] (1usize << m) == len implies is_gate_len(
        len,
    ) && arity_of_len(len) == m / 2 by {
        lemma_log2_of_shl(m);
        assert(1 <= m < usize::BITS ==> (1usize << m) >= 2) by (bit_vector);
    }
    if is_gate_len(len) {
        let m = choose|m: usize| m < usize::BITS && len == 1usize << m;
        assert(m < usize::BITS ==> ((1usize << m) >= 2 ==> m >= 1)) by (bit_vector);
        assert(1 <= m < usize::BITS && (1usize << m) == len);
    }
}

/// The rank of a gate's matrix, squared, is no more than its length.
proof fn lemma_dim_square(len: usize)
    requires
        is_gate_len(len),
    ensures
        arity_of_len(len) < usize::BITS / 2,
        (1usize << arity_of_len(len)) * (1usize << arity_of_len(len)) <= len,
{
    let m = choose|m: usize| m < usize::BITS && len == 1usize << m;
    lemma_log2_of_shl(m);
    let q = m / 2;
    assert(q + q <= m);
    assert(arity_of_len(len) == q);
    assert((1usize << q) * (1usize << q) <= (1usize << m)) by (bit_vector)
        requires
            q + q <= m,
            m < usize::BITS,
    ;
}

} // verus!
