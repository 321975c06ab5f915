use vstd::prelude::*;

verus! {

/// The mask with one bit set for each position in `s`.
pub open spec fn mask_of(s: Seq<usize>) -> usize
    decreases s.len(),
{
    if s.len() == 0 {
        0
    } else {
        mask_of(s.drop_first()) | (1usize << s[0])
    }
}

/// Every position in `s` can be shifted to without reaching the top bit.
pub open spec fn all_below(s: Seq<usize>, n: usize) -> bool {
    forall|i: int| 0 <= i < s.len() ==> #[trigger] s[i] < n
}

/// `x` has no bit outside `m`.
pub open spec fn within(x: usize, m: usize) -> bool {
    x & !m == 0
}

/// The index that follows `i` among those that share no bit with `m`.
pub open spec fn step_over(i: usize, m: usize) -> usize {
    (((i | m) + 1) as usize) & !m
}

pub proof fn lemma_or_single_bit(m: usize, q: usize, p: usize)
    by (bit_vector)
    requires
        q < usize::BITS,
        p < usize::BITS,
    ensures
        ((m | (1usize << q)) & (1usize << p) != 0) == ((m & (1usize << p) != 0) || p == q),
{
}

pub proof fn lemma_or_below(m: usize, q: usize, n: usize)
    by (bit_vector)
    requires
        q < usize::BITS,
        n < usize::BITS,
    ensures
        ((m | (1usize << q)) < (1usize << n)) == (m < (1usize << n) && q < n),
{
}

pub proof fn lemma_step_shape(i: usize, m: usize)
    by (bit_vector)
    requires
        i & m == 0,
        (i | m) != !0usize,
    ensures
        step_over(i, m) & m == 0,
        i < step_over(i, m),
{
}

pub proof fn lemma_step_skips(i: usize, m: usize, k: usize)
    by (bit_vector)
    requires
        i & m == 0,
        (i | m) != !0usize,
        i < k,
        k < step_over(i, m),
    ensures
        k & m != 0,
{
}

/// The exponent `m` with `x == 1 << m`, where `x` is a power of two.
pub open spec fn log2_of(x: usize) -> usize {
    choose|m: usize| m < usize::BITS && x == 1usize << m
}

/// `x` is a power of two that a `usize` holds.
pub open spec fn is_pow2(x: usize) -> bool {
    exists|m: usize| m < usize::BITS && x == 1usize << m
}

pub proof fn lemma_shl_one_injective(a: usize, b: usize)
    by (bit_vector)
    requires
        a < usize::BITS,
        b < usize::BITS,
        1usize << a == 1usize << b,
    ensures
        a == b,
{
}

/// What `log2_of` gives on a power of two written as a shift.
pub proof fn lemma_log2_of_shl(m: usize)
    requires
        m < usize::BITS,
    ensures
        is_pow2(1usize << m),
        log2_of(1usize << m) == m,
{
    let x = 1usize << m;
    assert(m < usize::BITS && x == 1usize << m);
    let c = log2_of(x);
    lemma_shl_one_injective(c, m);
}

pub proof fn lemma_shl_one_positive(n: usize)
    by (bit_vector)
    requires
        n < usize::BITS,
    ensures
        (1usize << n) >= 1,
{
}

/// The exponent of `x` as a power of two, or `None` where `x` is none.
pub fn exact_log2(x: usize) -> (r: Option<usize>)
    ensures
        r matches Some(m) ==> m < usize::BITS && x == 1usize << m,
        r is None <==> !is_pow2(x),
{
    let mut m: usize = 0;
    while m < usize::BITS as usize
        invariant
            m <= usize::BITS,
            forall|j: usize| j < m ==> x != 1usize << j,
        decreases usize::BITS - m,
    {
        if x == 1usize << m {
            return Some(m);
        }
        m += 1;
    }
    None
}

/// The mask of the low `n` bits.
pub open spec fn low_bits(n: usize) -> usize {
    !(!0usize << n)
}

/// Setting a bit of a mask, seen from one bit position.
pub proof fn lemma_mask_contains(s: Seq<usize>, p: usize)
    requires
        all_below(s, usize::BITS as usize),
        p < usize::BITS,
    ensures
        (mask_of(s) & (1usize << p) != 0) == s.contains(p),
    decreases s.len(),
{
    if s.len() == 0 {
        assert(0usize & (1usize << p) == 0) by (bit_vector);
    } else {
        let t = s.drop_first();
        assert(all_below(t, usize::BITS as usize)) by {
            assert forall|i: int| 0 <= i < t.len() implies #[trigger] t[i] < usize::BITS by {
                assert(t[i] == s[i + 1]);
            }
        }
        lemma_mask_contains(t, p);
        assert(s[0] < usize::BITS);
        lemma_or_single_bit(mask_of(t), s[0], p);
        if s.contains(p) && s[0] != p {
            let i = choose|i: int| 0 <= i < s.len() && s[i] == p;
            assert(t[i - 1] == p);
        }
        if t.contains(p) {
            let i = choose|i: int| 0 <= i < t.len() && t[i] == p;
            assert(s[i + 1] == p);
        }
    }
}

/// A mask stays below `2^n` exactly when every position it sets does.
pub proof fn lemma_mask_below(s: Seq<usize>, n: usize)
    requires
        all_below(s, usize::BITS as usize),
        n < usize::BITS,
    ensures
        (mask_of(s) < (1usize << n)) == all_below(s, n),
    decreases s.len(),
{
    if s.len() == 0 {
        lemma_shl_one_positive(n);
    } else {
        let t = s.drop_first();
        assert forall|i: int| 0 <= i < t.len() implies #[trigger] t[i] == s[i + 1] by {}
        lemma_mask_below(t, n);
        lemma_or_below(mask_of(t), s[0], n);
        if all_below(t, n) && s[0] < n {
            assert forall|i: int| 0 <= i < s.len() implies #[trigger] s[i] < n by {
                if i > 0 {
                    assert(s[i] == t[i - 1]);
                }
            }
        }
    }
}

/// Adding a position at the end of the sequence sets its bit.
pub proof fn lemma_mask_push(s: Seq<usize>, x: usize)
    ensures
        mask_of(s.push(x)) == mask_of(s) | (1usize << x),
    decreases s.len(),
{
    if s.len() == 0 {
        assert(s.push(x).drop_first() =~= Seq::<usize>::empty());
        assert(s.push(x)[0] == x);
        assert(mask_of(s.push(x)) == mask_of(Seq::<usize>::empty()) | (1usize << x));
        let a = 1usize << x;
        assert(0usize | a == a) by (bit_vector);
    } else {
        let t = s.drop_first();
        assert(s.push(x).drop_first() =~= t.push(x));
        assert(s.push(x)[0] == s[0]);
        lemma_mask_push(t, x);
        let m = mask_of(t);
        let a = 1usize << s[0];
        let b = 1usize << x;
        assert((m | b) | a == (m | a) | b) by (bit_vector);
    }
}

/// A block start joined with an offset inside the target mask stays in
/// the register and keeps every control bit.
pub proof fn lemma_join(b: usize, o: usize, cm: usize, tm: usize, n: usize)
    by (bit_vector)
    requires
        n < usize::BITS,
        b < (1usize << n),
        b & cm == cm,
        cm < (1usize << n) ==> tm < (1usize << n),
        o & !tm == 0,
    ensures
        (b | o) < (1usize << n),
        (b | o) & cm == cm,
{
}

/// A state is split back into its block start and its offset.
pub proof fn lemma_split(b1: usize, o1: usize, b2: usize, o2: usize, tm: usize)
    by (bit_vector)
    requires
        b1 & tm == 0,
        b2 & tm == 0,
        o1 & !tm == 0,
        o2 & !tm == 0,
        b1 | o1 == b2 | o2,
    ensures
        b1 == b2,
        o1 == o2,
{
}

/// A number below `2^k` is its own low `k` bits.
pub proof fn lemma_low_bits_small(r: usize, k: usize)
    by (bit_vector)
    requires
        k < usize::BITS,
        r < (1usize << k),
    ensures
        r & !(!0usize << k) == r,
{
}

} // verus!
