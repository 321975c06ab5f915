use vstd::prelude::*;
use crate::bits::{mask_of, all_below, within, low_bits, lemma_mask_contains};

verus! {

/// Where row `r` of a gate's matrix sits inside a block of basis states, for
/// target positions `t`: bit `i` of `r` goes to position `t[len - 1 - i]`,
/// so the last target holds the lowest bit of `r`.
pub open spec fn offset_of(t: Seq<usize>, r: usize) -> usize
    decreases t.len(),
{
    if t.len() == 0 {
        0
    } else {
        offset_of(t.drop_first(), r) | (((r >> ((t.len() - 1) as usize)) & 1) << t[0])
    }
}

proof fn lemma_tail_below(t: Seq<usize>, n: usize)
    requires
        t.len() > 0,
        all_below(t, n),
    ensures
        all_below(t.drop_first(), n),
        t[0] < n,
{
    assert forall|i: int| 0 <= i < t.len() - 1 implies #[trigger] t.drop_first()[i] < n by {
        assert(t.drop_first()[i] == t[i + 1]);
    }
}

proof fn lemma_tail_distinct(t: Seq<usize>)
    requires
        t.len() > 0,
        t.no_duplicates(),
    ensures
        t.drop_first().no_duplicates(),
        !t.drop_first().contains(t[0]),
{
    let u = t.drop_first();
    assert forall|i: int, j: int| 0 <= i < u.len() && 0 <= j < u.len() && i != j implies u[i]
        != u[j] by {
        assert(u[i] == t[i + 1] && u[j] == t[j + 1]);
    }
    if u.contains(t[0]) {
        let i = choose|i: int| 0 <= i < u.len() && u[i] == t[0];
        assert(t[i + 1] == t[0]);
    }
}

proof fn lemma_bit_within(x: usize, m: usize, r: usize, j: usize, p: usize)
    by (bit_vector)
    requires
        x & !m == 0,
        p < usize::BITS,
    ensures
        (x | (((r >> j) & 1) << p)) & !(m | (1usize << p)) == 0,
{
}

/// Every offset only sets bits of target positions.
pub proof fn lemma_offset_within(t: Seq<usize>, r: usize)
    requires
        all_below(t, usize::BITS as usize),
    ensures
        within(offset_of(t, r), mask_of(t)),
    decreases t.len(),
{
    if t.len() == 0 {
        assert(0usize & !0usize == 0) by (bit_vector);
    } else {
        lemma_tail_below(t, usize::BITS as usize);
        lemma_offset_within(t.drop_first(), r);
        lemma_bit_within(
            offset_of(t.drop_first(), r),
            mask_of(t.drop_first()),
            r,
            (t.len() - 1) as usize,
            t[0],
        );
    }
}

proof fn lemma_low_bits_split(r1: usize, r2: usize, n: usize)
    by (bit_vector)
    requires
        n + 1 < usize::BITS,
    ensures
        (r1 & !(!0usize << ((n + 1) as usize)) == r2 & !(!0usize << ((n + 1) as usize))) == (
        r1 & !(!0usize << n) == r2 & !(!0usize << n) && (r1 >> n) & 1 == (r2 >> n) & 1),
{
}

/// An offset depends only on the low `t.len()` bits of the row.
pub proof fn lemma_offset_low_bits(t: Seq<usize>, r1: usize, r2: usize)
    requires
        t.len() < usize::BITS,
        r1 & low_bits(t.len() as usize) == r2 & low_bits(t.len() as usize),
    ensures
        offset_of(t, r1) == offset_of(t, r2),
    decreases t.len(),
{
    if t.len() > 0 {
        let n = (t.len() - 1) as usize;
        lemma_low_bits_split(r1, r2, n);
        lemma_offset_low_bits(t.drop_first(), r1, r2);
    }
}

proof fn lemma_bit_extract(x: usize, m: usize, r: usize, j: usize, p: usize)
    by (bit_vector)
    requires
        x & !m == 0,
        m & (1usize << p) == 0,
        p < usize::BITS,
    ensures
        ((x | (((r >> j) & 1) << p)) >> p) & 1 == (r >> j) & 1,
        (x | (((r >> j) & 1) << p)) & !(1usize << p) == x,
{
}

/// The first target's bit of an offset is the top bit of the row, and
/// the other bits are the offset for the remaining targets.
pub proof fn lemma_offset_first(t: Seq<usize>, r: usize)
    requires
        t.len() > 0,
        all_below(t, usize::BITS as usize),
        t.no_duplicates(),
    ensures
        (offset_of(t, r) >> t[0]) & 1 == (r >> ((t.len() - 1) as usize)) & 1,
        offset_of(t, r) & !(1usize << t[0]) == offset_of(t.drop_first(), r),
{
    let u = t.drop_first();
    lemma_tail_below(t, usize::BITS as usize);
    lemma_tail_distinct(t);
    lemma_offset_within(u, r);
    lemma_mask_contains(u, t[0]);
    lemma_bit_extract(offset_of(u, r), mask_of(u), r, (t.len() - 1) as usize, t[0]);
}

/// Distinct rows of a block have distinct offsets.
pub proof fn lemma_offset_injective(t: Seq<usize>, r1: usize, r2: usize)
    requires
        t.len() < usize::BITS,
        all_below(t, usize::BITS as usize),
        t.no_duplicates(),
        offset_of(t, r1) == offset_of(t, r2),
    ensures
        r1 & low_bits(t.len() as usize) == r2 & low_bits(t.len() as usize),
    decreases t.len(),
{
    if t.len() == 0 {
        assert(r1 & !(!0usize << 0usize) == r2 & !(!0usize << 0usize)) by (bit_vector);
    } else {
        let u = t.drop_first();
        let n = (t.len() - 1) as usize;
        lemma_offset_first(t, r1);
        lemma_offset_first(t, r2);
        lemma_tail_below(t, usize::BITS as usize);
        lemma_tail_distinct(t);
        lemma_offset_injective(u, r1, r2);
        lemma_low_bits_split(r1, r2, n);
    }
}

proof fn lemma_bit_rebuild(x: usize, p: usize, r0: usize, n: usize)
    by (bit_vector)
    requires
        p < usize::BITS,
        n + 1 < usize::BITS,
        r0 < (1usize << n),
    ensures
        ((r0 | (((x >> p) & 1) << n)) >> n) & 1 == (x >> p) & 1,
        (r0 | (((x >> p) & 1) << n)) & !(!0usize << n) == r0 & !(!0usize << n),
        (r0 | (((x >> p) & 1) << n)) < (1usize << ((n + 1) as usize)),
        (x & !(1usize << p)) | (((x >> p) & 1) << p) == x,
{
}

proof fn lemma_within_drop(x: usize, m: usize, p: usize)
    by (bit_vector)
    requires
        x & !(m | (1usize << p)) == 0,
    ensures
        (x & !(1usize << p)) & !m == 0,
{
}

/// Every set of target bits is the offset of some row of the block.
pub proof fn lemma_offset_onto(t: Seq<usize>, x: usize) -> (r: usize)
    requires
        t.len() < usize::BITS,
        all_below(t, usize::BITS as usize),
        t.no_duplicates(),
        within(x, mask_of(t)),
    ensures
        r < (1usize << (t.len() as usize)),
        offset_of(t, r) == x,
    decreases t.len(),
{
    if t.len() == 0 {
        assert(x & !0usize == 0 ==> x == 0) by (bit_vector);
        assert(0usize < (1usize << 0usize)) by (bit_vector);
        0
    } else {
        let u = t.drop_first();
        let n = (t.len() - 1) as usize;
        let p = t[0];
        lemma_tail_below(t, usize::BITS as usize);
        lemma_tail_distinct(t);
        lemma_within_drop(x, mask_of(u), p);
        let r0 = lemma_offset_onto(u, x & !(1usize << p));
        let r = r0 | (((x >> p) & 1) << n);
        lemma_bit_rebuild(x, p, r0, n);
        lemma_offset_low_bits(u, r, r0);
        r
    }
}

} // verus!
