//! Summation and concatenation of sequences.
//!
//! The grid aggregates capacities over nested sequences (zones within
//! columns within rows), and its flattened occupancy view concatenates the
//! same nesting. This module holds the arithmetic that connects a nested
//! sequence to its flat form: block offsets, indexing into a concatenation,
//! updating one element of one block, and locating the block an index falls
//! in.

use vstd::prelude::*;

verus! {

/// The sum of a sequence of integers.
pub open spec fn sum_ints(s: Seq<int>) -> int
    decreases s.len(),
{
    if s.len() == 0 {
        0
    } else {
        s.first() + sum_ints(s.drop_first())
    }
}

/// A sequence of nonnegative values has a nonnegative sum.
pub proof fn lemma_sum_nonneg(s: Seq<int>)
    requires
        forall|i: int| 0 <= i < s.len() ==> s[i] >= 0,
    ensures
        sum_ints(s) >= 0,
    decreases s.len(),
{
    if s.len() > 0 {
        lemma_sum_nonneg(s.drop_first());
    }
}

/// Extending a prefix by one element adds that element to the prefix sum.
pub proof fn lemma_sum_take_succ(s: Seq<int>, k: int)
    requires
        0 <= k < s.len(),
    ensures
        sum_ints(s.take(k + 1)) == sum_ints(s.take(k)) + s[k],
    decreases k,
{
    if k == 0 {
        assert(s.take(1).drop_first() =~= s.take(0));
        assert(s.take(0) =~= Seq::<int>::empty());
    } else {
        assert(s.take(k + 1).drop_first() =~= s.drop_first().take(k));
        assert(s.take(k).drop_first() =~= s.drop_first().take(k - 1));
        lemma_sum_take_succ(s.drop_first(), k - 1);
    }
}

/// A sum splits at any point into the sum of a prefix and the rest.
pub proof fn lemma_sum_split(s: Seq<int>, k: int)
    requires
        0 <= k <= s.len(),
    ensures
        sum_ints(s) == sum_ints(s.take(k)) + sum_ints(s.skip(k)),
    decreases k,
{
    if k == 0 {
        assert(s.take(0) =~= Seq::<int>::empty());
        assert(s.skip(0) =~= s);
    } else {
        lemma_sum_split(s, k - 1);
        lemma_sum_take_succ(s, k - 1);
        assert(s.skip(k - 1).first() == s[k - 1]);
        assert(s.skip(k - 1).drop_first() =~= s.skip(k));
    }
}

/// Concatenating two sequences adds their sums.
pub proof fn lemma_sum_concat(a: Seq<int>, b: Seq<int>)
    ensures
        sum_ints(a + b) == sum_ints(a) + sum_ints(b),
{
    lemma_sum_split(a + b, a.len() as int);
    assert((a + b).take(a.len() as int) =~= a);
    assert((a + b).skip(a.len() as int) =~= b);
}

/// The total weight of a sequence under a per-element weight function.
pub open spec fn weight<A>(s: Seq<A>, f: spec_fn(A) -> int) -> int {
    sum_ints(s.map_values(f))
}

/// A weight splits around any position.
pub proof fn lemma_weight_split<A>(s: Seq<A>, i: int, f: spec_fn(A) -> int)
    requires
        0 <= i < s.len(),
    ensures
        weight(s, f) == weight(s.take(i), f) + f(s[i]) + weight(s.skip(i + 1), f),
{
    let m = s.map_values(f);
    lemma_sum_split(m, i);
    assert(m.take(i) =~= s.take(i).map_values(f));
    assert(m.skip(i).first() == f(s[i]));
    assert(m.skip(i).drop_first() =~= s.skip(i + 1).map_values(f));
}

/// Replacing one element changes the weight by the difference.
pub proof fn lemma_weight_update<A>(s: Seq<A>, i: int, v: A, f: spec_fn(A) -> int)
    requires
        0 <= i < s.len(),
    ensures
        weight(s.update(i, v), f) == weight(s, f) - f(s[i]) + f(v),
{
    lemma_weight_split(s, i, f);
    lemma_weight_split(s.update(i, v), i, f);
    assert(s.update(i, v).take(i) =~= s.take(i));
    assert(s.update(i, v).skip(i + 1) =~= s.skip(i + 1));
}

/// A weight of values between 0 and 1 is between 0 and the length.
pub proof fn lemma_weight_bound01<A>(s: Seq<A>, f: spec_fn(A) -> int)
    requires
        forall|i: int| 0 <= i < s.len() ==> 0 <= #[trigger] f(s[i]) <= 1,
    ensures
        0 <= weight(s, f) <= s.len(),
    decreases s.len(),
{
    if s.len() > 0 {
        assert(s.map_values(f).first() == f(s[0]));
        assert(s.map_values(f).drop_first() =~= s.drop_first().map_values(f));
        lemma_weight_bound01(s.drop_first(), f);
    }
}

/// A zero-one weight is positive wherever one element carries weight one,
/// and short of the length wherever one carries weight zero.
pub proof fn lemma_weight_pos<A>(s: Seq<A>, i: int, f: spec_fn(A) -> int)
    requires
        0 <= i < s.len(),
        forall|k: int| 0 <= k < s.len() ==> 0 <= #[trigger] f(s[k]) <= 1,
    ensures
        f(s[i]) == 1 ==> weight(s, f) >= 1,
        f(s[i]) == 0 ==> weight(s, f) <= s.len() - 1,
{
    lemma_weight_split(s, i, f);
    assert forall|k: int| 0 <= k < s.take(i).len() implies 0 <= #[trigger] f(s.take(i)[k])
        <= 1 by {
        assert(s.take(i)[k] == s[k]);
    }
    lemma_weight_bound01(s.take(i), f);
    assert forall|k: int| 0 <= k < s.skip(i + 1).len() implies 0 <= #[trigger] f(
        s.skip(i + 1)[k],
    ) <= 1 by {
        assert(s.skip(i + 1)[k] == s[k + i + 1]);
    }
    lemma_weight_bound01(s.skip(i + 1), f);
}

/// Appending one element adds its weight.
pub proof fn lemma_weight_push<A>(s: Seq<A>, v: A, f: spec_fn(A) -> int)
    ensures
        weight(s.push(v), f) == weight(s, f) + f(v),
{
    lemma_weight_concat(s, seq![v], f);
    assert(s + seq![v] =~= s.push(v));
    assert(seq![v].map_values(f) =~= seq![f(v)]);
    assert(seq![f(v)].drop_first() =~= Seq::<int>::empty());
    assert(sum_ints(seq![f(v)]) == f(v) + sum_ints(seq![f(v)].drop_first()));
    assert(sum_ints(Seq::<int>::empty()) == 0);
}

/// Dropping the last element removes its weight.
pub proof fn lemma_weight_drop_last<A>(s: Seq<A>, f: spec_fn(A) -> int)
    requires
        s.len() > 0,
    ensures
        weight(s, f) == weight(s.drop_last(), f) + f(s.last()),
{
    lemma_weight_push(s.drop_last(), s.last(), f);
    assert(s.drop_last().push(s.last()) =~= s);
}

/// Weights add over concatenation.
pub proof fn lemma_weight_concat<A>(a: Seq<A>, b: Seq<A>, f: spec_fn(A) -> int)
    ensures
        weight(a + b, f) == weight(a, f) + weight(b, f),
{
    assert((a + b).map_values(f) =~= a.map_values(f) + b.map_values(f));
    lemma_sum_concat(a.map_values(f), b.map_values(f));
}

/// The weight of each block of a nested sequence.
pub open spec fn block_weights<A>(ss: Seq<Seq<A>>, f: spec_fn(A) -> int) -> Seq<int> {
    ss.map_values(|b: Seq<A>| weight(b, f))
}

/// The weight of a concatenation is the sum of the block weights.
pub proof fn lemma_weight_cat<A>(ss: Seq<Seq<A>>, f: spec_fn(A) -> int)
    ensures
        weight(cat(ss), f) == sum_ints(block_weights(ss, f)),
    decreases ss.len(),
{
    if ss.len() == 0 {
        assert(cat(ss).map_values(f) =~= Seq::<int>::empty());
        assert(block_weights(ss, f) =~= Seq::<int>::empty());
    } else {
        lemma_weight_concat(ss.first(), cat(ss.drop_first()), f);
        lemma_weight_cat(ss.drop_first(), f);
        assert(block_weights(ss, f).first() == weight(ss[0], f));
        assert(block_weights(ss, f).drop_first() =~= block_weights(ss.drop_first(), f));
    }
}

/// Concatenation of a sequence of blocks into one flat sequence.
pub open spec fn cat<A>(ss: Seq<Seq<A>>) -> Seq<A>
    decreases ss.len(),
{
    if ss.len() == 0 {
        Seq::empty()
    } else {
        ss.first() + cat(ss.drop_first())
    }
}

/// The flat length is the sum of the block lengths.
pub proof fn lemma_cat_len_sum<A>(ss: Seq<Seq<A>>)
    ensures
        cat(ss).len() == sum_ints(ss.map_values(|b: Seq<A>| b.len() as int)),
    decreases ss.len(),
{
    let f = |b: Seq<A>| b.len() as int;
    if ss.len() == 0 {
        assert(ss.map_values(f) =~= Seq::<int>::empty());
    } else {
        lemma_cat_len_sum(ss.drop_first());
        assert(ss.map_values(f).first() == f(ss[0]));
        assert(ss.map_values(f).drop_first() =~= ss.drop_first().map_values(f));
    }
}

/// Where block `k` starts in the concatenation.
pub open spec fn offset_of<A>(ss: Seq<Seq<A>>, k: int) -> int
    decreases k,
{
    if k <= 0 {
        0
    } else {
        offset_of(ss, k - 1) + ss[k - 1].len()
    }
}

/// Dropping the first block shifts the remaining offsets down by its length.
pub proof fn lemma_offset_drop_first<A>(ss: Seq<Seq<A>>, k: int)
    requires
        1 <= k <= ss.len(),
    ensures
        offset_of(ss, k) == ss[0].len() + offset_of(ss.drop_first(), k - 1),
    decreases k,
{
    if k == 1 {
        assert(offset_of(ss, 1) == offset_of(ss, 0) + ss[0].len());
        assert(offset_of(ss.drop_first(), 0) == 0);
    } else {
        lemma_offset_drop_first(ss, k - 1);
        assert(offset_of(ss, k) == offset_of(ss, k - 1) + ss[k - 1].len());
        assert(offset_of(ss.drop_first(), k - 1) == offset_of(ss.drop_first(), k - 2)
            + ss.drop_first()[k - 2].len());
        assert(ss.drop_first()[k - 2] == ss[k - 1]);
    }
}

/// Offsets are nonnegative.
pub proof fn lemma_offset_nonneg<A>(ss: Seq<Seq<A>>, k: int)
    ensures
        offset_of(ss, k) >= 0,
    decreases k,
{
    if k > 0 {
        lemma_offset_nonneg(ss, k - 1);
    }
}

/// Offsets grow with the block index.
pub proof fn lemma_offset_mono<A>(ss: Seq<Seq<A>>, k1: int, k2: int)
    requires
        k1 <= k2,
    ensures
        offset_of(ss, k1) <= offset_of(ss, k2),
    decreases k2 - k1,
{
    if k1 < k2 {
        lemma_offset_mono(ss, k1, k2 - 1);
    }
}

/// The offset past the last block is the flat length.
pub proof fn lemma_offset_total<A>(ss: Seq<Seq<A>>)
    ensures
        offset_of(ss, ss.len() as int) == cat(ss).len(),
    decreases ss.len(),
{
    if ss.len() > 0 {
        lemma_offset_drop_first(ss, ss.len() as int);
        lemma_offset_total(ss.drop_first());
    }
}

/// Offsets of valid block indices stay within the flat length.
pub proof fn lemma_offset_bounds<A>(ss: Seq<Seq<A>>, k: int)
    requires
        0 <= k <= ss.len(),
    ensures
        0 <= offset_of(ss, k) <= cat(ss).len(),
        offset_of(ss, ss.len() as int) == cat(ss).len(),
{
    lemma_offset_nonneg(ss, k);
    lemma_offset_mono(ss, k, ss.len() as int);
    lemma_offset_total(ss);
}

/// Position `offset + j` of the concatenation reads element `j` of block `k`.
pub proof fn lemma_cat_index<A>(ss: Seq<Seq<A>>, k: int, j: int)
    requires
        0 <= k < ss.len(),
        0 <= j < ss[k].len(),
    ensures
        0 <= offset_of(ss, k) + j < cat(ss).len(),
        cat(ss)[offset_of(ss, k) + j] == ss[k][j],
    decreases k,
{
    lemma_offset_bounds(ss, k);
    lemma_offset_bounds(ss, k + 1);
    if k == 0 {
    } else {
        lemma_offset_drop_first(ss, k);
        lemma_cat_index(ss.drop_first(), k - 1, j);
    }
}

/// Updating element `j` of block `k` updates the concatenation at the
/// corresponding flat position.
pub proof fn lemma_cat_update<A>(ss: Seq<Seq<A>>, k: int, j: int, v: A)
    requires
        0 <= k < ss.len(),
        0 <= j < ss[k].len(),
    ensures
        cat(ss.update(k, ss[k].update(j, v))) =~= cat(ss).update(offset_of(ss, k) + j, v),
    decreases k,
{
    lemma_cat_index(ss, k, j);
    let ss2 = ss.update(k, ss[k].update(j, v));
    if k == 0 {
        assert(ss2.drop_first() =~= ss.drop_first());
        assert(ss2.first() == ss[0].update(j, v));
        assert(ss[0].update(j, v) + cat(ss.drop_first()) =~= (ss[0] + cat(ss.drop_first())).update(
            j,
            v,
        ));
    } else {
        lemma_offset_drop_first(ss, k);
        lemma_cat_update(ss.drop_first(), k - 1, j, v);
        assert(ss2.first() == ss.first());
        assert(ss2.drop_first() =~= ss.drop_first().update(k - 1, ss[k].update(j, v)));
        let off = offset_of(ss.drop_first(), k - 1) + j;
        lemma_cat_index(ss.drop_first(), k - 1, j);
        assert(ss.first() + cat(ss.drop_first()).update(off, v) =~= (ss.first() + cat(
            ss.drop_first(),
        )).update(ss[0].len() + off, v));
    }
}

/// Appending a block appends its contents to the concatenation.
pub proof fn lemma_cat_push<A>(ss: Seq<Seq<A>>, b: Seq<A>)
    ensures
        cat(ss.push(b)) =~= cat(ss) + b,
    decreases ss.len(),
{
    if ss.len() == 0 {
        assert(ss.push(b).first() == b);
        assert(ss.push(b).drop_first() =~= Seq::<Seq<A>>::empty());
        assert(cat(Seq::<Seq<A>>::empty()) =~= Seq::<A>::empty());
        assert(cat(ss.push(b)) =~= b);
        assert(cat(ss) + b =~= b);
    } else {
        assert(ss.push(b).first() == ss.first());
        assert(ss.push(b).drop_first() =~= ss.drop_first().push(b));
        lemma_cat_push(ss.drop_first(), b);
    }
}

/// The flat prefix up to the end of block `k` extends the prefix before it
/// by that block.
pub proof fn lemma_cat_take_block<A>(ss: Seq<Seq<A>>, k: int)
    requires
        0 <= k < ss.len(),
    ensures
        cat(ss).take(offset_of(ss, k + 1)) =~= cat(ss).take(offset_of(ss, k)) + ss[k],
{
    lemma_offset_bounds(ss, k);
    lemma_offset_bounds(ss, k + 1);
    assert forall|i: int| 0 <= i < offset_of(ss, k + 1) implies cat(ss).take(offset_of(ss, k + 1))[i]
        == (cat(ss).take(offset_of(ss, k)) + ss[k])[i] by {
        if i >= offset_of(ss, k) {
            lemma_cat_index(ss, k, i - offset_of(ss, k));
        }
    }
}

/// Offsets depend only on the block lengths.
pub proof fn lemma_offset_same_lens<A>(ss1: Seq<Seq<A>>, ss2: Seq<Seq<A>>, k: int)
    requires
        ss1.len() == ss2.len(),
        forall|j: int| 0 <= j < ss1.len() ==> #[trigger] ss1[j].len() == ss2[j].len(),
        k <= ss1.len(),
    ensures
        offset_of(ss1, k) == offset_of(ss2, k),
    decreases k,
{
    if k > 0 {
        lemma_offset_same_lens(ss1, ss2, k - 1);
    }
}

/// Block location depends only on the block lengths.
pub proof fn lemma_block_of_same_lens<A>(ss1: Seq<Seq<A>>, ss2: Seq<Seq<A>>, i: int)
    requires
        ss1.len() == ss2.len(),
        forall|j: int| 0 <= j < ss1.len() ==> #[trigger] ss1[j].len() == ss2[j].len(),
    ensures
        block_of(ss1, i) == block_of(ss2, i),
    decreases ss1.len(),
{
    if ss1.len() > 0 {
        assert(ss1[0].len() == ss2[0].len());
        if i >= ss1.first().len() {
            assert forall|j: int|
                0 <= j < ss1.drop_first().len() implies #[trigger] ss1.drop_first()[j].len()
                == ss2.drop_first()[j].len() by {
                assert(ss1[j + 1].len() == ss2[j + 1].len());
            }
            lemma_block_of_same_lens(ss1.drop_first(), ss2.drop_first(), i - ss1.first().len());
        }
    }
}

/// The block that flat position `i` falls in.
pub open spec fn block_of<A>(ss: Seq<Seq<A>>, i: int) -> int
    decreases ss.len(),
{
    if ss.len() == 0 {
        0
    } else if i < ss.first().len() {
        0
    } else {
        1 + block_of(ss.drop_first(), i - ss.first().len())
    }
}

/// Every valid flat position falls inside its block.
pub proof fn lemma_block_of<A>(ss: Seq<Seq<A>>, i: int)
    requires
        0 <= i < cat(ss).len(),
    ensures
        0 <= block_of(ss, i) < ss.len(),
        offset_of(ss, block_of(ss, i)) <= i < offset_of(ss, block_of(ss, i)) + ss[block_of(
            ss,
            i,
        )].len(),
        cat(ss)[i] == ss[block_of(ss, i)][i - offset_of(ss, block_of(ss, i))],
    decreases ss.len(),
{
    if i < ss.first().len() {
    } else {
        lemma_block_of(ss.drop_first(), i - ss.first().len());
        let k = block_of(ss, i);
        lemma_offset_drop_first(ss, k);
    }
}

/// Later flat positions never fall in earlier blocks.
pub proof fn lemma_block_of_mono<A>(ss: Seq<Seq<A>>, i1: int, i2: int)
    requires
        0 <= i1 <= i2,
    ensures
        block_of(ss, i1) <= block_of(ss, i2),
    decreases ss.len(),
{
    if ss.len() > 0 {
        if i1 >= ss.first().len() {
            lemma_block_of_mono(ss.drop_first(), i1 - ss.first().len(), i2 - ss.first().len());
        } else if i2 >= ss.first().len() {
            lemma_block_of_nonneg(ss.drop_first(), i2 - ss.first().len());
        }
    }
}

/// Block indices are nonnegative.
pub proof fn lemma_block_of_nonneg<A>(ss: Seq<Seq<A>>, i: int)
    ensures
        block_of(ss, i) >= 0,
    decreases ss.len(),
{
    if ss.len() > 0 && i >= ss.first().len() {
        lemma_block_of_nonneg(ss.drop_first(), i - ss.first().len());
    }
}

/// Block coordinates are recovered from their flat position.
pub proof fn lemma_block_of_offset<A>(ss: Seq<Seq<A>>, k: int, j: int)
    requires
        0 <= k < ss.len(),
        0 <= j < ss[k].len(),
    ensures
        block_of(ss, offset_of(ss, k) + j) == k,
    decreases k,
{
    if k == 0 {
    } else {
        lemma_offset_drop_first(ss, k);
        lemma_block_of_offset(ss.drop_first(), k - 1, j);
        lemma_offset_bounds(ss.drop_first(), k - 1);
    }
}

} // verus!
