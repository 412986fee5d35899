//! The counting model: how often a token occurs in a token list, and how
//! occurrence counts behave under concatenation and reordering of batches.
use vstd::prelude::*;

verus! {

/// Number of occurrences of the token `t` in the token list `tokens`.
pub open spec fn count_in(tokens: Seq<Seq<char>>, t: Seq<char>) -> nat
    decreases tokens.len(),
{
    if tokens.len() == 0 {
        0
    } else {
        (if tokens[0] == t {
            1nat
        } else {
            0nat
        }) + count_in(tokens.drop_first(), t)
    }
}

/// Appending one token raises exactly that token's count by one.
pub proof fn lemma_count_in_push(tokens: Seq<Seq<char>>, x: Seq<char>, t: Seq<char>)
    ensures
        count_in(tokens.push(x), t) == count_in(tokens, t) + (if x == t {
            1nat
        } else {
            0nat
        }),
    decreases tokens.len(),
{
    reveal_with_fuel(count_in, 2);
    if tokens.len() == 0 {
        assert(tokens.push(x)[0] == x);
        assert(tokens.push(x).drop_first() =~= Seq::<Seq<char>>::empty());
    } else {
        assert(tokens.push(x)[0] == tokens[0]);
        assert(tokens.push(x).drop_first() =~= tokens.drop_first().push(x));
        lemma_count_in_push(tokens.drop_first(), x, t);
    }
}

/// Occurrence counts add up over concatenation of token lists.
pub proof fn lemma_count_in_concat(a: Seq<Seq<char>>, b: Seq<Seq<char>>, t: Seq<char>)
    ensures
        count_in(a + b, t) == count_in(a, t) + count_in(b, t),
    decreases a.len(),
{
    if a.len() == 0 {
        assert(a + b =~= b);
    } else {
        assert((a + b).drop_first() =~= a.drop_first() + b);
        lemma_count_in_concat(a.drop_first(), b, t);
    }
}

/// Merging two token lists in either order yields the same counts.
///
/// This is the two-batch form of the aggregation law: the combined table's
/// counts do not depend on which worker's batch is folded in first.
pub proof fn lemma_merge_commutative(a: Seq<Seq<char>>, b: Seq<Seq<char>>, t: Seq<char>)
    ensures
        count_in(a + b, t) == count_in(b + a, t),
{
    lemma_count_in_concat(a, b, t);
    lemma_count_in_concat(b, a, t);
}

/// Concatenation of a sequence of token batches, in order.
pub open spec fn concat_batches(batches: Seq<Seq<Seq<char>>>) -> Seq<Seq<char>>
    decreases batches.len(),
{
    if batches.len() == 0 {
        Seq::empty()
    } else {
        concat_batches(batches.drop_last()) + batches.last()
    }
}

/// Sum over all batches of the occurrences of `t` within each batch.
pub open spec fn batch_count_sum(batches: Seq<Seq<Seq<char>>>, t: Seq<char>) -> nat
    decreases batches.len(),
{
    if batches.len() == 0 {
        0
    } else {
        batch_count_sum(batches.drop_last(), t) + count_in(batches.last(), t)
    }
}

/// A token's count in the concatenation of all batches is the sum, over the
/// batches, of its count within each batch.
pub proof fn lemma_count_concat_batches(batches: Seq<Seq<Seq<char>>>, t: Seq<char>)
    ensures
        count_in(concat_batches(batches), t) == batch_count_sum(batches, t),
    decreases batches.len(),
{
    if batches.len() > 0 {
        lemma_count_concat_batches(batches.drop_last(), t);
        lemma_count_in_concat(concat_batches(batches.drop_last()), batches.last(), t);
    }
}

proof fn lemma_batch_count_sum_remove(batches: Seq<Seq<Seq<char>>>, i: int, t: Seq<char>)
    requires
        0 <= i < batches.len(),
    ensures
        batch_count_sum(batches, t) == count_in(batches[i], t) + batch_count_sum(
            batches.remove(i),
            t,
        ),
    decreases batches.len(),
{
    if i == batches.len() - 1 {
        assert(batches.remove(i) =~= batches.drop_last());
    } else {
        assert(batches.remove(i).drop_last() =~= batches.drop_last().remove(i));
        assert(batches.remove(i).last() == batches.last());
        lemma_batch_count_sum_remove(batches.drop_last(), i, t);
    }
}

/// Commutativity of aggregation: two sequences of per-file token batches that
/// hold the same batches, in any order, give every token the same combined
/// count. The merge order of the workers therefore cannot change the final
/// table.
pub proof fn lemma_merge_order_irrelevant(
    batches1: Seq<Seq<Seq<char>>>,
    batches2: Seq<Seq<Seq<char>>>,
    t: Seq<char>,
)
    requires
        batches1.to_multiset() == batches2.to_multiset(),
    ensures
        count_in(concat_batches(batches1), t) == count_in(concat_batches(batches2), t),
{
    lemma_count_concat_batches(batches1, t);
    lemma_count_concat_batches(batches2, t);
    lemma_batch_sum_multiset(batches1, batches2, t);
}

proof fn lemma_batch_sum_multiset(
    batches1: Seq<Seq<Seq<char>>>,
    batches2: Seq<Seq<Seq<char>>>,
    t: Seq<char>,
)
    requires
        batches1.to_multiset() == batches2.to_multiset(),
    ensures
        batch_count_sum(batches1, t) == batch_count_sum(batches2, t),
    decreases batches1.len(),
{
    broadcast use vstd::seq_lib::group_to_multiset_ensures;

    if batches1.len() == 0 {
        assert(batches2.to_multiset().len() == 0);
        assert(batches2.len() == 0);
    } else {
        let x = batches1.last();
        assert(batches1.to_multiset().count(x) > 0) by {
            assert(batches1.contains(x));
        }
        assert(batches2.contains(x));
        let i = choose|i: int| 0 <= i < batches2.len() && batches2[i] == x;
        assert(batches1 =~= batches1.drop_last().push(x));
        assert(batches1.drop_last().push(x).to_multiset() =~= batches1.drop_last().to_multiset().insert(x));
        assert(batches1.drop_last().to_multiset() =~= batches2.remove(i).to_multiset()) by {
            assert(batches2.remove(i).to_multiset() =~= batches2.to_multiset().remove(x));
        }
        lemma_batch_sum_multiset(batches1.drop_last(), batches2.remove(i), t);
        lemma_batch_count_sum_remove(batches2, i, t);
    }
}

} // verus!
