//! Laws of line compression that hold for every board, proved once here
//! over the mathematical model.

use vstd::prelude::*;
use crate::line::{
    compress, compress_rev, count_nonzero, lemma_merge_count_zero_iff, lemma_merge_pairs_basic,
    lemma_merge_pairs_id, lemma_pad_count_sum, lemma_remove_zeros_basic, lemma_remove_zeros_id,
    lemma_remove_zeros_pad, merge_count, merge_pairs, no_adjacent_equal, remove_zeros, sum_of,
};

verus! {

/// Compressing a line a second time changes nothing, provided the first
/// compression left no two equal tiles side by side: the first pass has
/// already closed every gap. (Where a merge leaves equal tiles adjacent, as
/// in a line holding 2, 2, 4, a second compression merges again, so that
/// case is excluded here.)
pub proof fn lemma_compress_idempotent(s: Seq<int>, n: int)
    requires
        s.len() <= n,
        no_adjacent_equal(merge_pairs(remove_zeros(s))),
    ensures
        compress(compress(s, n), n) == compress(s, n),
{
    let rz = remove_zeros(s);
    let m = merge_pairs(rz);
    lemma_remove_zeros_basic(s);
    lemma_merge_pairs_basic(rz);
    lemma_remove_zeros_pad(m, n - m.len());
    lemma_remove_zeros_id(m);
    lemma_merge_pairs_id(m);
    assert(compress(compress(s, n), n) =~= compress(s, n));
}

/// One compression conserves the total value of the line, and lowers the
/// number of occupied cells by exactly the number of merged pairs; in
/// particular the count never grows, and it stays the same exactly when no
/// merge occurred.
pub proof fn lemma_compress_count_sum(s: Seq<int>, n: int)
    requires
        s.len() <= n,
    ensures
        sum_of(compress(s, n)) == sum_of(s),
        count_nonzero(compress(s, n)) + merge_count(remove_zeros(s)) == count_nonzero(s),
        count_nonzero(compress(s, n)) <= count_nonzero(s),
        (count_nonzero(compress(s, n)) == count_nonzero(s)) <==> no_adjacent_equal(
            remove_zeros(s),
        ),
{
    let rz = remove_zeros(s);
    let m = merge_pairs(rz);
    lemma_remove_zeros_basic(s);
    lemma_merge_pairs_basic(rz);
    lemma_pad_count_sum(m, n - m.len());
    lemma_merge_count_zero_iff(rz);
}

/// Compressing toward the back is the mirror image of compressing toward
/// the front: reverse the line, compress it, and reverse it again.
pub proof fn lemma_compress_rev_mirror(s: Seq<int>, n: int)
    ensures
        compress_rev(s, n) == compress(s.reverse(), n).reverse(),
{
}

} // verus!
