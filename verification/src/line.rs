//! The mathematical model of compressing a single row or column: zeros are
//! removed, adjacent equal tiles merge pairwise left to right, and the line
//! is padded back to its original length with zeros.

use vstd::prelude::*;

verus! {

/// A tile value is a power of two; `0` marks an empty cell.
pub open spec fn is_pow2(v: int) -> bool
    decreases v,
{
    if v <= 0 {
        false
    } else if v == 1 {
        true
    } else {
        v % 2 == 0 && is_pow2(v / 2)
    }
}

/// A cell holds either nothing or a tile.
pub open spec fn cell_ok(v: int) -> bool {
    v == 0 || is_pow2(v)
}

/// The integer contents of an executable line.
pub open spec fn line_int(s: Seq<usize>) -> Seq<int> {
    s.map_values(|x: usize| x as int)
}

/// The line with all empty cells removed, order preserved.
pub open spec fn remove_zeros(s: Seq<int>) -> Seq<int>
    decreases s.len(),
{
    if s.len() == 0 {
        Seq::empty()
    } else if s[0] == 0 {
        remove_zeros(s.skip(1))
    } else {
        seq![s[0]] + remove_zeros(s.skip(1))
    }
}

/// One merging pass over a gap-free line, left to right: an equal adjacent
/// pair becomes one doubled tile, and the scan resumes after the pair, so a
/// tile never merges twice in one move.
pub open spec fn merge_pairs(s: Seq<int>) -> Seq<int>
    decreases s.len(),
{
    if s.len() < 2 {
        s
    } else if s[0] == s[1] {
        seq![2 * s[0]] + merge_pairs(s.skip(2))
    } else {
        seq![s[0]] + merge_pairs(s.skip(1))
    }
}

/// How many pairs merge in one pass over `s`.
pub open spec fn merge_count(s: Seq<int>) -> nat
    decreases s.len(),
{
    if s.len() < 2 {
        0
    } else if s[0] == s[1] {
        1 + merge_count(s.skip(2))
    } else {
        merge_count(s.skip(1))
    }
}

/// A line of `k` empty cells.
pub open spec fn zero_line(k: int) -> Seq<int> {
    Seq::new(if k < 0 { 0 } else { k as nat }, |i: int| 0)
}

/// Leftward compression of one line to length `n`: slide out the gaps, merge
/// adjacent equal tiles once, and pad the tail with zeros.
pub open spec fn compress(s: Seq<int>, n: int) -> Seq<int> {
    let m = merge_pairs(remove_zeros(s));
    m + zero_line(n - m.len())
}

/// Rightward compression: the mirror image of leftward compression.
pub open spec fn compress_rev(s: Seq<int>, n: int) -> Seq<int> {
    compress(s.reverse(), n).reverse()
}

/// No two neighbouring cells of the line hold the same value.
pub open spec fn no_adjacent_equal(s: Seq<int>) -> bool {
    forall|k: int| 0 <= k < s.len() - 1 ==> #[trigger] s[k] != s[k + 1]
}

/// The total value carried by the line.
pub open spec fn sum_of(s: Seq<int>) -> int
    decreases s.len(),
{
    if s.len() == 0 {
        0
    } else {
        s[0] + sum_of(s.skip(1))
    }
}

/// The number of occupied cells of the line.
pub open spec fn count_nonzero(s: Seq<int>) -> nat
    decreases s.len(),
{
    if s.len() == 0 {
        0
    } else {
        (if s[0] != 0 {
            1nat
        } else {
            0nat
        }) + count_nonzero(s.skip(1))
    }
}

/// Removing the zeros keeps exactly the occupied cells and their total value.
pub proof fn lemma_remove_zeros_basic(s: Seq<int>)
    ensures
        remove_zeros(s).len() == count_nonzero(s),
        count_nonzero(s) <= s.len(),
        forall|j: int| #![auto] 0 <= j < remove_zeros(s).len() ==> remove_zeros(s)[j] != 0,
        sum_of(remove_zeros(s)) == sum_of(s),
    decreases s.len(),
{
    if s.len() == 0 {
    } else {
        lemma_remove_zeros_basic(s.skip(1));
        if s[0] != 0 {
            let t = seq![s[0]] + remove_zeros(s.skip(1));
            assert(t.skip(1) =~= remove_zeros(s.skip(1)));
        }
    }
}

/// Every cell that survives the removal of zeros is a tile of the original
/// line, so validity and any upper bound carry over.
pub proof fn lemma_remove_zeros_bound(s: Seq<int>, b: int)
    requires
        forall|k: int| #![auto] 0 <= k < s.len() ==> cell_ok(s[k]) && s[k] <= b,
    ensures
        forall|j: int| #![auto]
            0 <= j < remove_zeros(s).len() ==> is_pow2(remove_zeros(s)[j]) && remove_zeros(s)[j]
                <= b,
    decreases s.len(),
{
    if s.len() == 0 {
    } else {
        assert(forall|k: int| #![auto]
            0 <= k < s.skip(1).len() ==> cell_ok(s.skip(1)[k]) && s.skip(1)[k] <= b);
        lemma_remove_zeros_bound(s.skip(1), b);
        if s[0] != 0 {
            let t = seq![s[0]] + remove_zeros(s.skip(1));
            assert(t.skip(1) =~= remove_zeros(s.skip(1)));
            assert(cell_ok(s[0]));
        }
    }
}

/// The merging pass keeps every cell occupied, conserves the total value,
/// and shortens the line by exactly the number of merges.
pub proof fn lemma_merge_pairs_basic(s: Seq<int>)
    requires
        forall|k: int| #![auto] 0 <= k < s.len() ==> s[k] != 0,
    ensures
        merge_pairs(s).len() + merge_count(s) == s.len(),
        forall|j: int| #![auto] 0 <= j < merge_pairs(s).len() ==> merge_pairs(s)[j] != 0,
        sum_of(merge_pairs(s)) == sum_of(s),
        count_nonzero(merge_pairs(s)) == merge_pairs(s).len(),
    decreases s.len(),
{
    lemma_all_nonzero_count(merge_pairs(s));
    if s.len() < 2 {
    } else if s[0] == s[1] {
        assert(forall|k: int| #![auto] 0 <= k < s.skip(2).len() ==> s.skip(2)[k] != 0);
        lemma_merge_pairs_basic(s.skip(2));
        let t = seq![2 * s[0]] + merge_pairs(s.skip(2));
        assert(t.skip(1) =~= merge_pairs(s.skip(2)));
        lemma_sum_skip_two(s);
    } else {
        assert(forall|k: int| #![auto] 0 <= k < s.skip(1).len() ==> s.skip(1)[k] != 0);
        lemma_merge_pairs_basic(s.skip(1));
        let t = seq![s[0]] + merge_pairs(s.skip(1));
        assert(t.skip(1) =~= merge_pairs(s.skip(1)));
    }
}

/// A line without zeros has as many occupied cells as cells.
proof fn lemma_all_nonzero_count(s: Seq<int>)
    ensures
        (forall|j: int| #![auto] 0 <= j < s.len() ==> s[j] != 0) ==> count_nonzero(s) == s.len(),
    decreases s.len(),
{
    if s.len() > 0 {
        lemma_all_nonzero_count(s.skip(1));
        assert((forall|j: int| #![auto] 0 <= j < s.len() ==> s[j] != 0) ==> (forall|j: int|
            #![auto]
            0 <= j < s.skip(1).len() ==> s.skip(1)[j] != 0));
    }
}

/// Summing a line two cells at a time agrees with summing it one at a time.
proof fn lemma_sum_skip_two(s: Seq<int>)
    requires
        s.len() >= 2,
    ensures
        sum_of(s) == s[0] + s[1] + sum_of(s.skip(2)),
{
    assert(s.skip(1).skip(1) =~= s.skip(2));
    assert(sum_of(s.skip(1)) == s.skip(1)[0] + sum_of(s.skip(1).skip(1)));
}

/// Merging two tiles doubles one of them, so the result of the pass is made
/// of tiles again, each at most twice the largest tile that went in.
pub proof fn lemma_merge_pairs_bound(s: Seq<int>, b: int)
    requires
        forall|k: int| #![auto] 0 <= k < s.len() ==> is_pow2(s[k]) && s[k] <= b,
    ensures
        forall|j: int| #![auto]
            0 <= j < merge_pairs(s).len() ==> is_pow2(merge_pairs(s)[j]) && merge_pairs(s)[j] <= 2
                * b,
    decreases s.len(),
{
    if s.len() < 2 {
        assert(forall|k: int| #![auto] 0 <= k < s.len() ==> s[k] <= 2 * b);
    } else if s[0] == s[1] {
        assert(forall|k: int| #![auto]
            0 <= k < s.skip(2).len() ==> is_pow2(s.skip(2)[k]) && s.skip(2)[k] <= b);
        lemma_merge_pairs_bound(s.skip(2), b);
        let t = seq![2 * s[0]] + merge_pairs(s.skip(2));
        assert(t.skip(1) =~= merge_pairs(s.skip(2)));
        assert(is_pow2(2 * s[0])) by {
            assert(2 * s[0] > 1 && (2 * s[0]) % 2 == 0 && (2 * s[0]) / 2 == s[0]);
        }
    } else {
        assert(forall|k: int| #![auto]
            0 <= k < s.skip(1).len() ==> is_pow2(s.skip(1)[k]) && s.skip(1)[k] <= b);
        lemma_merge_pairs_bound(s.skip(1), b);
        let t = seq![s[0]] + merge_pairs(s.skip(1));
        assert(t.skip(1) =~= merge_pairs(s.skip(1)));
    }
}

/// A pass merges nothing exactly when no two neighbouring cells are equal.
pub proof fn lemma_merge_count_zero_iff(s: Seq<int>)
    ensures
        (merge_count(s) == 0) <==> no_adjacent_equal(s),
    decreases s.len(),
{
    if s.len() < 2 {
    } else if s[0] == s[1] {
        assert(!no_adjacent_equal(s)) by {
            assert(s[0] == s[0int + 1]);
        }
    } else {
        lemma_merge_count_zero_iff(s.skip(1));
        assert(forall|k: int| 0 <= k < s.skip(1).len() - 1 ==> #[trigger] s.skip(1)[k] == s[k + 1]
            && s.skip(1)[k + 1] == s[k + 2]);
        if no_adjacent_equal(s.skip(1)) {
            assert(forall|k: int| 0 <= k < s.len() - 1 ==> #[trigger] s[k] != s[k + 1]) by {
                assert(forall|k: int| 1 <= k < s.len() - 1 ==> #[trigger] s[k] == s.skip(1)[k - 1]
                    && s[k + 1] == s.skip(1)[k]);
            }
        } else {
            let k = choose|k: int| 0 <= k < s.skip(1).len() - 1 && #[trigger] s.skip(1)[k]
                == s.skip(1)[k + 1];
            assert(s[k + 1] == s[k + 2]);
        }
    }
}

/// A pass that merges nothing leaves the line as it was.
pub proof fn lemma_merge_pairs_id(s: Seq<int>)
    requires
        no_adjacent_equal(s),
    ensures
        merge_pairs(s) == s,
    decreases s.len(),
{
    if s.len() < 2 {
    } else {
        assert(s[0] != s[1]) by {
            assert(s[0] != s[0int + 1]);
        }
        assert(no_adjacent_equal(s.skip(1))) by {
            assert(forall|k: int| 0 <= k < s.skip(1).len() - 1 ==> #[trigger] s.skip(1)[k] == s[k
                + 1] && s.skip(1)[k + 1] == s[k + 2]);
        }
        lemma_merge_pairs_id(s.skip(1));
        assert(seq![s[0]] + s.skip(1) =~= s);
    }
}

/// Removing zeros from a line that has none leaves the line as it was.
pub proof fn lemma_remove_zeros_id(s: Seq<int>)
    requires
        forall|k: int| #![auto] 0 <= k < s.len() ==> s[k] != 0,
    ensures
        remove_zeros(s) == s,
    decreases s.len(),
{
    if s.len() > 0 {
        assert(forall|k: int| #![auto] 0 <= k < s.skip(1).len() ==> s.skip(1)[k] != 0);
        lemma_remove_zeros_id(s.skip(1));
        assert(seq![s[0]] + s.skip(1) =~= s);
    }
}

/// Zeros appended to a line vanish when the zeros are removed.
pub proof fn lemma_remove_zeros_pad(s: Seq<int>, k: int)
    ensures
        remove_zeros(s + zero_line(k)) == remove_zeros(s),
    decreases s.len(),
{
    if s.len() == 0 {
        assert(s + zero_line(k) =~= zero_line(k));
        lemma_remove_zeros_zero_line(k);
    } else {
        assert((s + zero_line(k)).skip(1) =~= s.skip(1) + zero_line(k));
        lemma_remove_zeros_pad(s.skip(1), k);
        assert((s + zero_line(k))[0] == s[0]);
    }
}

/// A line of zeros has nothing left once the zeros are removed.
proof fn lemma_remove_zeros_zero_line(k: int)
    ensures
        remove_zeros(zero_line(k)) == Seq::<int>::empty(),
    decreases k,
{
    if k > 0 {
        assert(zero_line(k).skip(1) =~= zero_line(k - 1));
        lemma_remove_zeros_zero_line(k - 1);
    }
}

/// Reading a line backwards and taking its integer contents commute.
pub proof fn lemma_line_int_reverse(s: Seq<usize>)
    ensures
        line_int(s.reverse()) == line_int(s).reverse(),
{
    assert(line_int(s.reverse()) =~= line_int(s).reverse());
}

/// A line of zeros carries no occupied cell and no value.
proof fn lemma_zero_line_count_sum(k: int)
    ensures
        count_nonzero(zero_line(k)) == 0,
        sum_of(zero_line(k)) == 0,
    decreases k,
{
    if k > 0 {
        assert(zero_line(k).skip(1) =~= zero_line(k - 1));
        lemma_zero_line_count_sum(k - 1);
    }
}

/// Padding with zeros changes neither the occupied count nor the total value.
pub proof fn lemma_pad_count_sum(t: Seq<int>, k: int)
    ensures
        count_nonzero(t + zero_line(k)) == count_nonzero(t),
        sum_of(t + zero_line(k)) == sum_of(t),
    decreases t.len(),
{
    if t.len() == 0 {
        assert(t + zero_line(k) =~= zero_line(k));
        lemma_zero_line_count_sum(k);
    } else {
        assert((t + zero_line(k)).skip(1) =~= t.skip(1) + zero_line(k));
        lemma_pad_count_sum(t.skip(1), k);
        assert((t + zero_line(k))[0] == t[0]);
    }
}

/// A compressed line has its original length back.
pub proof fn lemma_compress_len(s: Seq<int>, n: int)
    requires
        s.len() <= n,
    ensures
        compress(s, n).len() == n,
{
    lemma_remove_zeros_basic(s);
    lemma_merge_pairs_basic(remove_zeros(s));
}

/// Compression of a line of valid cells yields valid cells again, each at
/// most twice the largest tile that went in.
pub proof fn lemma_compress_ok(s: Seq<int>, n: int, b: int)
    requires
        s.len() <= n,
        forall|k: int| #![auto] 0 <= k < s.len() ==> cell_ok(s[k]) && s[k] <= b,
        b >= 0,
    ensures
        compress(s, n).len() == n,
        forall|j: int| #![auto]
            0 <= j < compress(s, n).len() ==> cell_ok(compress(s, n)[j]) && compress(s, n)[j] <= 2
                * b,
{
    lemma_compress_len(s, n);
    lemma_remove_zeros_basic(s);
    lemma_remove_zeros_bound(s, b);
    lemma_merge_pairs_bound(remove_zeros(s), b);
    let m = merge_pairs(remove_zeros(s));
    assert(forall|j: int| #![auto]
        0 <= j < compress(s, n).len() ==> compress(s, n)[j] == if j < m.len() {
            m[j]
        } else {
            0
        });
}

/// Mirrored compression of a line of valid cells yields valid cells again,
/// each at most twice the largest tile that went in.
pub proof fn lemma_compress_rev_ok(s: Seq<int>, n: int, b: int)
    requires
        s.len() <= n,
        forall|k: int| #![auto] 0 <= k < s.len() ==> cell_ok(s[k]) && s[k] <= b,
        b >= 0,
    ensures
        compress_rev(s, n).len() == n,
        forall|j: int| #![auto]
            0 <= j < compress_rev(s, n).len() ==> cell_ok(compress_rev(s, n)[j]) && compress_rev(
                s,
                n,
            )[j] <= 2 * b,
{
    assert forall|k: int| 0 <= k < s.reverse().len() implies cell_ok(#[trigger] s.reverse()[k])
        && s.reverse()[k] <= b by {
        assert(s.reverse()[k] == s[s.len() - 1 - k]);
    }
    lemma_compress_ok(s.reverse(), n, b);
    assert forall|j: int| 0 <= j < compress_rev(s, n).len() implies cell_ok(
        #[trigger] compress_rev(s, n)[j],
    ) && compress_rev(s, n)[j] <= 2 * b by {
        assert(compress_rev(s, n)[j] == compress(s.reverse(), n)[n - 1 - j]);
    }
}

/// Two lines with the same integer contents are the same line.
pub proof fn lemma_line_int_injective(x: Seq<usize>, y: Seq<usize>)
    ensures
        (line_int(x) == line_int(y)) == (x == y),
{
    if line_int(x) == line_int(y) {
        assert(line_int(x).len() == x.len());
        assert(line_int(y).len() == y.len());
        assert forall|k: int| 0 <= k < x.len() implies x[k] == y[k] by {
            assert(line_int(x)[k] == x[k] as int);
            assert(line_int(y)[k] == y[k] as int);
            assert(line_int(x)[k] == line_int(y)[k]);
        }
        assert(x =~= y);
    }
}

} // verus!
