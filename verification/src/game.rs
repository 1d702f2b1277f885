//! The board engine: a square grid of power-of-two tiles, a move-resolution
//! entry point, terminal-state checks, and the random spawn of a fresh tile.

use vstd::prelude::*;
use crate::grid::{
    column, down_of, grid_bounded, grid_contains, grid_int, grid_locked, grid_wf, left_of,
    right_of, spawn_step, up_of, zero_grid,
};
use crate::line::{
    cell_ok, compress, compress_rev, is_pow2, lemma_compress_ok, lemma_compress_rev_ok,
    lemma_line_int_injective, lemma_line_int_reverse, lemma_merge_pairs_basic,
    lemma_remove_zeros_basic, line_int, merge_pairs, remove_zeros, zero_line,
};

verus! {

broadcast use vstd::string::group_string_axioms;

/// A player's command, decoded by the caller from whatever input it reads.
pub enum Move {
    /// Compress every row toward the left edge.
    Left,
    /// Compress every row toward the right edge.
    Right,
    /// Compress every column toward the top row.
    Up,
    /// Compress every column toward the bottom row.
    Down,
    /// Anything that is not a direction: the board is left as it is.
    Dont,
}

/// What a move does to the grid, before the terminal checks.
pub open spec fn apply_move(g: Seq<Seq<int>>, mov: Move) -> Seq<Seq<int>> {
    match mov {
        Move::Left => left_of(g),
        Move::Right => right_of(g),
        Move::Up => up_of(g),
        Move::Down => down_of(g),
        Move::Dont => g,
    }
}

/// The board a game of 2048 is played on, together with the rules.
pub struct Game {
    board: Vec<Vec<usize>>,
    board_size: usize,
    winning: usize,
}

impl Game {
    /// The integer contents of the board, row-major.
    pub closed spec fn grid(self) -> Seq<Seq<int>> {
        grid_int(self.board.deep_view())
    }

    /// The side length the board was built with.
    pub closed spec fn size(self) -> int {
        self.board_size as int
    }

    /// The tile value that wins the game.
    pub closed spec fn target(self) -> int {
        self.winning as int
    }

    /// The board is a square grid of side at least 2, every cell empty or a
    /// power-of-two tile, and the winning value is a power of two.
    pub open spec fn wf(self) -> bool {
        &&& grid_wf(self.grid(), self.size())
        &&& self.size() >= 2
        &&& is_pow2(self.target())
    }
}

/// The grid model indexes into the very rows the vector of vectors holds.
proof fn lemma_grid_view(b: Vec<Vec<usize>>)
    ensures
        grid_int(b.deep_view()).len() == b@.len(),
        forall|i: int|
            0 <= i < b@.len() ==> #[trigger] grid_int(b.deep_view())[i] == line_int(b@[i]@),
{
    assert forall|i: int|
        0 <= i < b@.len() implies #[trigger] grid_int(b.deep_view())[i] == line_int(b@[i]@) by {
        assert(b@[i].deep_view() =~= b@[i]@);
    }
}

impl Game {
    /// Compress one line toward its front: slide the gaps out, merge equal
    /// neighbours once, and pad the tail back to the board's side length.
    fn vec_compress(&self, v: &mut Vec<usize>)
        requires
            old(v)@.len() == self.board_size,
            forall|k: int| #![auto] 0 <= k < old(v)@.len() ==> old(v)@[k] <= usize::MAX / 2,
        ensures
            final(v)@.len() == self.board_size,
            line_int(final(v)@) == compress(line_int(old(v)@), self.size()),
    {
        let ghost orig: Seq<int> = line_int(old(v)@);
        // Slide the tiles together by dropping every zero.
        let mut t: Vec<usize> = Vec::new();
        let mut i: usize = 0;
        proof {
            assert(orig.skip(0) =~= orig);
            assert(line_int(t@) + remove_zeros(orig) =~= remove_zeros(orig));
        }
        while i < v.len()
            invariant
                i <= v@.len(),
                v@ == old(v)@,
                orig == line_int(v@),
                forall|k: int| #![auto] 0 <= k < v@.len() ==> v@[k] <= usize::MAX / 2,
                forall|k: int| #![auto] 0 <= k < t@.len() ==> t@[k] != 0 && t@[k] <= usize::MAX / 2,
                remove_zeros(orig) == line_int(t@) + remove_zeros(orig.skip(i as int)),
            decreases v@.len() - i,
        {
            let x = v[i];
            proof {
                assert(orig.skip(i as int)[0] == orig[i as int]);
                assert(orig.skip(i as int).skip(1) =~= orig.skip(i as int + 1));
                if x != 0 {
                    assert(line_int(t@.push(x)) =~= line_int(t@) + seq![x as int]);
                    assert(line_int(t@) + (seq![x as int] + remove_zeros(orig.skip(i as int + 1)))
                        =~= (line_int(t@) + seq![x as int]) + remove_zeros(orig.skip(i as int + 1)));
                }
            }
            if x != 0 {
                t.push(x);
            }
            i += 1;
        }
        proof {
            assert(orig.skip(v@.len() as int) =~= Seq::<int>::empty());
            assert(remove_zeros(orig) =~= line_int(t@));
        }
        let ghost rz: Seq<int> = remove_zeros(orig);
        // One merging pass, left to right; a merged pair is never revisited.
        let mut out: Vec<usize> = Vec::new();
        let mut j: usize = 0;
        proof {
            assert(rz.skip(0) =~= rz);
            assert(line_int(out@) + merge_pairs(rz) =~= merge_pairs(rz));
        }
        while j < t.len()
            invariant
                j <= t@.len(),
                rz == line_int(t@),
                forall|k: int| #![auto] 0 <= k < t@.len() ==> t@[k] != 0 && t@[k] <= usize::MAX / 2,
                merge_pairs(rz) == line_int(out@) + merge_pairs(rz.skip(j as int)),
            decreases t@.len() - j,
        {
            proof {
                assert(rz.skip(j as int)[0] == rz[j as int]);
                if j + 1 < t@.len() {
                    assert(rz.skip(j as int)[1] == rz[j as int + 1]);
                    assert(rz.skip(j as int).skip(2) =~= rz.skip(j as int + 2));
                }
                assert(rz.skip(j as int).skip(1) =~= rz.skip(j as int + 1));
            }
            if j + 1 < t.len() && t[j] == t[j + 1] {
                let m = t[j] * 2;
                proof {
                    assert(line_int(out@.push(m)) =~= line_int(out@) + seq![m as int]);
                    assert(line_int(out@) + (seq![m as int] + merge_pairs(rz.skip(j as int + 2)))
                        =~= (line_int(out@) + seq![m as int]) + merge_pairs(rz.skip(j as int + 2)));
                }
                out.push(m);
                j += 2;
            } else {
                let m = t[j];
                proof {
                    assert(line_int(out@.push(m)) =~= line_int(out@) + seq![m as int]);
                    assert(line_int(out@) + (seq![m as int] + merge_pairs(rz.skip(j as int + 1)))
                        =~= (line_int(out@) + seq![m as int]) + merge_pairs(rz.skip(j as int + 1)));
                    if j + 1 == t@.len() {
                        assert(rz.skip(j as int).len() == 1);
                        assert(merge_pairs(rz.skip(j as int)) =~= rz.skip(j as int));
                        assert(rz.skip(j as int) =~= seq![rz[j as int]]);
                        assert(merge_pairs(rz.skip(j as int + 1)) =~= Seq::<int>::empty());
                    }
                }
                out.push(m);
                j += 1;
            }
        }
        proof {
            assert(rz.skip(t@.len() as int) =~= Seq::<int>::empty());
            assert(merge_pairs(rz) =~= line_int(out@));
            lemma_remove_zeros_basic(orig);
            lemma_merge_pairs_basic(rz);
        }
        let ghost mp: Seq<int> = merge_pairs(rz);
        // Pad the tail with zeros back to the board's side length.
        let n = self.board_size;
        proof {
            assert(line_int(out@) =~= mp + zero_line(0));
        }
        while out.len() < n
            invariant
                out@.len() <= n,
                mp.len() <= out@.len(),
                line_int(out@) == mp + zero_line(out@.len() - mp.len()),
            decreases n - out@.len(),
        {
            proof {
                let nxt = line_int(out@.push(0));
                let pad = mp + zero_line(out@.len() + 1 - mp.len());
                assert(nxt.len() == pad.len());
                assert forall|k: int| 0 <= k < nxt.len() implies nxt[k] == pad[k] by {
                    if k < out@.len() {
                        assert(nxt[k] == line_int(out@)[k]);
                        assert(line_int(out@)[k] == (mp + zero_line(out@.len() - mp.len()))[k]);
                    } else {
                        assert(nxt[k] == 0);
                    }
                }
                assert(nxt =~= pad);
            }
            out.push(0);
        }
        *v = out;
        assert(line_int(v@) =~= compress(orig, self.size()));
    }

    /// Compress one line toward its back: the mirror image of compressing
    /// toward the front.
    fn vec_compress_rev(&self, v: &mut Vec<usize>)
        requires
            old(v)@.len() == self.board_size,
            forall|k: int| #![auto] 0 <= k < old(v)@.len() ==> old(v)@[k] <= usize::MAX / 2,
        ensures
            final(v)@.len() == self.board_size,
            line_int(final(v)@) == compress_rev(line_int(old(v)@), self.size()),
    {
        let mut rv = reverse_row(v);
        proof {
            lemma_line_int_reverse(old(v)@);
            assert forall|k: int| 0 <= k < rv@.len() implies #[trigger] rv@[k]
                <= usize::MAX / 2 by {
                assert(rv@[k] == old(v)@[old(v)@.len() - 1 - k]);
            }
        }
        self.vec_compress(&mut rv);
        let ghost mid: Seq<int> = line_int(rv@);
        let rv2 = reverse_row(&rv);
        *v = rv2;
        proof {
            lemma_line_int_reverse(rv@);
            assert(line_int(v@) == mid.reverse());
            assert(mid == compress(line_int(old(v)@).reverse(), self.size()));
        }
    }

    /// Compress every row toward the left edge.
    fn move_left(&mut self)
        requires
            old(self).board@.len() == old(self).board_size,
            forall|i: int| #![auto]
                0 <= i < old(self).board@.len() ==> old(self).board@[i]@.len() == old(
                    self,
                ).board_size,
            grid_bounded(old(self).grid(), usize::MAX as int / 2),
        ensures
            final(self).grid() == left_of(old(self).grid()),
            final(self).board_size == old(self).board_size,
            final(self).winning == old(self).winning,
    {
        let n = self.board_size;
        let ghost g0 = old(self).grid();
        proof {
            lemma_grid_view(old(self).board);
        }
        let mut i: usize = 0;
        while i < n
            invariant
                i <= n,
                n == self.board_size,
                self.winning == old(self).winning,
                self.board@.len() == n,
                g0 == old(self).grid(),
                g0.len() == n,
                forall|k: int| #![auto] 0 <= k < n ==> g0[k] == line_int(old(self).board@[k]@),
                forall|k: int| #![auto] 0 <= k < n ==> old(self).board@[k]@.len() == n,
                grid_bounded(g0, usize::MAX as int / 2),
                forall|k: int| #![auto] i <= k < n ==> self.board@[k] == old(self).board@[k],
                forall|k: int| #![auto]
                    0 <= k < i ==> line_int(self.board@[k]@) == compress(g0[k], n as int),
            decreases n - i,
        {
            let mut row = copy_row(&self.board[i]);
            proof {
                assert forall|k: int| 0 <= k < row@.len() implies #[trigger] row@[k]
                    <= usize::MAX / 2 by {
                    assert(g0[i as int][k] == row@[k] as int);
                }
            }
            self.vec_compress(&mut row);
            self.board[i] = row;
            i += 1;
        }
        proof {
            lemma_grid_view(self.board);
            assert(self.grid() =~= left_of(g0));
        }
    }

    /// Compress every row toward the right edge.
    fn move_right(&mut self)
        requires
            old(self).board@.len() == old(self).board_size,
            forall|i: int| #![auto]
                0 <= i < old(self).board@.len() ==> old(self).board@[i]@.len() == old(
                    self,
                ).board_size,
            grid_bounded(old(self).grid(), usize::MAX as int / 2),
        ensures
            final(self).grid() == right_of(old(self).grid()),
            final(self).board_size == old(self).board_size,
            final(self).winning == old(self).winning,
    {
        let n = self.board_size;
        let ghost g0 = old(self).grid();
        proof {
            lemma_grid_view(old(self).board);
        }
        let mut i: usize = 0;
        while i < n
            invariant
                i <= n,
                n == self.board_size,
                self.winning == old(self).winning,
                self.board@.len() == n,
                g0 == old(self).grid(),
                g0.len() == n,
                forall|k: int| #![auto] 0 <= k < n ==> g0[k] == line_int(old(self).board@[k]@),
                forall|k: int| #![auto] 0 <= k < n ==> old(self).board@[k]@.len() == n,
                grid_bounded(g0, usize::MAX as int / 2),
                forall|k: int| #![auto] i <= k < n ==> self.board@[k] == old(self).board@[k],
                forall|k: int| #![auto]
                    0 <= k < i ==> line_int(self.board@[k]@) == compress_rev(g0[k], n as int),
            decreases n - i,
        {
            let mut row = copy_row(&self.board[i]);
            proof {
                assert forall|k: int| 0 <= k < row@.len() implies #[trigger] row@[k]
                    <= usize::MAX / 2 by {
                    assert(g0[i as int][k] == row@[k] as int);
                }
            }
            self.vec_compress_rev(&mut row);
            self.board[i] = row;
            i += 1;
        }
        proof {
            lemma_grid_view(self.board);
            assert(self.grid() =~= right_of(g0));
        }
    }

    /// Compress every column toward the top row, or, when `rev` is set,
    /// toward the bottom row: the same line transform, applied to each
    /// column read top to bottom and written back in place.
    fn move_vertical(&mut self, rev: bool)
        requires
            old(self).board@.len() == old(self).board_size,
            forall|i: int| #![auto]
                0 <= i < old(self).board@.len() ==> old(self).board@[i]@.len() == old(
                    self,
                ).board_size,
            grid_bounded(old(self).grid(), usize::MAX as int / 2),
        ensures
            final(self).grid() == (if rev {
                down_of(old(self).grid())
            } else {
                up_of(old(self).grid())
            }),
            final(self).board_size == old(self).board_size,
            final(self).winning == old(self).winning,
    {
        let n = self.board_size;
        let ghost g0 = old(self).grid();
        proof {
            lemma_grid_view(old(self).board);
        }
        let mut cols: Vec<Vec<usize>> = Vec::new();
        let mut j: usize = 0;
        while j < n
            invariant
                j <= n,
                n == self.board_size,
                self.winning == old(self).winning,
                self.board@ == old(self).board@,
                g0 == old(self).grid(),
                g0.len() == n,
                forall|k: int| #![auto] 0 <= k < n ==> g0[k] == line_int(old(self).board@[k]@),
                forall|k: int| #![auto] 0 <= k < n ==> old(self).board@[k]@.len() == n,
                grid_bounded(g0, usize::MAX as int / 2),
                cols@.len() == j,
                forall|c: int| #![auto] 0 <= c < j ==> cols@[c]@.len() == n,
                forall|c: int| #![auto]
                    0 <= c < j ==> line_int(cols@[c]@) == (if rev {
                        compress_rev(column(g0, c), n as int)
                    } else {
                        compress(column(g0, c), n as int)
                    }),
            decreases n - j,
        {
            let mut col: Vec<usize> = Vec::new();
            let mut i: usize = 0;
            while i < n
                invariant
                    i <= n,
                    j < n,
                    n == self.board_size,
                    self.board@ == old(self).board@,
                    self.board@.len() == n,
                    g0.len() == n,
                    forall|k: int| #![auto] 0 <= k < n ==> g0[k] == line_int(old(self).board@[k]@),
                    forall|k: int| #![auto] 0 <= k < n ==> old(self).board@[k]@.len() == n,
                    col@.len() == i,
                    forall|k: int| #![auto] 0 <= k < i ==> col@[k] as int == g0[k][j as int],
                decreases n - i,
            {
                col.push(self.board[i][j]);
                i += 1;
            }
            proof {
                assert(line_int(col@) =~= column(g0, j as int));
                assert forall|k: int| 0 <= k < col@.len() implies #[trigger] col@[k]
                    <= usize::MAX / 2 by {
                    assert(g0[k][j as int] == col@[k] as int);
                }
            }
            if rev {
                self.vec_compress_rev(&mut col);
            } else {
                self.vec_compress(&mut col);
            }
            cols.push(col);
            j += 1;
        }
        let mut nb: Vec<Vec<usize>> = Vec::new();
        let mut i: usize = 0;
        while i < n
            invariant
                i <= n,
                n == self.board_size,
                self.winning == old(self).winning,
                g0 == old(self).grid(),
                g0.len() == n,
                cols@.len() == n,
                forall|c: int| #![auto] 0 <= c < n ==> cols@[c]@.len() == n,
                forall|c: int| #![auto]
                    0 <= c < n ==> line_int(cols@[c]@) == (if rev {
                        compress_rev(column(g0, c), n as int)
                    } else {
                        compress(column(g0, c), n as int)
                    }),
                nb@.len() == i,
                forall|r: int| #![auto] 0 <= r < i ==> nb@[r]@.len() == n,
                forall|r: int, c: int|
                    0 <= r < i && 0 <= c < n ==> #[trigger] nb@[r]@[c] == cols@[c]@[r],
            decreases n - i,
        {
            let mut row: Vec<usize> = Vec::new();
            let mut c: usize = 0;
            while c < n
                invariant
                    c <= n,
                    i < n,
                    cols@.len() == n,
                    forall|cc: int| #![auto] 0 <= cc < n ==> cols@[cc]@.len() == n,
                    row@.len() == c,
                    forall|cc: int| #![auto] 0 <= cc < c ==> row@[cc] == cols@[cc]@[i as int],
                decreases n - c,
            {
                row.push(cols[c][i]);
                c += 1;
            }
            nb.push(row);
            i += 1;
        }
        self.board = nb;
        proof {
            lemma_grid_view(self.board);
            let gv = if rev {
                down_of(g0)
            } else {
                up_of(g0)
            };
            assert forall|r: int| 0 <= r < n implies self.grid()[r] == gv[r] by {
                assert forall|c: int| 0 <= c < n implies line_int(self.board@[r]@)[c]
                    == gv[r][c] by {
                    assert(self.board@[r]@[c] == cols@[c]@[r]);
                    assert(line_int(cols@[c]@)[r] == cols@[c]@[r] as int);
                }
                assert(self.grid()[r] =~= gv[r]);
            }
            assert(self.grid() =~= gv);
        }
    }

    /// Whether any cell of the board holds the value `x`.
    fn contains(&self, x: usize) -> (r: bool)
        ensures
            r == grid_contains(self.grid(), x as int),
    {
        proof {
            lemma_grid_view(self.board);
        }
        let mut i: usize = 0;
        while i < self.board.len()
            invariant
                i <= self.board@.len(),
                self.grid().len() == self.board@.len(),
                forall|k: int|
                    0 <= k < self.board@.len() ==> #[trigger] self.grid()[k] == line_int(
                        self.board@[k]@,
                    ),
                forall|i0: int, j0: int|
                    0 <= i0 < i && 0 <= j0 < self.grid()[i0].len() ==> #[trigger] self.grid()[i0][j0]
                        != x as int,
            decreases self.board@.len() - i,
        {
            let row = &self.board[i];
            let mut j: usize = 0;
            while j < row.len()
                invariant
                    j <= row@.len(),
                    i < self.board@.len(),
                    row@ == self.board@[i as int]@,
                    self.grid().len() == self.board@.len(),
                    forall|k: int|
                        0 <= k < self.board@.len() ==> #[trigger] self.grid()[k] == line_int(
                            self.board@[k]@,
                        ),
                    forall|j0: int|
                        0 <= j0 < j ==> #[trigger] self.grid()[i as int][j0] != x as int,
                decreases row@.len() - j,
            {
                if row[j] == x {
                    assert(self.grid()[i as int][j as int] == x as int);
                    return true;
                }
                j += 1;
            }
            i += 1;
        }
        false
    }

    /// Whether the board is full and no two neighbouring cells are equal, so
    /// that no move of any direction could change it.
    fn is_locked(&self) -> (r: bool)
        requires
            self.board@.len() == self.board_size,
            forall|i: int| #![auto]
                0 <= i < self.board@.len() ==> self.board@[i]@.len() == self.board_size,
        ensures
            r == grid_locked(self.grid()),
    {
        proof {
            lemma_grid_view(self.board);
        }
        if self.contains(0) {
            return false;
        }
        let n = self.board_size;
        let mut i: usize = 0;
        while i < n
            invariant
                i <= n,
                n == self.board_size,
                self.board@.len() == n,
                forall|k: int| #![auto] 0 <= k < n ==> self.board@[k]@.len() == n,
                self.grid().len() == n,
                forall|k: int|
                    0 <= k < n ==> #[trigger] self.grid()[k] == line_int(self.board@[k]@),
                !grid_contains(self.grid(), 0),
                forall|i0: int, j0: int|
                    0 <= i0 < i && 0 <= j0 < n ==> {
                        &&& (i0 + 1 < n ==> #[trigger] self.grid()[i0][j0] != self.grid()[i0
                            + 1][j0])
                        &&& (j0 + 1 < n ==> self.grid()[i0][j0] != self.grid()[i0][j0 + 1])
                    },
            decreases n - i,
        {
            let mut j: usize = 0;
            while j < n
                invariant
                    j <= n,
                    i < n,
                    n == self.board_size,
                    self.board@.len() == n,
                    forall|k: int| #![auto] 0 <= k < n ==> self.board@[k]@.len() == n,
                    self.grid().len() == n,
                    forall|k: int|
                        0 <= k < n ==> #[trigger] self.grid()[k] == line_int(self.board@[k]@),
                    forall|i0: int, j0: int|
                        0 <= i0 < i && 0 <= j0 < n ==> {
                            &&& (i0 + 1 < n ==> #[trigger] self.grid()[i0][j0] != self.grid()[i0
                                + 1][j0])
                            &&& (j0 + 1 < n ==> self.grid()[i0][j0] != self.grid()[i0][j0 + 1])
                        },
                    forall|j0: int|
                        0 <= j0 < j ==> {
                            &&& (i + 1 < n ==> #[trigger] self.grid()[i as int][j0] != self.grid()[i
                                as int + 1][j0])
                            &&& (j0 + 1 < n ==> self.grid()[i as int][j0] != self.grid()[i as int][j0
                                + 1])
                        },
                decreases n - j,
            {
                if i != n - 1 {
                    if self.board[i][j] == self.board[i + 1][j] {
                        assert(self.grid()[i as int][j as int] == self.grid()[i as int + 1][j as int]);
                        return false;
                    }
                }
                if j != n - 1 {
                    if self.board[i][j] == self.board[i][j + 1] {
                        assert(self.grid()[i as int][j as int] == self.grid()[i as int][j as int + 1]);
                        return false;
                    }
                }
                j += 1;
            }
            i += 1;
        }
        true
    }

    /// Build a board of side `board_size` with every cell empty, normalize
    /// `winning` down to the nearest power of two below it, and spawn the
    /// first tile.
    pub fn new(board_size: usize, winning: usize) -> (g: Game)
        requires
            board_size >= 2,
            winning >= 1,
        ensures
            g.wf(),
            g.size() == board_size,
            g.target() <= winning < 2 * g.target(),
            spawn_step(zero_grid(board_size as int), g.grid()),
    {
        let mut board: Vec<Vec<usize>> = Vec::new();
        let mut i: usize = 0;
        while i < board_size
            invariant
                i <= board_size,
                board@.len() == i,
                forall|k: int| #![auto] 0 <= k < i ==> board@[k]@.len() == board_size,
                forall|k: int, j: int|
                    0 <= k < i && 0 <= j < board_size ==> #[trigger] board@[k]@[j] == 0,
            decreases board_size - i,
        {
            let mut row: Vec<usize> = Vec::new();
            let mut j: usize = 0;
            while j < board_size
                invariant
                    j <= board_size,
                    row@.len() == j,
                    forall|k: int| #![auto] 0 <= k < j ==> row@[k] == 0,
                decreases board_size - j,
            {
                row.push(0);
                j += 1;
            }
            board.push(row);
            i += 1;
        }
        // The largest power of two that does not exceed the asked-for value.
        let mut w: usize = 1;
        while w <= winning / 2
            invariant
                1 <= w <= winning,
                is_pow2(w as int),
            decreases winning - w,
        {
            proof {
                assert(is_pow2(2 * w as int)) by {
                    assert(2 * w as int > 1 && (2 * w as int) % 2 == 0 && (2 * w as int) / 2
                        == w as int);
                }
            }
            w = w * 2;
        }
        let mut g = Game { board, board_size, winning: w };
        let ghost n = board_size as int;
        proof {
            lemma_grid_view(g.board);
            assert forall|k: int| 0 <= k < n implies #[trigger] g.grid()[k] == zero_grid(n)[k] by {
                assert(line_int(g.board@[k]@) =~= zero_line(n));
            }
            assert(g.grid() =~= zero_grid(n));
            assert(g.grid()[0][0] == 0);
        }
        g.spawn();
        proof {
            assert(grid_wf(zero_grid(n), n));
            lemma_spawn_step_wf(zero_grid(n), g.grid(), n);
        }
        g
    }

    /// Build a game from given board contents, with no tile spawned: the
    /// grid must be square of side at least 2, every cell empty or a
    /// power-of-two tile, and the winning value a power of two.
    pub fn with_board(board: Vec<Vec<usize>>, winning: usize) -> (r: Option<Game>)
        ensures
            (r is Some) == valid_setup(grid_int(board.deep_view()), winning as int),
            (match r {
                Some(g) => {
                    &&& g.wf()
                    &&& g.grid() == grid_int(board.deep_view())
                    &&& g.size() == board@.len()
                    &&& g.target() == winning
                },
                None => true,
            }),
    {
        proof {
            lemma_grid_view(board);
        }
        let ghost gv = grid_int(board.deep_view());
        let n = board.len();
        if n < 2 {
            return None;
        }
        if !is_pow2_exec(winning) {
            return None;
        }
        let mut i: usize = 0;
        while i < n
            invariant
                i <= n,
                n == board@.len(),
                n >= 2,
                gv == grid_int(board.deep_view()),
                gv.len() == n,
                forall|k: int| 0 <= k < n ==> #[trigger] gv[k] == line_int(board@[k]@),
                forall|k: int| #![auto] 0 <= k < i ==> gv[k].len() == n,
                forall|k: int, j: int|
                    0 <= k < i && 0 <= j < gv[k].len() ==> cell_ok(#[trigger] gv[k][j]),
            decreases n - i,
        {
            if board[i].len() != n {
                proof {
                    assert(gv[i as int].len() != n);
                }
                return None;
            }
            let mut j: usize = 0;
            while j < n
                invariant
                    j <= n,
                    i < n,
                    n == board@.len(),
                    gv == grid_int(board.deep_view()),
                    gv.len() == n,
                    forall|k: int| 0 <= k < n ==> #[trigger] gv[k] == line_int(board@[k]@),
                    board@[i as int]@.len() == n,
                    forall|jj: int| #![auto] 0 <= jj < j ==> cell_ok(gv[i as int][jj]),
                decreases n - j,
            {
                let v = board[i][j];
                if v != 0 && !is_pow2_exec(v) {
                    proof {
                        assert(!cell_ok(gv[i as int][j as int]));
                    }
                    return None;
                }
                j += 1;
            }
            i += 1;
        }
        Some(Game { board, board_size: n, winning })
    }

    /// A read-only view of the grid, ordered rows of ordered cells, for the
    /// caller to render.
    pub fn board(&self) -> (r: &Vec<Vec<usize>>)
        ensures
            grid_int(r.deep_view()) == self.grid(),
    {
        &self.board
    }

    /// The normalized winning value.
    pub fn winning(&self) -> (r: usize)
        ensures
            r == self.target(),
    {
        self.winning
    }

    /// Spawn one fresh tile; the session loop calls this after every move
    /// that changed the board. Some cell must still be empty.
    pub fn refresh(&mut self)
        requires
            old(self).wf(),
            grid_contains(old(self).grid(), 0),
        ensures
            final(self).wf(),
            final(self).size() == old(self).size(),
            final(self).target() == old(self).target(),
            spawn_step(old(self).grid(), final(self).grid()),
    {
        proof {
            lemma_wf_board_lens(*self);
        }
        self.spawn();
        proof {
            lemma_spawn_step_wf(old(self).grid(), self.grid(), old(self).size());
        }
    }

    /// Resolve one move: compress the grid in the given direction in place,
    /// then check the terminal conditions. A locked board loses, a board
    /// showing the winning value wins, and otherwise the caller learns
    /// whether the board changed, which tells it to spawn next.
    pub fn mover(&mut self, mov: Move) -> (r: Result<bool, String>)
        requires
            old(self).wf(),
            grid_bounded(old(self).grid(), usize::MAX as int / 2),
        ensures
            final(self).wf(),
            final(self).size() == old(self).size(),
            final(self).target() == old(self).target(),
            final(self).grid() == apply_move(old(self).grid(), mov),
            grid_locked(final(self).grid()) ==> (r matches Err(m) && m@ == "You have Lost!"@),
            !grid_locked(final(self).grid()) && grid_contains(final(self).grid(), final(self).target())
                ==> (r matches Err(m) && m@ == "You have Won!"@),
            !grid_locked(final(self).grid()) && !grid_contains(
                final(self).grid(),
                final(self).target(),
            ) ==> (r matches Ok(c) && c == (final(self).grid() != old(self).grid())),
    {
        let ghost g0 = old(self).grid();
        proof {
            lemma_wf_board_lens(*self);
        }
        let temp = copy_grid(&self.board);
        match mov {
            Move::Left => self.move_left(),
            Move::Right => self.move_right(),
            Move::Up => self.move_vertical(false),
            Move::Down => self.move_vertical(true),
            Move::Dont => {},
        }
        proof {
            lemma_apply_move_ok(g0, mov, usize::MAX as int / 2);
            lemma_wf_board_lens(*self);
        }
        if self.is_locked() {
            return Err("You have Lost!".to_string());
        }
        if self.contains(self.winning) {
            return Err("You have Won!".to_string());
        }
        let changed = !grids_equal(&temp, &self.board);
        Ok(changed)
    }

    /// Place one fresh tile on a uniformly chosen empty cell: a 4 when the
    /// drawn number is divisible by five, a 2 otherwise.
    fn spawn(&mut self)
        requires
            old(self).board@.len() == old(self).board_size,
            forall|i: int| #![auto]
                0 <= i < old(self).board@.len() ==> old(self).board@[i]@.len() == old(
                    self,
                ).board_size,
            grid_contains(old(self).grid(), 0),
        ensures
            spawn_step(old(self).grid(), final(self).grid()),
            final(self).board_size == old(self).board_size,
            final(self).winning == old(self).winning,
    {
        let x = random_u64();
        let n = self.board_size;
        let ghost g0 = old(self).grid();
        proof {
            lemma_grid_view(self.board);
        }
        let ghost (wr, wc) = choose|wr: int, wc: int|
            0 <= wr < g0.len() && 0 <= wc < g0[wr].len() && g0[wr][wc] == 0;
        let mut empties: Vec<(usize, usize)> = Vec::new();
        let mut i: usize = 0;
        while i < n
            invariant
                i <= n,
                n == self.board_size,
                self.board@ == old(self).board@,
                self.board@.len() == n,
                forall|k: int| #![auto] 0 <= k < n ==> self.board@[k]@.len() == n,
                g0 == old(self).grid(),
                g0.len() == n,
                forall|k: int| 0 <= k < n ==> #[trigger] g0[k] == line_int(self.board@[k]@),
                0 <= wr < n && 0 <= wc < n && g0[wr][wc] == 0,
                forall|k: int| #![auto]
                    0 <= k < empties@.len() ==> {
                        &&& empties@[k].0 < n
                        &&& empties@[k].1 < n
                        &&& g0[empties@[k].0 as int][empties@[k].1 as int] == 0
                    },
                wr < i ==> empties@.len() > 0,
            decreases n - i,
        {
            let mut j: usize = 0;
            while j < n
                invariant
                    j <= n,
                    i < n,
                    n == self.board_size,
                    self.board@ == old(self).board@,
                    self.board@.len() == n,
                    forall|k: int| #![auto] 0 <= k < n ==> self.board@[k]@.len() == n,
                    g0.len() == n,
                    forall|k: int| 0 <= k < n ==> #[trigger] g0[k] == line_int(self.board@[k]@),
                    0 <= wr < n && 0 <= wc < n && g0[wr][wc] == 0,
                    forall|k: int| #![auto]
                        0 <= k < empties@.len() ==> {
                            &&& empties@[k].0 < n
                            &&& empties@[k].1 < n
                            &&& g0[empties@[k].0 as int][empties@[k].1 as int] == 0
                        },
                    wr < i || (wr == i && wc < j) ==> empties@.len() > 0,
                decreases n - j,
            {
                if self.board[i][j] == 0 {
                    empties.push((i, j));
                }
                j += 1;
            }
            i += 1;
        }
        let m = empties.len();
        assert(m > 0);
        let k = (x % (m as u64)) as usize;
        assert(k < m) by {
            assert(x % (m as u64) < (m as u64));
        }
        let rc = empties[k];
        let r = rc.0;
        let c = rc.1;
        let val: usize = if x % 5 == 0 {
            4
        } else {
            2
        };
        let mut row = copy_row(&self.board[r]);
        row[c] = val;
        self.board[r] = row;
        proof {
            lemma_grid_view(self.board);
            assert(line_int(self.board@[r as int]@) =~= g0[r as int].update(c as int, val as int));
            assert(self.grid() =~= g0.update(r as int, g0[r as int].update(c as int, val as int)));
            assert(spawn_step(g0, self.grid())) by {
                assert(0 <= r < g0.len() && 0 <= c < g0[r as int].len() && g0[r as int][c as int]
                    == 0 && (self.grid()[r as int][c as int] == 2 || self.grid()[r as int][c as int]
                    == 4) && self.grid() =~= g0.update(
                    r as int,
                    g0[r as int].update(c as int, self.grid()[r as int][c as int]),
                ));
            }
        }
    }
}

/// Board contents a game can be built from: a square grid of side at least
/// 2 whose cells are all empty or power-of-two tiles, with a power-of-two
/// winning value.
pub open spec fn valid_setup(g: Seq<Seq<int>>, target: int) -> bool {
    &&& g.len() >= 2
    &&& grid_wf(g, g.len() as int)
    &&& is_pow2(target)
}

/// A move takes a well-formed grid to a well-formed grid of the same side,
/// whose tiles are at most twice as large as before.
pub proof fn lemma_apply_move_ok(g: Seq<Seq<int>>, mov: Move, b: int)
    requires
        grid_wf(g, g.len() as int),
        grid_bounded(g, b),
        b >= 0,
    ensures
        grid_wf(apply_move(g, mov), g.len() as int),
        grid_bounded(apply_move(g, mov), 2 * b),
        apply_move(g, mov).len() == g.len(),
{
    let n = g.len() as int;
    let a = apply_move(g, mov);
    match mov {
        Move::Left => {
            assert forall|i: int| 0 <= i < n implies #[trigger] a[i].len() == n && (forall|j: int|
                #![auto]
                0 <= j < a[i].len() ==> cell_ok(a[i][j]) && a[i][j] <= 2 * b) by {
                lemma_compress_ok(g[i], n, b);
            }
        },
        Move::Right => {
            assert forall|i: int| 0 <= i < n implies #[trigger] a[i].len() == n && (forall|j: int|
                #![auto]
                0 <= j < a[i].len() ==> cell_ok(a[i][j]) && a[i][j] <= 2 * b) by {
                lemma_compress_rev_ok(g[i], n, b);
            }
        },
        Move::Up => {
            assert forall|i: int| 0 <= i < n implies #[trigger] a[i].len() == n && (forall|j: int|
                #![auto]
                0 <= j < a[i].len() ==> cell_ok(a[i][j]) && a[i][j] <= 2 * b) by {
                assert forall|j: int| 0 <= j < n implies cell_ok(#[trigger] a[i][j]) && a[i][j]
                    <= 2 * b by {
                    assert(forall|k: int| #![auto]
                        0 <= k < column(g, j).len() ==> cell_ok(column(g, j)[k]) && column(g, j)[k]
                            <= b);
                    lemma_compress_ok(column(g, j), n, b);
                }
            }
        },
        Move::Down => {
            assert forall|i: int| 0 <= i < n implies #[trigger] a[i].len() == n && (forall|j: int|
                #![auto]
                0 <= j < a[i].len() ==> cell_ok(a[i][j]) && a[i][j] <= 2 * b) by {
                assert forall|j: int| 0 <= j < n implies cell_ok(#[trigger] a[i][j]) && a[i][j]
                    <= 2 * b by {
                    assert(forall|k: int| #![auto]
                        0 <= k < column(g, j).len() ==> cell_ok(column(g, j)[k]) && column(g, j)[k]
                            <= b);
                    lemma_compress_rev_ok(column(g, j), n, b);
                }
            }
        },
        Move::Dont => {
            assert(forall|i: int, j: int|
                0 <= i < a.len() && 0 <= j < a[i].len() ==> #[trigger] a[i][j] <= 2 * b);
        },
    }
}

/// A spawn leaves a well-formed grid well-formed: the one changed cell now
/// holds a 2 or a 4, both tiles.
pub proof fn lemma_spawn_step_wf(b: Seq<Seq<int>>, a: Seq<Seq<int>>, n: int)
    requires
        grid_wf(b, n),
        spawn_step(b, a),
    ensures
        grid_wf(a, n),
{
    assert(is_pow2(1));
    assert(is_pow2(2));
    assert(is_pow2(4)) by {
        assert(is_pow2(2));
    }
    let (r, c) = choose|r: int, c: int|
        {
            &&& 0 <= r < b.len()
            &&& 0 <= c < b[r].len()
            &&& #[trigger] b[r][c] == 0
            &&& (a[r][c] == 2 || a[r][c] == 4)
            &&& a =~= b.update(r, b[r].update(c, a[r][c]))
        };
    assert forall|i: int| 0 <= i < a.len() implies #[trigger] a[i].len() == n by {
        if i != r {
            assert(a[i] == b[i]);
        }
    }
    assert forall|i: int, j: int| 0 <= i < a.len() && 0 <= j < a[i].len() implies cell_ok(
        #[trigger] a[i][j],
    ) by {
        if i != r {
            assert(a[i] == b[i]);
        } else if j != c {
            assert(a[i][j] == b[i][j]);
        }
    }
}

/// A game whose grid model is well-formed has a square vector of vectors
/// behind it.
proof fn lemma_wf_board_lens(g: Game)
    requires
        grid_wf(g.grid(), g.size()),
    ensures
        g.board@.len() == g.board_size,
        forall|i: int| #![auto] 0 <= i < g.board@.len() ==> g.board@[i]@.len() == g.board_size,
{
    lemma_grid_view(g.board);
    assert forall|i: int| #![auto]
        0 <= i < g.board@.len() implies g.board@[i]@.len() == g.board_size by {
        assert(g.grid()[i] == line_int(g.board@[i]@));
        assert(g.grid()[i].len() == g.size());
    }
}

/// Relies on rand::random: draws a value from the thread-local generator.
/// Nothing is promised of the value that comes back.
#[verifier::external_body]
fn random_u64() -> u64 {
    rand::random::<u64>()
}

/// A cell-for-cell copy of one line.
fn copy_row(v: &Vec<usize>) -> (r: Vec<usize>)
    ensures
        r@ == v@,
{
    let mut r: Vec<usize> = Vec::new();
    let mut i: usize = 0;
    while i < v.len()
        invariant
            i <= v@.len(),
            r@.len() == i,
            forall|k: int| #![auto] 0 <= k < i ==> r@[k] == v@[k],
        decreases v@.len() - i,
    {
        r.push(v[i]);
        i += 1;
    }
    assert(r@ =~= v@);
    r
}

/// The line read back to front.
fn reverse_row(v: &Vec<usize>) -> (r: Vec<usize>)
    ensures
        r@ == v@.reverse(),
{
    let mut r: Vec<usize> = Vec::new();
    let mut i: usize = 0;
    while i < v.len()
        invariant
            i <= v@.len(),
            r@.len() == i,
            forall|k: int| #![auto] 0 <= k < i ==> r@[k] == v@[v@.len() - 1 - k],
        decreases v@.len() - i,
    {
        r.push(v[v.len() - 1 - i]);
        i += 1;
    }
    assert(r@ =~= v@.reverse());
    r
}

/// Whether two lines hold the same cells.
fn rows_equal(a: &Vec<usize>, b: &Vec<usize>) -> (r: bool)
    ensures
        r == (a@ == b@),
{
    if a.len() != b.len() {
        return false;
    }
    let mut i: usize = 0;
    while i < a.len()
        invariant
            i <= a@.len(),
            a@.len() == b@.len(),
            forall|k: int| #![auto] 0 <= k < i ==> a@[k] == b@[k],
        decreases a@.len() - i,
    {
        if a[i] != b[i] {
            return false;
        }
        i += 1;
    }
    proof {
        assert(a@ =~= b@);
    }
    true
}

/// Whether two boards hold the same cells everywhere.
fn grids_equal(a: &Vec<Vec<usize>>, b: &Vec<Vec<usize>>) -> (r: bool)
    ensures
        r == (grid_int(a.deep_view()) == grid_int(b.deep_view())),
{
    proof {
        lemma_grid_view(*a);
        lemma_grid_view(*b);
    }
    let ghost ga = grid_int(a.deep_view());
    let ghost gb = grid_int(b.deep_view());
    if a.len() != b.len() {
        proof {
            assert(ga.len() != gb.len());
        }
        return false;
    }
    let mut i: usize = 0;
    while i < a.len()
        invariant
            i <= a@.len(),
            a@.len() == b@.len(),
            ga == grid_int(a.deep_view()),
            gb == grid_int(b.deep_view()),
            ga.len() == a@.len(),
            gb.len() == b@.len(),
            forall|k: int| 0 <= k < a@.len() ==> #[trigger] ga[k] == line_int(a@[k]@),
            forall|k: int| 0 <= k < b@.len() ==> #[trigger] gb[k] == line_int(b@[k]@),
            forall|k: int| #![auto] 0 <= k < i ==> ga[k] == gb[k],
        decreases a@.len() - i,
    {
        let same = rows_equal(&a[i], &b[i]);
        proof {
            lemma_line_int_injective(a@[i as int]@, b@[i as int]@);
        }
        if !same {
            assert(ga[i as int] != gb[i as int]);
            return false;
        }
        i += 1;
    }
    proof {
        assert(ga =~= gb);
    }
    true
}

/// A cell-for-cell copy of the whole board.
fn copy_grid(b: &Vec<Vec<usize>>) -> (r: Vec<Vec<usize>>)
    ensures
        grid_int(r.deep_view()) == grid_int(b.deep_view()),
{
    proof {
        lemma_grid_view(*b);
    }
    let mut r: Vec<Vec<usize>> = Vec::new();
    let mut i: usize = 0;
    while i < b.len()
        invariant
            i <= b@.len(),
            r@.len() == i,
            forall|k: int| #![auto] 0 <= k < i ==> r@[k]@ == b@[k]@,
        decreases b@.len() - i,
    {
        let row = copy_row(&b[i]);
        r.push(row);
        i += 1;
    }
    proof {
        lemma_grid_view(r);
        assert(grid_int(r.deep_view()) =~= grid_int(b.deep_view()));
    }
    r
}

/// Whether `v` is a power of two.
fn is_pow2_exec(v: usize) -> (b: bool)
    ensures
        b == is_pow2(v as int),
    decreases v,
{
    if v == 0 {
        false
    } else if v == 1 {
        true
    } else if v % 2 == 1 {
        false
    } else {
        is_pow2_exec(v / 2)
    }
}

} // verus!
