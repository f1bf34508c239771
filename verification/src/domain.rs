//! The grid engine: an N x N matrix of tile ranks, owned exclusively by the
//! engine. A cell value of 0 means empty; a non-zero value is a rank `r`
//! standing for the displayed number 2^r. All mutation happens through
//! `shift`, `spawn` and `set`.

use vstd::prelude::*;
use crate::action::{
    act_in_col, act_in_col_rev, act_in_row, act_in_row_rev, Direction, LineAct, TileAction,
    TileActionKind,
};
use crate::line::{
    act_wf, compact_line, compact_to, count_nz, lemma_compact_line, lemma_count_nz_update,
    lemma_count_nz_zero, line_acts, rev,
};
use crate::rng::random_index;

verus! {

/// A grid whose rows all have the same length as the grid itself.
pub open spec fn square(g: Seq<Seq<u8>>) -> bool {
    forall|r: int| 0 <= r < g.len() ==> (#[trigger] g[r]).len() == g.len()
}

/// Column `c` of a grid, read top to bottom.
pub open spec fn col_of(g: Seq<Seq<u8>>, c: int) -> Seq<u8> {
    Seq::new(g.len(), |r: int| g[r][c])
}

/// The first `r` rows of a grid, flattened in row order.
pub open spec fn flat_upto(g: Seq<Seq<u8>>, r: int) -> Seq<u8>
    decreases r,
{
    if r <= 0 {
        Seq::<u8>::empty()
    } else {
        flat_upto(g, r - 1) + g[r - 1]
    }
}

/// All cells of a grid, flattened in row order.
pub open spec fn flat(g: Seq<Seq<u8>>) -> Seq<u8> {
    flat_upto(g, g.len() as int)
}

/// The grid after a shift in a direction: each row (for `Left`/`Right`) or
/// column (for `Up`/`Down`) is compacted toward the edge the direction points
/// to, by reversing the line before and after compaction where needed.
pub open spec fn shift_grid(g: Seq<Seq<u8>>, d: Direction) -> Seq<Seq<u8>> {
    match d {
        Direction::Left => Seq::new(g.len(), |r: int| compact_line(g[r])),
        Direction::Right => Seq::new(g.len(), |r: int| rev(compact_line(rev(g[r])))),
        Direction::Up => Seq::new(
            g.len(),
            |r: int| Seq::new(g.len(), |c: int| compact_line(col_of(g, c))[r]),
        ),
        Direction::Down => Seq::new(
            g.len(),
            |r: int| Seq::new(g.len(), |c: int| rev(compact_line(rev(col_of(g, c))))[r]),
        ),
    }
}

/// The actions line `k` (row or column, by direction) emits during a shift,
/// translated back into true grid coordinates.
pub open spec fn line_acts_of(g: Seq<Seq<u8>>, d: Direction, k: int) -> Seq<TileAction> {
    match d {
        Direction::Left => line_acts(g[k]).map_values(|a: LineAct| act_in_row(k, a)),
        Direction::Right => line_acts(rev(g[k])).map_values(
            |a: LineAct| act_in_row_rev(g.len() as int, k, a),
        ),
        Direction::Up => line_acts(col_of(g, k)).map_values(|a: LineAct| act_in_col(k, a)),
        Direction::Down => line_acts(rev(col_of(g, k))).map_values(
            |a: LineAct| act_in_col_rev(g.len() as int, k, a),
        ),
    }
}

/// The actions of the first `k` lines of a shift, lines in index order.
pub open spec fn acts_upto(g: Seq<Seq<u8>>, d: Direction, k: int) -> Seq<TileAction>
    decreases k,
{
    if k <= 0 {
        Seq::<TileAction>::empty()
    } else {
        acts_upto(g, d, k - 1) + line_acts_of(g, d, k - 1)
    }
}

/// All actions a shift emits: per line, lines in index order, within a line
/// in scan order.
pub open spec fn shift_actions(g: Seq<Seq<u8>>, d: Direction) -> Seq<TileAction> {
    acts_upto(g, d, g.len() as int)
}

/// Some cell of the grid is empty.
pub open spec fn has_empty(g: Seq<Seq<u8>>) -> bool {
    exists|r: int, c: int| 0 <= r < g.len() && 0 <= c < g[r].len() && g[r][c] == 0
}

/// Some vertically or horizontally adjacent pair of cells holds equal values.
pub open spec fn has_adjacent_equal(g: Seq<Seq<u8>>) -> bool {
    ||| exists|r: int, c: int|
        0 <= r < g.len() - 1 && 0 <= c < g.len() && #[trigger] g[r][c] == g[r + 1][c]
    ||| exists|r: int, c: int|
        0 <= r < g.len() && 0 <= c < g.len() - 1 && #[trigger] g[r][c] == g[r][c + 1]
}

/// How many tiles the first `r` rows of a grid hold.
pub open spec fn grid_nz_upto(g: Seq<Seq<u8>>, r: int) -> int
    decreases r,
{
    if r <= 0 {
        0
    } else {
        grid_nz_upto(g, r - 1) + count_nz(g[r - 1])
    }
}

/// How many tiles the grid holds: the number of non-zero cells.
pub open spec fn grid_nz(g: Seq<Seq<u8>>) -> int {
    grid_nz_upto(g, g.len() as int)
}

proof fn lemma_grid_nz_upto_row_diff(g: Seq<Seq<u8>>, g2: Seq<Seq<u8>>, r: int, k: int)
    requires
        g2.len() == g.len(),
        0 <= r < g.len(),
        forall|t: int| 0 <= t < g.len() && t != r ==> g2[t] == g[t],
        0 <= k <= g.len(),
    ensures
        grid_nz_upto(g2, k) == grid_nz_upto(g, k) + if r < k {
            count_nz(g2[r]) - count_nz(g[r])
        } else {
            0int
        },
    decreases k,
{
    if k > 0 {
        lemma_grid_nz_upto_row_diff(g, g2, r, k - 1);
    }
}

/// Overwriting one cell changes the grid's tile count by what leaves and
/// what arrives.
pub proof fn lemma_grid_nz_set(g: Seq<Seq<u8>>, r: int, c: int, v: u8)
    requires
        0 <= r < g.len(),
        0 <= c < g[r].len(),
    ensures
        grid_nz(g.update(r, g[r].update(c, v))) == grid_nz(g) - (if g[r][c] != 0 {
            1int
        } else {
            0int
        }) + (if v != 0 {
            1int
        } else {
            0int
        }),
{
    let g2 = g.update(r, g[r].update(c, v));
    lemma_count_nz_update(g[r], c, v);
    lemma_grid_nz_upto_row_diff(g, g2, r, g.len() as int);
}

proof fn lemma_grid_nz_upto_zero(g: Seq<Seq<u8>>, k: int)
    requires
        forall|r: int, c: int| 0 <= r < g.len() && 0 <= c < g[r].len() ==> g[r][c] == 0,
        0 <= k <= g.len(),
    ensures
        grid_nz_upto(g, k) == 0,
    decreases k,
{
    if k > 0 {
        lemma_grid_nz_upto_zero(g, k - 1);
        lemma_count_nz_zero(g[k - 1]);
    }
}

/// An all-empty grid holds no tile.
pub proof fn lemma_grid_nz_zero(g: Seq<Seq<u8>>)
    requires
        forall|r: int, c: int| 0 <= r < g.len() && 0 <= c < g[r].len() ==> g[r][c] == 0,
    ensures
        grid_nz(g) == 0,
{
    lemma_grid_nz_upto_zero(g, g.len() as int);
}

/// An implementation of 2048 the game: the N x N matrix of tile ranks.
#[derive(Clone, PartialEq, Eq, Debug)]
pub struct Board {
    n: usize,
    rows: Vec<Vec<u8>>,
}

impl View for Board {
    type V = Seq<Seq<u8>>;

    closed spec fn view(&self) -> Seq<Seq<u8>> {
        self.rows@.map_values(|r: Vec<u8>| r@)
    }
}

impl Board {
    /// The grid is a well-formed square matrix of its construction-time side.
    pub closed spec fn wf(&self) -> bool {
        &&& self.rows@.len() == self.n
        &&& forall|r: int| 0 <= r < self.rows@.len() ==> (#[trigger] self.rows@[r])@.len() == self.n
    }

    /// A well-formed board views as a square grid.
    pub proof fn lemma_wf(&self)
        requires
            self.wf(),
        ensures
            square(self@),
    {
    }

    /// Creates an empty 2048 board of side `n`: all cells zero.
    pub fn empty(n: usize) -> (b: Board)
        ensures
            b.wf(),
            b@.len() == n,
            square(b@),
            forall|r: int, c: int| 0 <= r < n && 0 <= c < n ==> b@[r][c] == 0,
    {
        let mut rows: Vec<Vec<u8>> = Vec::new();
        let mut r: usize = 0;
        while r < n
            invariant
                r <= n,
                rows@.len() == r,
                forall|k: int| 0 <= k < r ==> (#[trigger] rows@[k])@.len() == n,
                forall|k: int, c: int| 0 <= k < r && 0 <= c < n ==> rows@[k]@[c] == 0,
            decreases n - r,
        {
            let mut row: Vec<u8> = Vec::new();
            let mut c: usize = 0;
            while c < n
                invariant
                    c <= n,
                    row@.len() == c,
                    forall|k: int| 0 <= k < c ==> row@[k] == 0,
                decreases n - c,
            {
                row.push(0);
                c += 1;
            }
            rows.push(row);
            r += 1;
        }
        Board { n, rows }
    }

    /// Returns the size of the board's side.
    pub fn size(&self) -> (s: usize)
        requires
            self.wf(),
        ensures
            s == self@.len(),
    {
        self.n
    }

    /// Returns a value from the board.
    pub fn get(&self, row: usize, col: usize) -> (v: u8)
        requires
            self.wf(),
            row < self@.len(),
            col < self@.len(),
        ensures
            v == self@[row as int][col as int],
    {
        self.rows[row][col]
    }

    /// Sets a value on the board.
    pub fn set(&mut self, row: usize, col: usize, num: u8)
        requires
            old(self).wf(),
            row < old(self)@.len(),
            col < old(self)@.len(),
        ensures
            final(self).wf(),
            final(self)@ == old(self)@.update(
                row as int,
                old(self)@[row as int].update(col as int, num),
            ),
    {
        let n = self.n;
        let mut nr: Vec<u8> = Vec::new();
        let mut c: usize = 0;
        while c < n
            invariant
                self.rows@ == old(self).rows@,
                self.n == old(self).n,
                self.wf(),
                n == self.n,
                row < self.rows@.len(),
                c <= n,
                nr@.len() == c,
                forall|k: int| 0 <= k < c && k != col ==> nr@[k] == self.rows@[row as int]@[k],
                forall|k: int| 0 <= k < c && k == col ==> nr@[k] == num,
            decreases n - c,
        {
            let v: u8 = if c == col {
                num
            } else {
                self.rows[row][c]
            };
            nr.push(v);
            c += 1;
        }
        self.rows.set(row, nr);
        proof {
            assert(self@[row as int] =~= old(self)@[row as int].update(col as int, num));
            assert(self@ =~= old(self)@.update(
                row as int,
                old(self)@[row as int].update(col as int, num),
            ));
        }
    }

    /// Returns the board's numbers as one flat list, in row order.
    pub fn iter_numbers(&self) -> (nums: Vec<u8>)
        requires
            self.wf(),
        ensures
            nums@ == flat(self@),
    {
        let n = self.n;
        let mut nums: Vec<u8> = Vec::new();
        let mut r: usize = 0;
        while r < n
            invariant
                self.wf(),
                n == self.n,
                r <= n,
                nums@ == flat_upto(self@, r as int),
            decreases n - r,
        {
            let mut c: usize = 0;
            while c < n
                invariant
                    self.wf(),
                    n == self.n,
                    r < n,
                    c <= n,
                    nums@ == flat_upto(self@, r as int) + self@[r as int].subrange(0, c as int),
                decreases n - c,
            {
                nums.push(self.rows[r][c]);
                proof {
                    assert(nums@ =~= flat_upto(self@, r as int) + self@[r as int].subrange(
                        0,
                        c as int + 1,
                    ));
                }
                c += 1;
            }
            proof {
                assert(self@[r as int].subrange(0, n as int) =~= self@[r as int]);
                assert(nums@ =~= flat_upto(self@, r as int + 1));
            }
            r += 1;
        }
        nums
    }

    /// A copy of row `r` of the grid.
    fn row_vec(&self, r: usize) -> (v: Vec<u8>)
        requires
            self.wf(),
            r < self@.len(),
        ensures
            v@ == self@[r as int],
    {
        let n = self.n;
        let mut v: Vec<u8> = Vec::new();
        let mut c: usize = 0;
        while c < n
            invariant
                self.wf(),
                n == self.n,
                r < self@.len(),
                c <= n,
                v@.len() == c,
                forall|k: int| 0 <= k < c ==> v@[k] == self@[r as int][k],
            decreases n - c,
        {
            v.push(self.rows[r][c]);
            c += 1;
        }
        proof {
            assert(v@ =~= self@[r as int]);
        }
        v
    }

    /// A copy of column `c` of the grid, read top to bottom.
    fn col_vec(&self, c: usize) -> (v: Vec<u8>)
        requires
            self.wf(),
            c < self@.len(),
        ensures
            v@ == col_of(self@, c as int),
    {
        let n = self.n;
        let mut v: Vec<u8> = Vec::new();
        let mut r: usize = 0;
        while r < n
            invariant
                self.wf(),
                n == self.n,
                c < self@.len(),
                r <= n,
                v@.len() == r,
                forall|k: int| 0 <= k < r ==> v@[k] == self@[k][c as int],
            decreases n - r,
        {
            v.push(self.rows[r][c]);
            r += 1;
        }
        proof {
            assert(v@ =~= col_of(self@, c as int));
        }
        v
    }

    /// Writes a line of values back as column `c` of the grid.
    fn set_col(&mut self, c: usize, col: &Vec<u8>)
        requires
            old(self).wf(),
            c < old(self)@.len(),
            col@.len() == old(self)@.len(),
        ensures
            final(self).wf(),
            final(self)@.len() == old(self)@.len(),
            forall|r: int|
                0 <= r < old(self)@.len() ==> (#[trigger] final(self)@[r]).len()
                    == old(self)@[r].len(),
            forall|r: int| 0 <= r < old(self)@.len() ==> final(self)@[r][c as int] == col@[r],
            forall|r: int, j: int|
                0 <= r < old(self)@.len() && 0 <= j < old(self)@[r].len() && j != c
                    ==> final(self)@[r][j] == old(self)@[r][j],
    {
        let n = self.n;
        let mut r: usize = 0;
        while r < n
            invariant
                self.wf(),
                self.n == old(self).n,
                n == self.n,
                c < n,
                old(self)@.len() == n,
                col@.len() == n,
                r <= n,
                self@.len() == n,
                forall|k: int| 0 <= k < n ==> (#[trigger] self@[k]).len() == old(self)@[k].len(),
                forall|k: int| 0 <= k < r ==> self@[k][c as int] == col@[k],
                forall|k: int, j: int|
                    0 <= k < n && 0 <= j < old(self)@[k].len() && (k >= r || j != c) ==> self@[k][j]
                        == old(self)@[k][j],
            decreases n - r,
        {
            let ghost prev = *self;
            self.set(r, c, col[r]);
            proof {
                assert(self@.len() == self.rows@.len());
                assert(prev@.len() == prev.rows@.len());
                assert(self.n == prev.n);
            }
            r += 1;
        }
    }

    /// The same line of values, read in the opposite order.
    fn reversed(v: &Vec<u8>) -> (w: Vec<u8>)
        ensures
            w@ == rev(v@),
    {
        let n = v.len();
        let mut w: Vec<u8> = Vec::new();
        let mut i: usize = 0;
        while i < n
            invariant
                n == v@.len(),
                i <= n,
                w@.len() == i,
                forall|k: int| 0 <= k < i ==> w@[k] == v@[n - 1 - k],
            decreases n - i,
        {
            w.push(v[n - 1 - i]);
            i += 1;
        }
        proof {
            assert(w@ =~= rev(v@));
        }
        w
    }

    /// Shifts every row toward column 0.
    fn shift_left(&mut self) -> (acts: Vec<TileAction>)
        requires
            old(self).wf(),
        ensures
            final(self).wf(),
            final(self)@ == shift_grid(old(self)@, Direction::Left),
            acts@ == shift_actions(old(self)@, Direction::Left),
    {
        let ghost g0 = old(self)@;
        let n = self.n;
        let mut acts: Vec<TileAction> = Vec::new();
        let mut k: usize = 0;
        while k < n
            invariant
                self.wf(),
                self.n == old(self).n,
                n == self.n,
                g0 == old(self)@,
                g0.len() == n,
                square(g0),
                k <= n,
                self@.len() == n,
                forall|r: int| 0 <= r < k ==> self@[r] == compact_line(g0[r]),
                forall|r: int| k <= r < n ==> self@[r] == g0[r],
                acts@ == acts_upto(g0, Direction::Left, k as int),
            decreases n - k,
        {
            let ghost prev = self@;
            let mut line = self.row_vec(k);
            let mut la = Board::shift_nums_left(&mut line, k);
            proof {
                lemma_compact_line(g0[k as int]);
            }
            self.rows.set(k, line);
            acts.append(&mut la);
            proof {
                assert(self@ =~= prev.update(k as int, compact_line(g0[k as int])));
                assert(acts@ =~= acts_upto(g0, Direction::Left, k as int + 1));
            }
            k += 1;
        }
        proof {
            assert(self@ =~= shift_grid(g0, Direction::Left));
        }
        acts
    }

    /// Shifts every row toward the last column.
    fn shift_right(&mut self) -> (acts: Vec<TileAction>)
        requires
            old(self).wf(),
        ensures
            final(self).wf(),
            final(self)@ == shift_grid(old(self)@, Direction::Right),
            acts@ == shift_actions(old(self)@, Direction::Right),
    {
        let ghost g0 = old(self)@;
        let n = self.n;
        let mut acts: Vec<TileAction> = Vec::new();
        let mut k: usize = 0;
        while k < n
            invariant
                self.wf(),
                self.n == old(self).n,
                n == self.n,
                g0 == old(self)@,
                g0.len() == n,
                square(g0),
                k <= n,
                self@.len() == n,
                forall|r: int| 0 <= r < k ==> self@[r] == rev(compact_line(rev(g0[r]))),
                forall|r: int| k <= r < n ==> self@[r] == g0[r],
                acts@ == acts_upto(g0, Direction::Right, k as int),
            decreases n - k,
        {
            let ghost prev = self@;
            let rv = self.row_vec(k);
            let mut line = Board::reversed(&rv);
            let la = Board::shift_nums_left(&mut line, k);
            proof {
                lemma_compact_line(rev(g0[k as int]));
            }
            let wb = Board::reversed(&line);
            self.rows.set(k, wb);
            let ghost lacts = line_acts(rev(g0[k as int]));
            let ghost done = acts_upto(g0, Direction::Right, k as int);
            let mut q: usize = 0;
            while q < la.len()
                invariant
                    n == g0.len(),
                    square(g0),
                    k < n,
                    lacts == line_acts(rev(g0[k as int])),
                    la@ == lacts.map_values(|a: LineAct| act_in_row(k as int, a)),
                    forall|t: int|
                        0 <= t < lacts.len() ==> act_wf(
                            rev(g0[k as int]),
                            n as int,
                            #[trigger] lacts[t],
                        ),
                    q <= la@.len(),
                    acts@ == done + lacts.map_values(
                        |a: LineAct| act_in_row_rev(n as int, k as int, a),
                    ).take(q as int),
                decreases la@.len() - q,
            {
                let a = la[q];
                proof {
                    assert(la@[q as int] == act_in_row(k as int, lacts[q as int]));
                }
                acts.push(
                    TileAction {
                        kind: a.kind,
                        value: a.value,
                        from: (a.from.0, n - 1 - a.from.1),
                        to: (a.to.0, n - 1 - a.to.1),
                    },
                );
                proof {
                    assert(acts@ =~= done + lacts.map_values(
                        |a: LineAct| act_in_row_rev(n as int, k as int, a),
                    ).take(q as int + 1));
                }
                q += 1;
            }
            proof {
                let tr = lacts.map_values(|a: LineAct| act_in_row_rev(n as int, k as int, a));
                assert(tr.take(tr.len() as int) =~= tr);
                assert(acts@ =~= acts_upto(g0, Direction::Right, k as int + 1));
                assert(self@ =~= prev.update(k as int, rev(compact_line(rev(g0[k as int])))));
            }
            k += 1;
        }
        proof {
            assert(self@ =~= shift_grid(g0, Direction::Right));
        }
        acts
    }

    /// Shifts every column toward row 0.
    fn shift_up(&mut self) -> (acts: Vec<TileAction>)
        requires
            old(self).wf(),
        ensures
            final(self).wf(),
            final(self)@ == shift_grid(old(self)@, Direction::Up),
            acts@ == shift_actions(old(self)@, Direction::Up),
    {
        let ghost g0 = old(self)@;
        let n = self.n;
        let mut acts: Vec<TileAction> = Vec::new();
        let mut k: usize = 0;
        while k < n
            invariant
                self.wf(),
                self.n == old(self).n,
                n == self.n,
                g0 == old(self)@,
                g0.len() == n,
                square(g0),
                k <= n,
                self@.len() == n,
                forall|r: int| 0 <= r < n ==> (#[trigger] self@[r]).len() == n,
                forall|c: int| 0 <= c < k ==> col_of(self@, c) == compact_line(col_of(g0, c)),
                forall|c: int| k <= c < n ==> col_of(self@, c) == col_of(g0, c),
                acts@ == acts_upto(g0, Direction::Up, k as int),
            decreases n - k,
        {
            let ghost prev = self@;
            let mut line = self.col_vec(k);
            proof {
                assert(line@ == col_of(g0, k as int));
            }
            let la = Board::shift_nums_left(&mut line, k);
            proof {
                lemma_compact_line(col_of(g0, k as int));
            }
            self.set_col(k, &line);
            let ghost lacts = line_acts(col_of(g0, k as int));
            let ghost done = acts_upto(g0, Direction::Up, k as int);
            let mut q: usize = 0;
            while q < la.len()
                invariant
                    n == g0.len(),
                    k < n,
                    lacts == line_acts(col_of(g0, k as int)),
                    la@ == lacts.map_values(|a: LineAct| act_in_row(k as int, a)),
                    q <= la@.len(),
                    acts@ == done + lacts.map_values(|a: LineAct| act_in_col(k as int, a)).take(
                        q as int,
                    ),
                decreases la@.len() - q,
            {
                let a = la[q];
                proof {
                    assert(la@[q as int] == act_in_row(k as int, lacts[q as int]));
                }
                acts.push(
                    TileAction {
                        kind: a.kind,
                        value: a.value,
                        from: (a.from.1, a.from.0),
                        to: (a.to.1, a.to.0),
                    },
                );
                proof {
                    assert(acts@ =~= done + lacts.map_values(
                        |a: LineAct| act_in_col(k as int, a),
                    ).take(q as int + 1));
                }
                q += 1;
            }
            proof {
                let tr = lacts.map_values(|a: LineAct| act_in_col(k as int, a));
                assert(tr.take(tr.len() as int) =~= tr);
                assert(acts@ =~= acts_upto(g0, Direction::Up, k as int + 1));
                assert forall|c: int| 0 <= c < k as int + 1 implies col_of(self@, c)
                    == compact_line(col_of(g0, c)) by {
                    if c == k as int {
                        assert(col_of(self@, c) =~= line@);
                    } else {
                        assert(col_of(self@, c) =~= col_of(prev, c));
                    }
                }
                assert forall|c: int| k as int + 1 <= c < n implies col_of(self@, c) == col_of(
                    g0,
                    c,
                ) by {
                    assert(col_of(self@, c) =~= col_of(prev, c));
                }
            }
            k += 1;
        }
        proof {
            assert forall|r: int| 0 <= r < n implies self@[r] == shift_grid(
                g0,
                Direction::Up,
            )[r] by {
                assert forall|c: int| 0 <= c < n implies self@[r][c] == compact_line(
                    col_of(g0, c),
                )[r] by {
                    assert(col_of(self@, c)[r] == self@[r][c]);
                }
                assert(self@[r] =~= shift_grid(g0, Direction::Up)[r]);
            }
            assert(self@ =~= shift_grid(g0, Direction::Up));
        }
        acts
    }

    /// Shifts every column toward the last row.
    fn shift_down(&mut self) -> (acts: Vec<TileAction>)
        requires
            old(self).wf(),
        ensures
            final(self).wf(),
            final(self)@ == shift_grid(old(self)@, Direction::Down),
            acts@ == shift_actions(old(self)@, Direction::Down),
    {
        let ghost g0 = old(self)@;
        let n = self.n;
        let mut acts: Vec<TileAction> = Vec::new();
        let mut k: usize = 0;
        while k < n
            invariant
                self.wf(),
                self.n == old(self).n,
                n == self.n,
                g0 == old(self)@,
                g0.len() == n,
                square(g0),
                k <= n,
                self@.len() == n,
                forall|r: int| 0 <= r < n ==> (#[trigger] self@[r]).len() == n,
                forall|c: int|
                    0 <= c < k ==> col_of(self@, c) == rev(compact_line(rev(col_of(g0, c)))),
                forall|c: int| k <= c < n ==> col_of(self@, c) == col_of(g0, c),
                acts@ == acts_upto(g0, Direction::Down, k as int),
            decreases n - k,
        {
            let ghost prev = self@;
            let cv = self.col_vec(k);
            proof {
                assert(cv@ == col_of(g0, k as int));
            }
            let mut line = Board::reversed(&cv);
            let la = Board::shift_nums_left(&mut line, k);
            proof {
                lemma_compact_line(rev(col_of(g0, k as int)));
            }
            let wb = Board::reversed(&line);
            self.set_col(k, &wb);
            let ghost lacts = line_acts(rev(col_of(g0, k as int)));
            let ghost done = acts_upto(g0, Direction::Down, k as int);
            let mut q: usize = 0;
            while q < la.len()
                invariant
                    n == g0.len(),
                    k < n,
                    lacts == line_acts(rev(col_of(g0, k as int))),
                    la@ == lacts.map_values(|a: LineAct| act_in_row(k as int, a)),
                    forall|t: int|
                        0 <= t < lacts.len() ==> act_wf(
                            rev(col_of(g0, k as int)),
                            n as int,
                            #[trigger] lacts[t],
                        ),
                    q <= la@.len(),
                    acts@ == done + lacts.map_values(
                        |a: LineAct| act_in_col_rev(n as int, k as int, a),
                    ).take(q as int),
                decreases la@.len() - q,
            {
                let a = la[q];
                proof {
                    assert(la@[q as int] == act_in_row(k as int, lacts[q as int]));
                }
                acts.push(
                    TileAction {
                        kind: a.kind,
                        value: a.value,
                        from: (n - 1 - a.from.1, a.from.0),
                        to: (n - 1 - a.to.1, a.to.0),
                    },
                );
                proof {
                    assert(acts@ =~= done + lacts.map_values(
                        |a: LineAct| act_in_col_rev(n as int, k as int, a),
                    ).take(q as int + 1));
                }
                q += 1;
            }
            proof {
                let tr = lacts.map_values(|a: LineAct| act_in_col_rev(n as int, k as int, a));
                assert(tr.take(tr.len() as int) =~= tr);
                assert(acts@ =~= acts_upto(g0, Direction::Down, k as int + 1));
                assert forall|c: int| 0 <= c < k as int + 1 implies col_of(self@, c) == rev(
                    compact_line(rev(col_of(g0, c))),
                ) by {
                    if c == k as int {
                        assert(col_of(self@, c) =~= wb@);
                    } else {
                        assert(col_of(self@, c) =~= col_of(prev, c));
                    }
                }
                assert forall|c: int| k as int + 1 <= c < n implies col_of(self@, c) == col_of(
                    g0,
                    c,
                ) by {
                    assert(col_of(self@, c) =~= col_of(prev, c));
                }
            }
            k += 1;
        }
        proof {
            assert forall|r: int| 0 <= r < n implies self@[r] == shift_grid(
                g0,
                Direction::Down,
            )[r] by {
                assert forall|c: int| 0 <= c < n implies self@[r][c] == rev(
                    compact_line(rev(col_of(g0, c))),
                )[r] by {
                    assert(col_of(self@, c)[r] == self@[r][c]);
                }
                assert(self@[r] =~= shift_grid(g0, Direction::Down)[r]);
            }
            assert(self@ =~= shift_grid(g0, Direction::Down));
        }
        acts
    }

    /// Moves values on the board to given `direction` and returns the
    /// [`TileAction`]s that were taken to update the board: per line, lines
    /// in index order, within a line in scan order. An empty action list
    /// means the direction was a no-op and the grid is unchanged.
    pub fn shift(&mut self, direction: Direction) -> (acts: Vec<TileAction>)
        requires
            old(self).wf(),
        ensures
            final(self).wf(),
            final(self)@ == shift_grid(old(self)@, direction),
            acts@ == shift_actions(old(self)@, direction),
    {
        match direction {
            Direction::Left => self.shift_left(),
            Direction::Right => self.shift_right(),
            Direction::Up => self.shift_up(),
            Direction::Down => self.shift_down(),
        }
    }

    /// Tries to add a rank-1 or rank-2 tile (displayed 2 or 4) on a random
    /// empty cell. Returns the spawned rank and its coordinates on success,
    /// and `None` exactly when the grid is completely full — the normal
    /// end-of-growth signal, not a fault.
    pub fn spawn(&mut self) -> (res: Option<(u8, (usize, usize))>)
        requires
            old(self).wf(),
        ensures
            final(self).wf(),
            final(self)@.len() == old(self)@.len(),
            res is None <==> !has_empty(old(self)@),
            res is None ==> final(self)@ == old(self)@,
            res matches Some((num, coord)) ==> {
                &&& coord.0 < old(self)@.len()
                &&& coord.1 < old(self)@[coord.0 as int].len()
                &&& old(self)@[coord.0 as int][coord.1 as int] == 0
                &&& (num == 1 || num == 2)
                &&& final(self)@ == old(self)@.update(
                    coord.0 as int,
                    old(self)@[coord.0 as int].update(coord.1 as int, num),
                )
            },
    {
        let n = self.n;
        let mut empties: Vec<(usize, usize)> = Vec::new();
        let mut r: usize = 0;
        while r < n
            invariant
                self.wf(),
                self.rows@ == old(self).rows@,
                self.n == old(self).n,
                n == self.n,
                self@.len() == n,
                r <= n,
                forall|t: int|
                    0 <= t < empties@.len() ==> {
                        let e = #[trigger] empties@[t];
                        e.0 < n && e.1 < n && self@[e.0 as int][e.1 as int] == 0
                    },
                empties@.len() == 0 ==> forall|a: int, b: int|
                    0 <= a < r && 0 <= b < n ==> self@[a][b] != 0,
            decreases n - r,
        {
            let mut c: usize = 0;
            while c < n
                invariant
                    self.wf(),
                    self.rows@ == old(self).rows@,
                    self.n == old(self).n,
                    n == self.n,
                    self@.len() == n,
                    r < n,
                    c <= n,
                    forall|t: int|
                        0 <= t < empties@.len() ==> {
                            let e = #[trigger] empties@[t];
                            e.0 < n && e.1 < n && self@[e.0 as int][e.1 as int] == 0
                        },
                    empties@.len() == 0 ==> forall|a: int, b: int|
                        0 <= a < r && 0 <= b < n ==> self@[a][b] != 0,
                    empties@.len() == 0 ==> forall|b: int| 0 <= b < c ==> self@[r as int][b] != 0,
                decreases n - c,
            {
                if self.rows[r][c] == 0 {
                    empties.push((r, c));
                }
                c += 1;
            }
            r += 1;
        }
        if empties.len() == 0 {
            proof {
                assert(forall|a: int|
                    0 <= a < self@.len() ==> (#[trigger] self@[a]).len() == n);
                assert(!has_empty(old(self)@));
            }
            return None;
        }
        let idx = random_index(empties.len());
        let e = empties[idx];
        let num: u8 = if random_index(10) < 9 {
            1
        } else {
            2
        };
        self.set(e.0, e.1, num);
        Some((num, (e.0, e.1)))
    }

    /// Returns `true` if the board can be shifted in some direction: some
    /// cell is empty, or some vertically or horizontally adjacent pair of
    /// cells holds equal values. When this returns `false` the game is over:
    /// no further shift can change the grid.
    pub fn is_shiftable(&self) -> (res: bool)
        requires
            self.wf(),
        ensures
            res <==> (has_empty(self@) || has_adjacent_equal(self@)),
    {
        let ghost g = self@;
        let n = self.n;
        if n == 0 {
            return false;
        }
        if self.rows[0][0] == 0 {
            proof {
                assert(square(g));
                assert(g[0][0] == 0);
                assert(has_empty(g));
            }
            return true;
        }
        let mut i: usize = 0;
        while i < n - 1
            invariant
                self.wf(),
                n == self.n,
                g == self@,
                1 <= n,
                g.len() == n,
                square(g),
                i <= n - 1,
                forall|a: int, b: int|
                    0 <= a < i && 0 <= b < n ==> g[a][b] != #[trigger] g[a + 1][b] && g[a + 1][b]
                        != 0,
                forall|a: int, b: int|
                    0 <= a < i && 0 <= b < n ==> g[b][a] != #[trigger] g[b][a + 1] && g[b][a + 1]
                        != 0,
            decreases n - 1 - i,
        {
            let mut j: usize = 0;
            while j < n
                invariant
                    self.wf(),
                    n == self.n,
                    g == self@,
                    1 <= n,
                    g.len() == n,
                    square(g),
                    i < n - 1,
                    j <= n,
                    forall|a: int, b: int|
                        0 <= a < i && 0 <= b < n ==> g[a][b] != #[trigger] g[a + 1][b] && g[a
                            + 1][b] != 0,
                    forall|a: int, b: int|
                        0 <= a < i && 0 <= b < n ==> g[b][a] != #[trigger] g[b][a + 1] && g[b][a
                            + 1] != 0,
                    forall|b: int|
                        0 <= b < j ==> g[i as int][b] != #[trigger] g[i as int + 1][b] && g[i as int
                            + 1][b] != 0,
                    forall|b: int|
                        0 <= b < j ==> g[b][i as int] != #[trigger] g[b][i as int + 1] && g[b][i
                            as int + 1] != 0,
                decreases n - j,
            {
                let it = self.rows[i][j];
                let down = self.rows[i + 1][j];
                if down == 0 || it == down {
                    proof {
                        assert(it == g[i as int][j as int]);
                        assert(down == g[i as int + 1][j as int]);
                        if down == 0 {
                            assert(has_empty(g));
                        } else {
                            assert(has_adjacent_equal(g));
                        }
                    }
                    return true;
                }
                let it2 = self.rows[j][i];
                let right = self.rows[j][i + 1];
                if right == 0 || it2 == right {
                    proof {
                        assert(it2 == g[j as int][i as int]);
                        assert(right == g[j as int][i as int + 1]);
                        if right == 0 {
                            assert(has_empty(g));
                        } else {
                            assert(has_adjacent_equal(g));
                        }
                    }
                    return true;
                }
                j += 1;
            }
            i += 1;
        }
        proof {
            assert forall|r: int, c: int| 0 <= r < n && 0 <= c < n implies g[r][c] != 0 by {
                if r > 0 {
                    assert(g[(r - 1) + 1][c] != 0);
                } else if c > 0 {
                    assert(g[0][(c - 1) + 1] != 0);
                }
            }
        }
        false
    }

    /// Creates a new 2048 board of side `n` (at least 2) and spawns two
    /// numbers on it.
    pub fn new(n: usize) -> (b: Board)
        requires
            2 <= n,
        ensures
            b.wf(),
            b@.len() == n,
            square(b@),
            grid_nz(b@) == 2,
            forall|r: int, c: int| 0 <= r < n && 0 <= c < n ==> b@[r][c] <= 2,
    {
        let mut board = Board::empty(n);
        proof {
            lemma_grid_nz_zero(board@);
        }
        let ghost ga = board@;
        let s1 = board.spawn();
        proof {
            assert(ga[0][0] == 0);
            assert(has_empty(ga));
            let (n1, c1) = s1->Some_0;
            lemma_grid_nz_set(ga, c1.0 as int, c1.1 as int, n1);
            assert(grid_nz(board@) == 1);
            if c1.0 == 0 && c1.1 == 0 {
                assert(board@[0][1] == 0);
            } else {
                assert(board@[0][0] == 0);
            }
            assert(has_empty(board@));
        }
        let ghost gb = board@;
        let s2 = board.spawn();
        proof {
            let (n2, c2) = s2->Some_0;
            lemma_grid_nz_set(gb, c2.0 as int, c2.1 as int, n2);
            assert(grid_nz(board@) == 2);
        }
        board
    }

    /// In the given line of values, shifts values toward index 0 by 2048
    /// rules, reporting each action with `row_idx` as the row coordinate.
    pub fn shift_nums_left(row: &mut Vec<u8>, row_idx: usize) -> (acts: Vec<TileAction>)
        ensures
            final(row)@ == compact_line(old(row)@),
            acts@ == line_acts(old(row)@).map_values(|a: LineAct| act_in_row(row_idx as int, a)),
    {
        let ghost line0 = row@;
        let n = row.len();
        let mut acts: Vec<TileAction> = Vec::new();
        let mut i: usize = 0;
        let mut j: usize = 1;
        while j < n
            invariant
                n == row@.len(),
                n == line0.len(),
                1 <= j,
                j <= n || j == 1,
                i < j,
                row@ == compact_to(line0, j as int).0,
                i as int == compact_to(line0, j as int).1,
                acts@ == compact_to(line0, j as int).2.map_values(
                    |a: LineAct| act_in_row(row_idx as int, a),
                ),
            decreases n - j,
        {
            if row[j] != 0 {
                if row[i] == 0 {
                    let v = row[j];
                    acts.push(TileAction {
                        kind: TileActionKind::Move,
                        value: v,
                        from: (row_idx, j),
                        to: (row_idx, i),
                    });
                    row.set(i, v);
                    row.set(j, 0);
                } else if row[j] == row[i] {
                    let v = row[i];
                    let nv: u8 = if v == 255 {
                        255
                    } else {
                        v + 1
                    };
                    row.set(i, nv);
                    acts.push(TileAction {
                        kind: TileActionKind::Merge,
                        value: nv,
                        from: (row_idx, j),
                        to: (row_idx, i),
                    });
                    row.set(j, 0);
                    i += 1;
                } else {
                    i += 1;
                    if i != j {
                        let v = row[j];
                        acts.push(TileAction {
                            kind: TileActionKind::Move,
                            value: v,
                            from: (row_idx, j),
                            to: (row_idx, i),
                        });
                        row.set(i, v);
                        row.set(j, 0);
                    }
                }
            }
            proof {
                assert(row@ =~= compact_to(line0, j as int + 1).0);
                assert(acts@ =~= compact_to(line0, j as int + 1).2.map_values(
                    |a: LineAct| act_in_row(row_idx as int, a),
                ));
            }
            j += 1;
        }
        acts
    }
}

} // verus!
