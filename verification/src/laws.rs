//! The engine's laws: what holds of every shift and spawn, proved once and
//! for all over the grid model.

use vstd::prelude::*;
use crate::action::{
    act_in_col, act_in_col_rev, act_in_row, act_in_row_rev, Direction, LineAct, TileAction,
};
use crate::domain::{
    acts_upto, col_of, grid_nz, grid_nz_upto, line_acts_of, shift_actions, shift_grid, square,
};
use crate::line::{
    act_wf, compact_line, count_nz, fully_compacted, lemma_compact_line, lemma_compact_zero,
    lemma_count_nz_first, lemma_count_nz_rev, lemma_fully_compacted, lemma_no_acts, line_acts,
    merge_count, rev, sat_inc,
};

verus! {

/// Reading a line twice in the opposite order gives the line back.
pub proof fn lemma_rev_rev(l: Seq<u8>)
    ensures
        rev(rev(l)) == l,
{
    assert(rev(rev(l)) =~= l);
}

proof fn lemma_acts_upto_empty(g: Seq<Seq<u8>>, d: Direction, k: int)
    requires
        0 <= k,
        forall|t: int| 0 <= t < k ==> line_acts_of(g, d, t).len() == 0,
    ensures
        acts_upto(g, d, k).len() == 0,
    decreases k,
{
    if k > 0 {
        lemma_acts_upto_empty(g, d, k - 1);
    }
}

proof fn lemma_acts_upto_line(g: Seq<Seq<u8>>, d: Direction, k: int, t: int)
    requires
        0 <= t < k,
        acts_upto(g, d, k).len() == 0,
    ensures
        line_acts_of(g, d, t).len() == 0,
    decreases k,
{
    if t < k - 1 {
        lemma_acts_upto_line(g, d, k - 1, t);
    }
}

/// Shifting an all-empty grid in any direction yields an empty action list
/// and leaves the grid unchanged.
pub proof fn lemma_shift_empty_grid(g: Seq<Seq<u8>>, d: Direction)
    requires
        square(g),
        forall|r: int, c: int| 0 <= r < g.len() && 0 <= c < g.len() ==> g[r][c] == 0,
    ensures
        shift_grid(g, d) == g,
        shift_actions(g, d) == Seq::<TileAction>::empty(),
{
    let n = g.len() as int;
    assert forall|t: int| 0 <= t < n implies line_acts_of(g, d, t).len() == 0 by {
        match d {
            Direction::Left => {
                lemma_compact_zero(g[t]);
            },
            Direction::Right => {
                lemma_compact_zero(rev(g[t]));
            },
            Direction::Up => {
                lemma_compact_zero(col_of(g, t));
            },
            Direction::Down => {
                lemma_compact_zero(rev(col_of(g, t)));
            },
        }
    }
    lemma_acts_upto_empty(g, d, n);
    assert(shift_actions(g, d) =~= Seq::<TileAction>::empty());
    assert forall|r: int| 0 <= r < n implies shift_grid(g, d)[r] == g[r] by {
        match d {
            Direction::Left => {
                lemma_compact_zero(g[r]);
            },
            Direction::Right => {
                lemma_compact_zero(rev(g[r]));
                lemma_rev_rev(g[r]);
            },
            Direction::Up => {
                assert forall|c: int| 0 <= c < n implies shift_grid(g, d)[r][c] == g[r][c] by {
                    lemma_compact_zero(col_of(g, c));
                    assert(compact_line(col_of(g, c))[r] == col_of(g, c)[r]);
                }
                assert(shift_grid(g, d)[r] =~= g[r]);
            },
            Direction::Down => {
                assert forall|c: int| 0 <= c < n implies shift_grid(g, d)[r][c] == g[r][c] by {
                    lemma_compact_zero(rev(col_of(g, c)));
                    lemma_rev_rev(col_of(g, c));
                    assert(rev(compact_line(rev(col_of(g, c))))[r] == col_of(g, c)[r]);
                }
                assert(shift_grid(g, d)[r] =~= g[r]);
            },
        }
    }
    assert(shift_grid(g, d) =~= g);
}

/// Once every line of the grid is fully compacted for a direction, a shift
/// in that direction emits no actions and leaves the grid unchanged: of two
/// consecutive shifts the same way, the second is a no-op as soon as the
/// first has fully compacted each line.
pub proof fn lemma_shift_compacted(g: Seq<Seq<u8>>, d: Direction)
    requires
        square(g),
        forall|t: int|
            0 <= t < g.len() ==> fully_compacted(
                match d {
                    Direction::Left => g[t],
                    Direction::Right => rev(g[t]),
                    Direction::Up => col_of(g, t),
                    Direction::Down => rev(col_of(g, t)),
                },
            ),
    ensures
        shift_grid(g, d) == g,
        shift_actions(g, d) == Seq::<TileAction>::empty(),
{
    let n = g.len() as int;
    assert forall|t: int| 0 <= t < n implies line_acts_of(g, d, t).len() == 0 by {
        match d {
            Direction::Left => {
                lemma_fully_compacted(g[t]);
            },
            Direction::Right => {
                lemma_fully_compacted(rev(g[t]));
            },
            Direction::Up => {
                lemma_fully_compacted(col_of(g, t));
            },
            Direction::Down => {
                lemma_fully_compacted(rev(col_of(g, t)));
            },
        }
    }
    lemma_acts_upto_empty(g, d, n);
    assert(shift_actions(g, d) =~= Seq::<TileAction>::empty());
    assert forall|r: int| 0 <= r < n implies shift_grid(g, d)[r] == g[r] by {
        match d {
            Direction::Left => {
                lemma_fully_compacted(g[r]);
            },
            Direction::Right => {
                lemma_fully_compacted(rev(g[r]));
                lemma_rev_rev(g[r]);
            },
            Direction::Up => {
                assert forall|c: int| 0 <= c < n implies shift_grid(g, d)[r][c] == g[r][c] by {
                    lemma_fully_compacted(col_of(g, c));
                    assert(compact_line(col_of(g, c))[r] == col_of(g, c)[r]);
                }
                assert(shift_grid(g, d)[r] =~= g[r]);
            },
            Direction::Down => {
                assert forall|c: int| 0 <= c < n implies shift_grid(g, d)[r][c] == g[r][c] by {
                    lemma_fully_compacted(rev(col_of(g, c)));
                    lemma_rev_rev(col_of(g, c));
                    assert(rev(compact_line(rev(col_of(g, c))))[r] == col_of(g, c)[r]);
                }
                assert(shift_grid(g, d)[r] =~= g[r]);
            },
        }
    }
    assert(shift_grid(g, d) =~= g);
}

/// A shift that emits no actions leaves the grid unchanged: an empty action
/// list is the no-op signal, and the caller may skip spawning after it.
pub proof fn lemma_noop_shift(g: Seq<Seq<u8>>, d: Direction)
    requires
        square(g),
        shift_actions(g, d).len() == 0,
    ensures
        shift_grid(g, d) == g,
{
    let n = g.len() as int;
    assert forall|r: int| 0 <= r < n implies shift_grid(g, d)[r] == g[r] by {
        match d {
            Direction::Left => {
                lemma_acts_upto_line(g, d, n, r);
                assert(line_acts(g[r]).len() == 0);
                lemma_no_acts(g[r]);
            },
            Direction::Right => {
                lemma_acts_upto_line(g, d, n, r);
                assert(line_acts(rev(g[r])).len() == 0);
                lemma_no_acts(rev(g[r]));
                lemma_rev_rev(g[r]);
            },
            Direction::Up => {
                assert forall|c: int| 0 <= c < n implies shift_grid(g, d)[r][c] == g[r][c] by {
                    lemma_acts_upto_line(g, d, n, c);
                    assert(line_acts(col_of(g, c)).len() == 0);
                    lemma_no_acts(col_of(g, c));
                    assert(compact_line(col_of(g, c))[r] == col_of(g, c)[r]);
                }
                assert(shift_grid(g, d)[r] =~= g[r]);
            },
            Direction::Down => {
                assert forall|c: int| 0 <= c < n implies shift_grid(g, d)[r][c] == g[r][c] by {
                    lemma_acts_upto_line(g, d, n, c);
                    assert(line_acts(rev(col_of(g, c))).len() == 0);
                    lemma_no_acts(rev(col_of(g, c)));
                    lemma_rev_rev(col_of(g, c));
                    assert(rev(compact_line(rev(col_of(g, c))))[r] == col_of(g, c)[r]);
                }
                assert(shift_grid(g, d)[r] =~= g[r]);
            },
        }
    }
    assert(shift_grid(g, d) =~= g);
}

proof fn lemma_act_decompose(g: Seq<Seq<u8>>, d: Direction, m: int, k: int)
    requires
        0 <= m,
        0 <= k < acts_upto(g, d, m).len(),
    ensures
        exists|t: int, o: int|
            #![auto]
            0 <= t < m && 0 <= o < line_acts_of(g, d, t).len() && acts_upto(g, d, m)[k]
                == line_acts_of(g, d, t)[o],
    decreases m,
{
    if m > 0 {
        let pre = acts_upto(g, d, m - 1);
        if k < pre.len() {
            lemma_act_decompose(g, d, m - 1, k);
            let (t, o) = choose|t: int, o: int|
                #![auto]
                0 <= t < m - 1 && 0 <= o < line_acts_of(g, d, t).len() && acts_upto(g, d, m - 1)[k]
                    == line_acts_of(g, d, t)[o];
            assert(acts_upto(g, d, m)[k] == line_acts_of(g, d, t)[o]);
        } else {
            let o = k - pre.len();
            assert(acts_upto(g, d, m)[k] == line_acts_of(g, d, m - 1)[o]);
        }
    }
}

proof fn lemma_act_decompose2(g: Seq<Seq<u8>>, d: Direction, m: int, k1: int, k2: int)
    requires
        0 <= m,
        0 <= k1 < k2 < acts_upto(g, d, m).len(),
    ensures
        exists|t1: int, o1: int, t2: int, o2: int|
            #![auto]
            0 <= t1 <= t2 < m && 0 <= o1 < line_acts_of(g, d, t1).len() && 0 <= o2 < line_acts_of(
                g,
                d,
                t2,
            ).len() && acts_upto(g, d, m)[k1] == line_acts_of(g, d, t1)[o1] && acts_upto(
                g,
                d,
                m,
            )[k2] == line_acts_of(g, d, t2)[o2] && (t1 == t2 ==> o1 < o2),
    decreases m,
{
    if m > 0 {
        let pre = acts_upto(g, d, m - 1);
        if k2 < pre.len() {
            lemma_act_decompose2(g, d, m - 1, k1, k2);
            let (t1, o1, t2, o2) = choose|t1: int, o1: int, t2: int, o2: int|
                #![auto]
                0 <= t1 <= t2 < m - 1 && 0 <= o1 < line_acts_of(g, d, t1).len() && 0 <= o2
                    < line_acts_of(g, d, t2).len() && acts_upto(g, d, m - 1)[k1] == line_acts_of(
                    g,
                    d,
                    t1,
                )[o1] && acts_upto(g, d, m - 1)[k2] == line_acts_of(g, d, t2)[o2] && (t1 == t2
                    ==> o1 < o2);
            assert(acts_upto(g, d, m)[k1] == line_acts_of(g, d, t1)[o1]);
            assert(acts_upto(g, d, m)[k2] == line_acts_of(g, d, t2)[o2]);
        } else if k1 < pre.len() {
            lemma_act_decompose(g, d, m - 1, k1);
            let (t1, o1) = choose|t1: int, o1: int|
                #![auto]
                0 <= t1 < m - 1 && 0 <= o1 < line_acts_of(g, d, t1).len() && acts_upto(
                    g,
                    d,
                    m - 1,
                )[k1] == line_acts_of(g, d, t1)[o1];
            let o2 = k2 - pre.len();
            assert(acts_upto(g, d, m)[k1] == line_acts_of(g, d, t1)[o1]);
            assert(acts_upto(g, d, m)[k2] == line_acts_of(g, d, m - 1)[o2]);
        } else {
            let o1 = k1 - pre.len();
            let o2 = k2 - pre.len();
            assert(acts_upto(g, d, m)[k1] == line_acts_of(g, d, m - 1)[o1]);
            assert(acts_upto(g, d, m)[k2] == line_acts_of(g, d, m - 1)[o2]);
        }
    }
}

/// What one shift action truthfully reports of the grid it acted on:
/// coordinates in range, a tile at the source, a `Move` carrying the source
/// rank unchanged, a `Merge` carrying exactly one rank above it.
pub open spec fn act_sound(g: Seq<Seq<u8>>, a: TileAction) -> bool {
    &&& a.from.0 < g.len() && a.from.1 < g.len()
    &&& a.to.0 < g.len() && a.to.1 < g.len()
    &&& g[a.from.0 as int][a.from.1 as int] != 0
    &&& a.kind is Move ==> a.value == g[a.from.0 as int][a.from.1 as int]
    &&& a.kind is Merge ==> a.value == sat_inc(g[a.from.0 as int][a.from.1 as int])
}

proof fn lemma_line_act_sound(g: Seq<Seq<u8>>, d: Direction, t: int, o: int)
    requires
        square(g),
        g.len() <= usize::MAX,
        0 <= t < g.len(),
        0 <= o < line_acts_of(g, d, t).len(),
    ensures
        act_sound(g, line_acts_of(g, d, t)[o]),
{
    let n = g.len() as int;
    match d {
        Direction::Left => {
            lemma_compact_line(g[t]);
            let la = line_acts(g[t])[o];
            assert(line_acts_of(g, d, t)[o] == act_in_row(t, la));
            assert(act_wf(g[t], n, la));
        },
        Direction::Right => {
            lemma_compact_line(rev(g[t]));
            let la = line_acts(rev(g[t]))[o];
            assert(line_acts_of(g, d, t)[o] == act_in_row_rev(n, t, la));
            assert(act_wf(rev(g[t]), n, la));
            assert(rev(g[t])[la.2] == g[t][n - 1 - la.2]);
        },
        Direction::Up => {
            lemma_compact_line(col_of(g, t));
            let la = line_acts(col_of(g, t))[o];
            assert(line_acts_of(g, d, t)[o] == act_in_col(t, la));
            assert(act_wf(col_of(g, t), n, la));
            assert(col_of(g, t)[la.2] == g[la.2][t]);
        },
        Direction::Down => {
            lemma_compact_line(rev(col_of(g, t)));
            let la = line_acts(rev(col_of(g, t)))[o];
            assert(line_acts_of(g, d, t)[o] == act_in_col_rev(n, t, la));
            assert(act_wf(rev(col_of(g, t)), n, la));
            assert(rev(col_of(g, t))[la.2] == col_of(g, t)[n - 1 - la.2]);
            assert(col_of(g, t)[n - 1 - la.2] == g[n - 1 - la.2][t]);
        },
    }
}

/// Every action of a shift reports its source truthfully: its coordinates
/// are in range, its source cell holds a tile, a `Move` value is the source
/// rank unchanged, and a `Merge` value is exactly one rank above the two
/// equal input ranks — no merge value ever arises from unequal ranks.
pub proof fn lemma_actions_sound(g: Seq<Seq<u8>>, d: Direction)
    requires
        square(g),
        g.len() <= usize::MAX,
    ensures
        forall|k: int|
            0 <= k < shift_actions(g, d).len() ==> act_sound(g, #[trigger] shift_actions(g, d)[k]),
{
    let n = g.len() as int;
    assert forall|k: int| 0 <= k < shift_actions(g, d).len() implies act_sound(
        g,
        shift_actions(g, d)[k],
    ) by {
        lemma_act_decompose(g, d, n, k);
        let (t, o) = choose|t: int, o: int|
            #![auto]
            0 <= t < n && 0 <= o < line_acts_of(g, d, t).len() && acts_upto(g, d, n)[k]
                == line_acts_of(g, d, t)[o];
        lemma_line_act_sound(g, d, t, o);
    }
}

/// One shift merges at most once into any cell: two `Merge` actions of the
/// same shift always land on different cells, so no tile formed by a merge
/// merges again within that shift.
pub proof fn lemma_merges_distinct(g: Seq<Seq<u8>>, d: Direction)
    requires
        square(g),
        g.len() <= usize::MAX,
    ensures
        forall|k1: int, k2: int|
            0 <= k1 < k2 < shift_actions(g, d).len() && (#[trigger] shift_actions(
                g,
                d,
            )[k1]).kind is Merge && (#[trigger] shift_actions(g, d)[k2]).kind is Merge
                ==> shift_actions(g, d)[k1].to != shift_actions(g, d)[k2].to,
{
    let n = g.len() as int;
    assert forall|k1: int, k2: int|
        0 <= k1 < k2 < shift_actions(g, d).len() && (#[trigger] shift_actions(
            g,
            d,
        )[k1]).kind is Merge && (#[trigger] shift_actions(g, d)[k2]).kind is Merge implies
        shift_actions(g, d)[k1].to != shift_actions(g, d)[k2].to by {
        lemma_act_decompose2(g, d, n, k1, k2);
        let (t1, o1, t2, o2) = choose|t1: int, o1: int, t2: int, o2: int|
            #![auto]
            0 <= t1 <= t2 < n && 0 <= o1 < line_acts_of(g, d, t1).len() && 0 <= o2 < line_acts_of(
                g,
                d,
                t2,
            ).len() && acts_upto(g, d, n)[k1] == line_acts_of(g, d, t1)[o1] && acts_upto(
                g,
                d,
                n,
            )[k2] == line_acts_of(g, d, t2)[o2] && (t1 == t2 ==> o1 < o2);
        match d {
            Direction::Left => {
                lemma_compact_line(g[t1]);
                lemma_compact_line(g[t2]);
                let la1 = line_acts(g[t1])[o1];
                let la2 = line_acts(g[t2])[o2];
                assert(shift_actions(g, d)[k1] == act_in_row(t1, la1));
                assert(shift_actions(g, d)[k2] == act_in_row(t2, la2));
                assert(act_wf(g[t1], n, la1));
                assert(act_wf(g[t2], n, la2));
                if t1 == t2 {
                    assert(la1.3 < la2.3);
                }
            },
            Direction::Right => {
                lemma_compact_line(rev(g[t1]));
                lemma_compact_line(rev(g[t2]));
                let la1 = line_acts(rev(g[t1]))[o1];
                let la2 = line_acts(rev(g[t2]))[o2];
                assert(shift_actions(g, d)[k1] == act_in_row_rev(n, t1, la1));
                assert(shift_actions(g, d)[k2] == act_in_row_rev(n, t2, la2));
                assert(act_wf(rev(g[t1]), n, la1));
                assert(act_wf(rev(g[t2]), n, la2));
                if t1 == t2 {
                    assert(la1.3 < la2.3);
                }
            },
            Direction::Up => {
                lemma_compact_line(col_of(g, t1));
                lemma_compact_line(col_of(g, t2));
                let la1 = line_acts(col_of(g, t1))[o1];
                let la2 = line_acts(col_of(g, t2))[o2];
                assert(shift_actions(g, d)[k1] == act_in_col(t1, la1));
                assert(shift_actions(g, d)[k2] == act_in_col(t2, la2));
                assert(act_wf(col_of(g, t1), n, la1));
                assert(act_wf(col_of(g, t2), n, la2));
                if t1 == t2 {
                    assert(la1.3 < la2.3);
                }
            },
            Direction::Down => {
                lemma_compact_line(rev(col_of(g, t1)));
                lemma_compact_line(rev(col_of(g, t2)));
                let la1 = line_acts(rev(col_of(g, t1)))[o1];
                let la2 = line_acts(rev(col_of(g, t2)))[o2];
                assert(shift_actions(g, d)[k1] == act_in_col_rev(n, t1, la1));
                assert(shift_actions(g, d)[k2] == act_in_col_rev(n, t2, la2));
                assert(act_wf(rev(col_of(g, t1)), n, la1));
                assert(act_wf(rev(col_of(g, t2)), n, la2));
                if t1 == t2 {
                    assert(la1.3 < la2.3);
                }
            },
        }
    }
}

/// How many of a shift's actions are merges.
pub open spec fn merges_in(acts: Seq<TileAction>) -> int
    decreases acts.len(),
{
    if acts.len() == 0 {
        0
    } else {
        merges_in(acts.drop_last()) + if acts.last().kind is Merge {
            1int
        } else {
            0int
        }
    }
}

proof fn lemma_merges_in_concat(a: Seq<TileAction>, b: Seq<TileAction>)
    ensures
        merges_in(a + b) == merges_in(a) + merges_in(b),
    decreases b.len(),
{
    if b.len() == 0 {
        assert(a + b =~= a);
    } else {
        lemma_merges_in_concat(a, b.drop_last());
        assert((a + b).drop_last() =~= a + b.drop_last());
        assert((a + b).last() == b.last());
    }
}

proof fn lemma_merges_in_map(lacts: Seq<LineAct>, f: spec_fn(LineAct) -> TileAction)
    requires
        forall|x: LineAct| (#[trigger] f(x)).kind == x.0,
    ensures
        merges_in(lacts.map_values(f)) == merge_count(lacts),
    decreases lacts.len(),
{
    if lacts.len() == 0 {
        assert(lacts.map_values(f).len() == 0);
    } else {
        lemma_merges_in_map(lacts.drop_last(), f);
        assert(lacts.map_values(f).drop_last() =~= lacts.drop_last().map_values(f));
        assert(lacts.map_values(f).last() == f(lacts.last()));
    }
}

proof fn lemma_merges_in_nonneg(acts: Seq<TileAction>)
    ensures
        0 <= merges_in(acts),
    decreases acts.len(),
{
    if acts.len() > 0 {
        lemma_merges_in_nonneg(acts.drop_last());
    }
}

/// How many tiles the first `c` columns of a grid hold.
spec fn grid_nz_cols_upto(g: Seq<Seq<u8>>, c: int) -> int
    decreases c,
{
    if c <= 0 {
        0
    } else {
        grid_nz_cols_upto(g, c - 1) + count_nz(col_of(g, c - 1))
    }
}

proof fn lemma_cols_upto_empty_grid(g: Seq<Seq<u8>>, c: int)
    requires
        g.len() == 0,
        0 <= c,
    ensures
        grid_nz_cols_upto(g, c) == 0,
    decreases c,
{
    if c > 0 {
        lemma_cols_upto_empty_grid(g, c - 1);
        assert(col_of(g, c - 1) =~= Seq::<u8>::empty());
        assert(count_nz(col_of(g, c - 1)) == 0);
    }
}

proof fn lemma_grid_nz_upto_front(g: Seq<Seq<u8>>, k: int)
    requires
        1 <= k <= g.len(),
    ensures
        grid_nz_upto(g, k) == count_nz(g[0]) + grid_nz_upto(g.drop_first(), k - 1),
    decreases k,
{
    if k == 1 {
        assert(grid_nz_upto(g, 0) == 0);
        assert(grid_nz_upto(g.drop_first(), 0) == 0);
    } else {
        lemma_grid_nz_upto_front(g, k - 1);
        assert(g.drop_first()[k - 2] == g[k - 1]);
    }
}

proof fn lemma_cols_upto_front(g: Seq<Seq<u8>>, c: int)
    requires
        g.len() > 0,
        0 <= c <= g[0].len(),
    ensures
        grid_nz_cols_upto(g, c) == count_nz(g[0].subrange(0, c)) + grid_nz_cols_upto(
            g.drop_first(),
            c,
        ),
    decreases c,
{
    if c == 0 {
        assert(g[0].subrange(0, 0) =~= Seq::<u8>::empty());
        assert(count_nz(g[0].subrange(0, 0)) == 0);
    } else {
        lemma_cols_upto_front(g, c - 1);
        let col = col_of(g, c - 1);
        lemma_count_nz_first(col);
        assert(col.drop_first() =~= col_of(g.drop_first(), c - 1));
        assert(col[0] == g[0][c - 1]);
        assert(g[0].subrange(0, c).drop_last() =~= g[0].subrange(0, c - 1));
        assert(g[0].subrange(0, c).last() == g[0][c - 1]);
    }
}

/// Counting a rectangular grid's tiles by columns gives the same total as
/// counting them by rows.
proof fn lemma_grid_nz_transpose(g: Seq<Seq<u8>>, m: int)
    requires
        0 <= m,
        forall|r: int| 0 <= r < g.len() ==> (#[trigger] g[r]).len() == m,
    ensures
        grid_nz(g) == grid_nz_cols_upto(g, m),
    decreases g.len(),
{
    if g.len() == 0 {
        lemma_cols_upto_empty_grid(g, m);
    } else {
        let t = g.drop_first();
        assert(forall|r: int| 0 <= r < t.len() ==> (#[trigger] t[r]).len() == m);
        lemma_grid_nz_transpose(t, m);
        lemma_grid_nz_upto_front(g, g.len() as int);
        lemma_cols_upto_front(g, m);
        assert(g[0].subrange(0, m) =~= g[0]);
    }
}

proof fn lemma_count_rows(g: Seq<Seq<u8>>, d: Direction, k: int)
    requires
        square(g),
        d is Left || d is Right,
        0 <= k <= g.len(),
    ensures
        grid_nz_upto(shift_grid(g, d), k) == grid_nz_upto(g, k) - merges_in(acts_upto(g, d, k)),
    decreases k,
{
    if k > 0 {
        lemma_count_rows(g, d, k - 1);
        lemma_merges_in_concat(acts_upto(g, d, k - 1), line_acts_of(g, d, k - 1));
        if d is Left {
            lemma_compact_line(g[k - 1]);
            lemma_merges_in_map(line_acts(g[k - 1]), |a: LineAct| act_in_row(k - 1, a));
            assert(shift_grid(g, d)[k - 1] == compact_line(g[k - 1]));
        } else {
            lemma_compact_line(rev(g[k - 1]));
            lemma_merges_in_map(
                line_acts(rev(g[k - 1])),
                |a: LineAct| act_in_row_rev(g.len() as int, k - 1, a),
            );
            lemma_count_nz_rev(g[k - 1]);
            lemma_count_nz_rev(compact_line(rev(g[k - 1])));
            assert(shift_grid(g, d)[k - 1] == rev(compact_line(rev(g[k - 1]))));
        }
    }
}

proof fn lemma_count_cols(g: Seq<Seq<u8>>, d: Direction, k: int)
    requires
        square(g),
        d is Up || d is Down,
        0 <= k <= g.len(),
    ensures
        grid_nz_cols_upto(shift_grid(g, d), k) == grid_nz_cols_upto(g, k) - merges_in(
            acts_upto(g, d, k),
        ),
    decreases k,
{
    if k > 0 {
        lemma_count_cols(g, d, k - 1);
        lemma_merges_in_concat(acts_upto(g, d, k - 1), line_acts_of(g, d, k - 1));
        let g2 = shift_grid(g, d);
        if d is Up {
            lemma_compact_line(col_of(g, k - 1));
            lemma_merges_in_map(line_acts(col_of(g, k - 1)), |a: LineAct| act_in_col(k - 1, a));
            assert(col_of(g2, k - 1) =~= compact_line(col_of(g, k - 1)));
        } else {
            lemma_compact_line(rev(col_of(g, k - 1)));
            lemma_merges_in_map(
                line_acts(rev(col_of(g, k - 1))),
                |a: LineAct| act_in_col_rev(g.len() as int, k - 1, a),
            );
            lemma_count_nz_rev(col_of(g, k - 1));
            lemma_count_nz_rev(compact_line(rev(col_of(g, k - 1))));
            assert(col_of(g2, k - 1) =~= rev(compact_line(rev(col_of(g, k - 1)))));
        }
    }
}

/// A shift never creates a tile, and removes exactly one tile per merge: the
/// number of non-zero cells after a shift equals the count before minus the
/// number of `Merge` actions the shift reported.
pub proof fn lemma_shift_count(g: Seq<Seq<u8>>, d: Direction)
    requires
        square(g),
    ensures
        grid_nz(shift_grid(g, d)) == grid_nz(g) - merges_in(shift_actions(g, d)),
        grid_nz(shift_grid(g, d)) <= grid_nz(g),
{
    let n = g.len() as int;
    lemma_merges_in_nonneg(shift_actions(g, d));
    match d {
        Direction::Left | Direction::Right => {
            lemma_count_rows(g, d, n);
        },
        Direction::Up | Direction::Down => {
            lemma_count_cols(g, d, n);
            lemma_grid_nz_transpose(g, n);
            let g2 = shift_grid(g, d);
            assert(forall|r: int| 0 <= r < g2.len() ==> (#[trigger] g2[r]).len() == n);
            lemma_grid_nz_transpose(g2, n);
        },
    }
}

/// When exactly one cell of the grid is empty, any empty cell is that one:
/// a spawn, which always fills some empty cell, fills exactly it.
pub proof fn lemma_single_empty_cell(g: Seq<Seq<u8>>, r: int, c: int, r2: int, c2: int)
    requires
        0 <= r < g.len(),
        0 <= c < g[r].len(),
        forall|a: int, b: int|
            0 <= a < g.len() && 0 <= b < g[a].len() && (a != r || b != c) ==> g[a][b] != 0,
        0 <= r2 < g.len(),
        0 <= c2 < g[r2].len(),
        g[r2][c2] == 0,
    ensures
        r2 == r && c2 == c,
{
}

} // verus!
