//! The one-dimensional compaction rule: a line of cells is compacted toward
//! index 0, merging equal adjacent ranks at most once per resulting tile.
//! All four grid directions reuse this rule through coordinate translation.

use vstd::prelude::*;
use crate::action::{LineAct, TileActionKind};

verus! {

/// The post-merge rank: one above the input rank, capping at the largest
/// representable rank instead of wrapping.
pub open spec fn sat_inc(v: u8) -> u8 {
    if v == 255 {
        255
    } else {
        (v + 1) as u8
    }
}

/// State of the compaction after the scan cursor has processed positions
/// `1..j`: the line contents, the write cursor, and the actions emitted so
/// far, in scan order.
pub open spec fn compact_to(line: Seq<u8>, j: int) -> (Seq<u8>, int, Seq<LineAct>)
    decreases j,
{
    if j <= 1 {
        (line, 0, Seq::<LineAct>::empty())
    } else {
        let (l, i, acts) = compact_to(line, j - 1);
        let p = j - 1;
        if l[p] == 0 {
            (l, i, acts)
        } else if l[i] == 0 {
            (l.update(i, l[p]).update(p, 0), i, acts.push((TileActionKind::Move, l[p], p, i)))
        } else if l[i] == l[p] {
            (
                l.update(i, sat_inc(l[i])).update(p, 0),
                i + 1,
                acts.push((TileActionKind::Merge, sat_inc(l[i]), p, i)),
            )
        } else if i + 1 == p {
            (l, i + 1, acts)
        } else {
            (
                l.update(i + 1, l[p]).update(p, 0),
                i + 1,
                acts.push((TileActionKind::Move, l[p], p, i + 1)),
            )
        }
    }
}

/// The line after a full compaction toward index 0.
pub open spec fn compact_line(line: Seq<u8>) -> Seq<u8> {
    compact_to(line, line.len() as int).0
}

/// The actions a full compaction emits, in scan order.
pub open spec fn line_acts(line: Seq<u8>) -> Seq<LineAct> {
    compact_to(line, line.len() as int).2
}

/// A line read in the opposite order.
pub open spec fn rev(s: Seq<u8>) -> Seq<u8> {
    Seq::new(s.len(), |i: int| s[s.len() - 1 - i])
}

/// How many cells of a line hold a tile.
pub open spec fn count_nz(l: Seq<u8>) -> int
    decreases l.len(),
{
    if l.len() == 0 {
        0
    } else {
        count_nz(l.drop_last()) + if l.last() != 0 {
            1int
        } else {
            0int
        }
    }
}

/// How many of the emitted line actions are merges.
pub open spec fn merge_count(acts: Seq<LineAct>) -> int
    decreases acts.len(),
{
    if acts.len() == 0 {
        0
    } else {
        merge_count(acts.drop_last()) + if acts.last().0 is Merge {
            1int
        } else {
            0int
        }
    }
}

/// What holds of every action emitted while scanning positions `1..j` of
/// `line`: positions are in range, a tile always travels toward index 0, no
/// action reports an empty cell, a `Move` carries the scanned rank unchanged,
/// and a `Merge` carries exactly one rank above the scanned rank.
pub open spec fn act_wf(line: Seq<u8>, j: int, a: LineAct) -> bool {
    &&& 1 <= a.2 < j
    &&& 0 <= a.3 < a.2
    &&& line[a.2] != 0
    &&& a.0 is Move ==> a.1 == line[a.2]
    &&& a.0 is Merge ==> a.1 == sat_inc(line[a.2])
}

/// A full compaction keeps the line's length, removes exactly one tile per
/// merge, emits only well-formed actions, and merges land on strictly
/// increasing positions.
pub proof fn lemma_compact_line(line: Seq<u8>)
    ensures
        compact_line(line).len() == line.len(),
        count_nz(compact_line(line)) + merge_count(line_acts(line)) == count_nz(line),
        forall|k: int|
            0 <= k < line_acts(line).len() ==> act_wf(
                line,
                line.len() as int,
                #[trigger] line_acts(line)[k],
            ),
        forall|k1: int, k2: int|
            0 <= k1 < k2 < line_acts(line).len() && line_acts(line)[k1].0 is Merge && (
            #[trigger] line_acts(line)[k2]).0 is Merge ==> (#[trigger] line_acts(
                line,
            )[k1]).3 < line_acts(line)[k2].3,
{
    lemma_compact_to(line, line.len() as int);
}

/// Overwriting one cell changes the tile count by what leaves and what
/// arrives.
pub proof fn lemma_count_nz_update(l: Seq<u8>, i: int, v: u8)
    requires
        0 <= i < l.len(),
    ensures
        count_nz(l.update(i, v)) == count_nz(l) - (if l[i] != 0 {
            1int
        } else {
            0int
        }) + (if v != 0 {
            1int
        } else {
            0int
        }),
    decreases l.len(),
{
    if i == l.len() - 1 {
        assert(l.update(i, v).drop_last() =~= l.drop_last());
    } else {
        assert(l.update(i, v).drop_last() =~= l.drop_last().update(i, v));
        lemma_count_nz_update(l.drop_last(), i, v);
    }
}

/// An all-empty line holds no tile.
pub proof fn lemma_count_nz_zero(l: Seq<u8>)
    requires
        forall|k: int| 0 <= k < l.len() ==> l[k] == 0,
    ensures
        count_nz(l) == 0,
    decreases l.len(),
{
    if l.len() > 0 {
        lemma_count_nz_zero(l.drop_last());
    }
}

/// A line on which a compaction has nothing left to do: every tile sits in
/// an unbroken run at the low end, and no two adjacent tiles hold equal
/// ranks.
pub open spec fn fully_compacted(l: Seq<u8>) -> bool {
    &&& forall|p: int| 0 <= p < l.len() - 1 && #[trigger] l[p] == 0 ==> l[p + 1] == 0
    &&& forall|p: int| 0 <= p < l.len() - 1 && #[trigger] l[p] == l[p + 1] ==> l[p] == 0
}

/// In a fully compacted line an empty cell is followed only by empty cells.
proof fn lemma_zero_tail(l: Seq<u8>, q: int, p: int)
    requires
        fully_compacted(l),
        0 <= q <= p < l.len(),
        l[q] == 0,
    ensures
        l[p] == 0,
    decreases p - q,
{
    if q < p {
        lemma_zero_tail(l, q + 1, p);
    }
}

proof fn lemma_compact_to_zero(line: Seq<u8>, j: int)
    requires
        forall|p: int| 0 <= p < line.len() ==> line[p] == 0,
        0 <= j <= line.len(),
    ensures
        compact_to(line, j) == (line, 0int, Seq::<LineAct>::empty()),
    decreases j,
{
    if j > 1 {
        lemma_compact_to_zero(line, j - 1);
    }
}

/// Compacting an all-empty line changes nothing and emits no action.
pub proof fn lemma_compact_zero(line: Seq<u8>)
    requires
        forall|p: int| 0 <= p < line.len() ==> line[p] == 0,
    ensures
        compact_line(line) == line,
        line_acts(line) == Seq::<LineAct>::empty(),
{
    lemma_compact_to_zero(line, line.len() as int);
}

proof fn lemma_fully_compacted_to(l: Seq<u8>, j: int)
    requires
        fully_compacted(l),
        0 <= j <= l.len(),
    ensures
        compact_to(l, j).0 == l,
        compact_to(l, j).2 == Seq::<LineAct>::empty(),
        compact_to(l, j).1 == 0 || l[compact_to(l, j).1] != 0,
    decreases j,
{
    if j > 1 {
        lemma_fully_compacted_to(l, j - 1);
        lemma_compact_to(l, j - 1);
        let (l1, i, acts) = compact_to(l, j - 1);
        let p = j - 1;
        if l[p] != 0 {
            if l[i] == 0 {
                lemma_zero_tail(l, i, p);
            } else if l[i] == l[p] {
                if i + 1 == p {
                } else {
                    lemma_zero_tail(l, i + 1, p);
                }
            } else if i + 1 != p {
                lemma_zero_tail(l, i + 1, p);
            }
        }
    }
}

/// Compacting a fully compacted line changes nothing and emits no action:
/// a second shift in the same direction is a no-op.
pub proof fn lemma_fully_compacted(l: Seq<u8>)
    requires
        fully_compacted(l),
    ensures
        compact_line(l) == l,
        line_acts(l) == Seq::<LineAct>::empty(),
{
    lemma_fully_compacted_to(l, l.len() as int);
}

proof fn lemma_no_acts_to(l: Seq<u8>, j: int)
    requires
        0 <= j <= l.len(),
        compact_to(l, j).2.len() == 0,
    ensures
        compact_to(l, j).0 == l,
    decreases j,
{
    if j > 1 {
        lemma_no_acts_to(l, j - 1);
    }
}

/// A compaction that emits no action leaves the line unchanged.
pub proof fn lemma_no_acts(l: Seq<u8>)
    requires
        line_acts(l).len() == 0,
    ensures
        compact_line(l) == l,
{
    lemma_no_acts_to(l, l.len() as int);
}

/// Splitting off the first cell splits the tile count.
pub proof fn lemma_count_nz_first(l: Seq<u8>)
    requires
        l.len() > 0,
    ensures
        count_nz(l) == count_nz(l.drop_first()) + if l[0] != 0 {
            1int
        } else {
            0int
        },
    decreases l.len(),
{
    if l.len() == 1 {
        assert(l.drop_first() =~= Seq::<u8>::empty());
        assert(count_nz(l.drop_first()) == 0);
        assert(l.drop_last() =~= Seq::<u8>::empty());
        assert(count_nz(l.drop_last()) == 0);
        assert(l.last() == l[0]);
    } else {
        lemma_count_nz_first(l.drop_last());
        assert(l.drop_last().drop_first() =~= l.drop_first().drop_last());
        assert(l.drop_last()[0] == l[0]);
        assert(l.drop_first().last() == l.last());
        assert(l.drop_first().len() > 0);
        assert(count_nz(l.drop_first()) == count_nz(l.drop_first().drop_last()) + if l.drop_first().last() != 0 {
            1int
        } else {
            0int
        });
    }
}

/// Reading a line in the opposite order does not change its tile count.
pub proof fn lemma_count_nz_rev(l: Seq<u8>)
    ensures
        count_nz(rev(l)) == count_nz(l),
    decreases l.len(),
{
    if l.len() > 0 {
        lemma_count_nz_rev(l.drop_first());
        lemma_count_nz_first(l);
        assert(rev(l).drop_last() =~= rev(l.drop_first()));
        assert(rev(l).last() == l[0]);
    }
}

/// The invariants of the compaction scan, proved by induction over the scan
/// position: lengths are preserved, the write cursor stays behind the scan,
/// the cells strictly between cursor and scan are empty, unscanned cells are
/// untouched, the tile count drops by exactly the number of merges, every
/// action is well formed, and merges land on strictly increasing positions.
pub proof fn lemma_compact_to(line: Seq<u8>, j: int)
    requires
        0 <= j <= line.len(),
    ensures
        ({
            let (l, i, acts) = compact_to(line, j);
            &&& l.len() == line.len()
            &&& 0 <= i <= j
            &&& j >= 1 ==> i < j
            &&& forall|p: int| i < p < j ==> l[p] == 0
            &&& forall|p: int| j <= p < l.len() ==> l[p] == line[p]
            &&& count_nz(l) + merge_count(acts) == count_nz(line)
            &&& forall|k: int| 0 <= k < acts.len() ==> act_wf(line, j, #[trigger] acts[k])
            &&& forall|k: int| 0 <= k < acts.len() ==> (#[trigger] acts[k]).3 <= i
            &&& forall|k: int| 0 <= k < acts.len() && acts[k].0 is Merge ==> (#[trigger] acts[k]).3 < i
            &&& forall|k1: int, k2: int|
                0 <= k1 < k2 < acts.len() && acts[k1].0 is Merge && (#[trigger] acts[k2]).0 is Merge
                    ==> (#[trigger] acts[k1]).3 < acts[k2].3
        }),
    decreases j,
{
    if j <= 1 {
    } else {
        lemma_compact_to(line, j - 1);
        let (l, i, acts) = compact_to(line, j - 1);
        let p = j - 1;
        let (l2, i2, acts2) = compact_to(line, j);
        if l[p] == 0 {
        } else if l[i] == 0 {
            lemma_count_nz_update(l, i, l[p]);
            lemma_count_nz_update(l.update(i, l[p]), p, 0);
            assert(acts2.drop_last() =~= acts);
        } else if l[i] == l[p] {
            lemma_count_nz_update(l, i, sat_inc(l[i]));
            lemma_count_nz_update(l.update(i, sat_inc(l[i])), p, 0);
            assert(acts2.drop_last() =~= acts);
        } else if i + 1 == p {
        } else {
            lemma_count_nz_update(l, i + 1, l[p]);
            lemma_count_nz_update(l.update(i + 1, l[p]), p, 0);
            assert(acts2.drop_last() =~= acts);
        }
    }
}

} // verus!
