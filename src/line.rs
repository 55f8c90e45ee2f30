//! One line of the board: four cells slid and merged toward the high index.
use vstd::prelude::*;

verus! {

/// A cell of a line, as a mathematical value.
pub open spec fn cell_value(c: Option<u32>) -> Option<int> {
    match c {
        Some(v) => Some(v as int),
        None => None,
    }
}

/// The model of a line: its cells, in index order.
pub open spec fn line_view(l: [Option<u32>; 4]) -> Seq<Option<int>> {
    l@.map_values(|c: Option<u32>| cell_value(c))
}

/// The tile values of a line, read from its high end toward index 0.
pub open spec fn tiles(line: Seq<Option<int>>) -> Seq<int>
    decreases line.len(),
{
    if line.len() == 0 {
        seq![]
    } else {
        let rest = tiles(line.drop_first());
        match line[0] {
            Some(v) => rest.push(v),
            None => rest,
        }
    }
}

/// Merges a run of tiles taken in order: a tile equal to the last one laid
/// down joins it, unless that one has already absorbed a tile. Returns the
/// tiles laid down and whether the last of them may still absorb one.
pub open spec fn merge_run(ts: Seq<int>) -> (Seq<int>, bool)
    decreases ts.len(),
{
    if ts.len() == 0 {
        (seq![], false)
    } else {
        let (out, open) = merge_run(ts.drop_last());
        let v = ts.last();
        if open && out.last() == v {
            (out.drop_last().push(2 * v), false)
        } else {
            (out.push(v), true)
        }
    }
}

/// The number of merges in a run of tiles.
pub open spec fn merge_count(ts: Seq<int>) -> nat
    decreases ts.len(),
{
    if ts.len() == 0 {
        0
    } else {
        let (out, open) = merge_run(ts.drop_last());
        if open && out.last() == ts.last() {
            merge_count(ts.drop_last()) + 1
        } else {
            merge_count(ts.drop_last())
        }
    }
}

/// Tiles laid out in a line of `n` cells, the first at the high end.
pub open spec fn packed(ts: Seq<int>, n: nat) -> Seq<Option<int>> {
    Seq::new(n, |j: int| if n - 1 - j < ts.len() { Some(ts[n - 1 - j]) } else { None })
}

/// A line after every tile has slid toward the high end and each pair of
/// equal neighbours has merged at most once.
pub open spec fn coalesced(line: Seq<Option<int>>) -> Seq<Option<int>> {
    packed(merge_run(tiles(line)).0, line.len())
}

/// Every tile of the line can be held in a `u32`.
pub open spec fn fits_u32(line: Seq<Option<int>>) -> bool {
    forall|j: int| 0 <= j < line.len() && line[j] is Some ==> 0 <= #[trigger] line[j]->0 <= u32::MAX
}

proof fn lemma_tiles_len(line: Seq<Option<int>>)
    ensures
        tiles(line).len() <= line.len(),
    decreases line.len(),
{
    if line.len() > 0 {
        lemma_tiles_len(line.drop_first());
    }
}

proof fn lemma_merge_run_len(ts: Seq<int>)
    ensures
        merge_run(ts).0.len() <= ts.len(),
        merge_run(ts).1 ==> merge_run(ts).0.len() > 0,
    decreases ts.len(),
{
    if ts.len() > 0 {
        lemma_merge_run_len(ts.drop_last());
    }
}

/// Splitting a line at `i`: the tiles of the high part come first.
proof fn lemma_tiles_split(line: Seq<Option<int>>, i: int)
    requires
        0 <= i <= line.len(),
    ensures
        tiles(line) == tiles(line.subrange(i, line.len() as int)) + tiles(line.subrange(0, i)),
    decreases i,
{
    let n = line.len() as int;
    if i == 0 {
        assert(line.subrange(0, n) == line);
        assert(tiles(line.subrange(0, 0)) == Seq::<int>::empty());
        assert(tiles(line) + Seq::<int>::empty() == tiles(line));
    } else {
        let d = line.drop_first();
        lemma_tiles_split(d, i - 1);
        assert(d.subrange(i - 1, n - 1) == line.subrange(i, n));
        assert(d.subrange(0, i - 1) == line.subrange(0, i).drop_first());
        let hi = tiles(line.subrange(i, n));
        let lo = tiles(line.subrange(1, i));
        match line[0] {
            Some(v) => {
                assert((hi + lo).push(v) == hi + lo.push(v));
            },
            None => {},
        }
    }
}

/// Tiles laid down and closed stay as they are whatever tiles follow.
proof fn lemma_merge_run_stable(a: Seq<int>, b: Seq<int>)
    ensures
        ({
            let (o, f) = merge_run(a);
            let (o2, f2) = merge_run(a + b);
            let m = if f { o.len() - 1 } else { o.len() as int };
            &&& 0 <= m <= o2.len()
            &&& o2.subrange(0, m) == o.subrange(0, m)
            &&& f2 ==> m < o2.len()
        }),
    decreases b.len(),
{
    lemma_merge_run_len(a);
    if b.len() == 0 {
        assert(a + b == a);
    } else {
        lemma_merge_run_stable(a, b.drop_last());
        assert((a + b).drop_last() == a + b.drop_last());
        lemma_merge_run_len(a + b.drop_last());
        let (o, f) = merge_run(a);
        let m = if f { o.len() - 1 } else { o.len() as int };
        let o2 = merge_run(a + b.drop_last()).0;
        let o3 = merge_run(a + b).0;
        assert(o3.subrange(0, m) == o2.subrange(0, m));
    }
}

/// Slides every tile of the line toward index 3, merging each pair of equal
/// neighbours at most once: a tile that absorbed another absorbs no more in
/// the same pass.
pub fn coalesce(cells: [Option<u32>; 4]) -> (r: [Option<u32>; 4])
    requires
        fits_u32(coalesced(line_view(cells))),
    ensures
        line_view(r) == coalesced(line_view(cells)),
{
    let ghost line = line_view(cells);
    let ghost all = tiles(line);
    let mut out: [Option<u32>; 4] = [None; 4];
    let mut filled: usize = 0;
    let mut open = false;
    let mut index: usize = 0;
    proof {
        lemma_tiles_len(line);
        lemma_merge_run_len(all);
        assert(line.subrange(4, 4).len() == 0);
        assert(line_view(out) == packed(seq![], 4));
    }
    while index < 4
        invariant
            index <= 4,
            line == line_view(cells),
            all == tiles(line),
            fits_u32(packed(merge_run(all).0, 4)),
            merge_run(all).0.len() <= 4,
            ({
                let (o, f) = merge_run(tiles(line.subrange(4 - index, 4)));
                &&& line_view(out) == packed(o, 4)
                &&& filled == o.len()
                &&& open == f
            }),
        decreases 4 - index,
    {
        let i: usize = 3 - index;
        let ghost before = tiles(line.subrange(i + 1, 4));
        let ghost now = tiles(line.subrange(i as int, 4));
        proof {
            assert(line.subrange(i as int, 4).drop_first() == line.subrange(i + 1, 4));
            lemma_tiles_len(line.subrange(i + 1, 4));
            lemma_merge_run_len(before);
            lemma_tiles_split(line, i as int);
            lemma_merge_run_stable(now, tiles(line.subrange(0, i as int)));
        }
        match cells[i] {
            Some(v) => {
                assert(now == before.push(v as int));
                assert(now.drop_last() == before);
                let ghost o0 = merge_run(before).0;
                if open && filled > 0 && out[4 - filled] == Some(v) {
                    proof {
                        assert(line_view(out)[4 - filled] == Some(o0[filled - 1]));
                        assert(o0.last() == v);
                        assert(merge_run(now) == (o0.drop_last().push(2 * v), false));
                        assert(all == now + tiles(line.subrange(0, i as int)));
                        let fin = merge_run(all).0;
                        assert(fin.subrange(0, filled as int)[filled - 1] == fin[filled - 1]);
                        assert(packed(fin, 4)[4 - filled] == Some(fin[filled - 1]));
                    }
                    let ghost prev = out@;
                    let ghost prev_view = line_view(out);
                    out[4 - filled] = Some(v + v);
                    open = false;
                    proof {
                        let o = merge_run(now).0;
                        assert forall|j: int| 0 <= j < 4 implies line_view(out)[j] == packed(o, 4)[j] by {
                            assert(line_view(out)[j] == cell_value(out@[j]));
                            if j != 4 - filled {
                                assert(out@[j] == prev[j]);
                                assert(prev_view[j] == cell_value(prev[j]));
                                if 3 - j < filled {
                                    assert(o[3 - j] == o0[3 - j]);
                                }
                            }
                        }
                        assert(line_view(out) =~= packed(o, 4));
                    }
                } else {
                    proof {
                        if open && filled > 0 {
                            assert(line_view(out)[4 - filled] == Some(o0[filled - 1]));
                        }
                        assert(merge_run(now) == (o0.push(v as int), true));
                    }
                    let ghost prev = out@;
                    let ghost prev_view = line_view(out);
                    out[3 - filled] = Some(v);
                    proof {
                        let o = merge_run(now).0;
                        assert forall|j: int| 0 <= j < 4 implies line_view(out)[j] == packed(o, 4)[j] by {
                            assert(line_view(out)[j] == cell_value(out@[j]));
                            if j != 3 - filled {
                                assert(out@[j] == prev[j]);
                                assert(prev_view[j] == cell_value(prev[j]));
                                if 3 - j < filled {
                                    assert(o[3 - j] == o0[3 - j]);
                                }
                            }
                        }
                        assert(line_view(out) =~= packed(o, 4));
                    }
                    filled = filled + 1;
                    open = true;
                }
            },
            None => {
                assert(now == before);
            },
        }
        index = index + 1;
    }
    assert(line.subrange(0, 4) == line);
    out
}

/// No two neighbouring tiles of the line hold equal values.
pub open spec fn no_equal_neighbours(line: Seq<Option<int>>) -> bool {
    forall|j: int|
        0 <= j < line.len() - 1 && (#[trigger] line[j]) is Some && line[j + 1] is Some ==> line[j]
            != line[j + 1]
}

proof fn lemma_tiles_none(line: Seq<Option<int>>)
    requires
        forall|j: int| 0 <= j < line.len() ==> (#[trigger] line[j]) is None,
    ensures
        tiles(line) == Seq::<int>::empty(),
    decreases line.len(),
{
    if line.len() > 0 {
        lemma_tiles_none(line.drop_first());
    }
}

proof fn lemma_tiles_packed(ts: Seq<int>, n: nat)
    requires
        ts.len() <= n,
    ensures
        tiles(packed(ts, n)) == ts,
    decreases n,
{
    let p = packed(ts, n);
    if n == 0 {
        assert(ts =~= Seq::<int>::empty());
    } else if ts.len() < n {
        lemma_tiles_packed(ts, (n - 1) as nat);
        assert(p.drop_first() =~= packed(ts, (n - 1) as nat));
    } else {
        lemma_tiles_packed(ts.drop_last(), (n - 1) as nat);
        assert(p.drop_first() =~= packed(ts.drop_last(), (n - 1) as nat));
        assert(ts.drop_last().push(ts.last()) =~= ts);
    }
}

proof fn lemma_merge_count(ts: Seq<int>)
    ensures
        merge_run(ts).0.len() + merge_count(ts) == ts.len(),
    decreases ts.len(),
{
    if ts.len() > 0 {
        lemma_merge_run_len(ts.drop_last());
        lemma_merge_count(ts.drop_last());
    }
}

pub(crate) proof fn lemma_merge_run_distinct(ts: Seq<int>)
    requires
        forall|k: int| 0 <= k < ts.len() - 1 ==> ts[k] != #[trigger] ts[k + 1],
    ensures
        merge_run(ts) == (ts, ts.len() > 0),
    decreases ts.len(),
{
    if ts.len() > 0 {
        let d = ts.drop_last();
        assert forall|k: int| 0 <= k < d.len() - 1 implies d[k] != #[trigger] d[k + 1] by {
            assert(ts[k] != ts[k + 1]);
        }
        lemma_merge_run_distinct(d);
        if d.len() > 0 {
            assert(ts[ts.len() - 2] != ts[ts.len() - 1]);
        }
        assert(d.push(ts.last()) =~= ts);
    }
}

/// A line without tiles is left as it is.
pub proof fn lemma_coalesce_empty_line(l: [Option<u32>; 4])
    requires
        forall|j: int| 0 <= j < 4 ==> (#[trigger] l[j]) is None,
    ensures
        coalesced(line_view(l)) == line_view(l),
{
    let x = line_view(l);
    assert forall|j: int| 0 <= j < x.len() implies (#[trigger] x[j]) is None by {
        assert(x[j] == cell_value(l[j]));
    }
    lemma_tiles_none(x);
    assert(coalesced(x) =~= x);
}

/// A line with a single tile ends with that tile at its high end, its value
/// unchanged, and every other cell empty.
pub proof fn lemma_coalesce_single_tile(l: [Option<u32>; 4], j: int)
    requires
        0 <= j < 4,
        l[j] is Some,
        forall|k: int| 0 <= k < 4 && k != j ==> (#[trigger] l[k]) is None,
    ensures
        coalesced(line_view(l))[3] == line_view(l)[j],
        forall|k: int| 0 <= k < 3 ==> (#[trigger] coalesced(line_view(l))[k]) is None,
{
    let x = line_view(l);
    let v = l[j]->0 as int;
    lemma_tiles_split(x, j + 1);
    lemma_tiles_split(x.subrange(0, j + 1), j);
    let hi = x.subrange(j + 1, 4);
    let lo = x.subrange(0, j);
    let one = x.subrange(0, j + 1).subrange(j, j + 1);
    assert forall|k: int| 0 <= k < hi.len() implies (#[trigger] hi[k]) is None by {
        assert(hi[k] == cell_value(l[j + 1 + k]));
    }
    assert forall|k: int| 0 <= k < lo.len() implies (#[trigger] lo[k]) is None by {
        assert(lo[k] == cell_value(l[k]));
    }
    lemma_tiles_none(hi);
    lemma_tiles_none(lo);
    assert(x.subrange(0, j + 1).subrange(0, j) == lo);
    assert(one[0] == Some(v));
    assert(one.drop_first() =~= Seq::<Option<int>>::empty());
    assert(tiles(one.drop_first()) == Seq::<int>::empty());
    assert(Seq::<int>::empty().push(v) =~= seq![v]);
    assert(tiles(one) == seq![v]);
    assert(tiles(x) =~= seq![v]);
    let sv: Seq<int> = seq![v];
    assert(sv.drop_last() =~= Seq::<int>::empty());
    assert(merge_run(Seq::<int>::empty()).0 == Seq::<int>::empty());
    assert(merge_run(sv).0 =~= sv);
}

/// Coalescing drops one tile for each merge and no other.
pub proof fn lemma_coalesce_tile_count(l: [Option<u32>; 4])
    ensures
        tiles(coalesced(line_view(l))).len() + merge_count(tiles(line_view(l))) == tiles(
            line_view(l),
        ).len(),
{
    lemma_coalesced_count(line_view(l));
}

pub(crate) proof fn lemma_coalesced_count(x: Seq<Option<int>>)
    ensures
        coalesced(x).len() == x.len(),
        tiles(coalesced(x)).len() + merge_count(tiles(x)) == tiles(x).len(),
{
    let ts = tiles(x);
    lemma_tiles_len(x);
    lemma_merge_run_len(ts);
    lemma_tiles_packed(merge_run(ts).0, x.len());
    lemma_merge_count(ts);
}

/// 1 for a tile, 0 for an empty cell.
pub open spec fn occupied(c: Option<int>) -> int {
    if c is Some {
        1
    } else {
        0
    }
}

pub(crate) proof fn lemma_tiles_len4(l: Seq<Option<int>>)
    requires
        l.len() == 4,
    ensures
        tiles(l).len() == occupied(l[0]) + occupied(l[1]) + occupied(l[2]) + occupied(l[3]),
{
    let l1 = l.drop_first();
    let l2 = l1.drop_first();
    let l3 = l2.drop_first();
    let l4 = l3.drop_first();
    assert(tiles(l4).len() == 0);
    assert(tiles(l3).len() == tiles(l4).len() + occupied(l[3]));
    assert(tiles(l2).len() == tiles(l3).len() + occupied(l[2]));
    assert(tiles(l1).len() == tiles(l2).len() + occupied(l[1]));
    assert(tiles(l).len() == tiles(l1).len() + occupied(l[0]));
}

/// A coalesced line in which no two neighbouring tiles are equal is left as
/// it is by a second pass.
pub proof fn lemma_coalesce_idempotent(l: [Option<u32>; 4])
    requires
        no_equal_neighbours(coalesced(line_view(l))),
    ensures
        coalesced(coalesced(line_view(l))) == coalesced(line_view(l)),
{
    let x = line_view(l);
    let o = merge_run(tiles(x)).0;
    lemma_tiles_len(x);
    lemma_merge_run_len(tiles(x));
    lemma_tiles_packed(o, 4);
    let c = coalesced(x);
    assert forall|k: int| 0 <= k < o.len() - 1 implies o[k] != #[trigger] o[k + 1] by {
        assert(c[3 - k] == Some(o[k]));
        assert(c[2 - k] == Some(o[k + 1]));
        assert(c[(2 - k) + 1] == c[3 - k]);
    }
    lemma_merge_run_distinct(o);
}

/// A sequence with the value of the cell appended when it holds a tile.
pub open spec fn push_tile(s: Seq<int>, c: Option<int>) -> Seq<int> {
    match c {
        Some(v) => s.push(v),
        None => s,
    }
}

pub(crate) proof fn lemma_tiles4(l: Seq<Option<int>>)
    requires
        l.len() == 4,
    ensures
        tiles(l) == push_tile(push_tile(push_tile(push_tile(seq![], l[3]), l[2]), l[1]), l[0]),
{
    let l1 = l.drop_first();
    let l2 = l1.drop_first();
    let l3 = l2.drop_first();
    let l4 = l3.drop_first();
    assert(tiles(l4) == Seq::<int>::empty());
    assert(tiles(l3) == push_tile(tiles(l4), l[3]));
    assert(tiles(l2) == push_tile(tiles(l3), l[2]));
    assert(tiles(l1) == push_tile(tiles(l2), l[1]));
    assert(tiles(l) == push_tile(tiles(l1), l[0]));
}

} // verus!
