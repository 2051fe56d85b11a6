//! Stitching line fragments into continuous lines, and merging geometries of one feature.
//!
//! Fragments meet where their ends fall into the same cell of a fine grid. A line is followed
//! from a fragment in both directions as long as the place that it has reached joins exactly two
//! fragments; at a fork or a dead end it stops.

use vstd::prelude::*;

use crate::geometry::{copy_coords, copy_lines, copy_polygons, Coord, Geometry, Polygon};
use crate::json::Real;
#[allow(unused_imports)]
use crate::geometry::{
    coords_view, lines_view, polygons_view, CoordView, GeometryView, PolygonView,
};
#[allow(unused_imports)]
use crate::floats::int_real;
#[allow(unused_imports)]
use crate::models::kind_of;

verus! {

/// A cell of the grid that the ends of lines are rounded to.
pub type Cell = (i64, i64);

// ---------------------------------------------------------------------------
// The model
// ---------------------------------------------------------------------------

/// A fragment in a chain: which one, and whether it is run through from its end.
pub struct StepView {
    pub segment: int,
    pub backward: bool,
}

pub open spec fn touches(s: (Cell, Cell), at: Cell) -> bool {
    s.0 == at || s.1 == at
}

/// How many fragments end in a cell.
pub open spec fn degree(segs: Seq<(Cell, Cell)>, at: Cell) -> nat
    decreases segs.len(),
{
    if segs.len() == 0 {
        0
    } else {
        degree(segs.drop_last(), at) + if touches(segs.last(), at) {
            1nat
        } else {
            0nat
        }
    }
}

/// The unused fragments that end in a cell.
pub open spec fn open_at(segs: Seq<(Cell, Cell)>, used: Seq<bool>, at: Cell) -> Seq<int>
    decreases segs.len(),
{
    if segs.len() == 0 {
        Seq::empty()
    } else {
        let before = open_at(segs.drop_last(), used, at);
        let i = segs.len() - 1;
        if touches(segs[i], at) && !used[i] {
            before.push(i)
        } else {
            before
        }
    }
}

/// The one way on from a cell: the single unused fragment where exactly two fragments meet.
pub open spec fn way_on(segs: Seq<(Cell, Cell)>, used: Seq<bool>, at: Cell) -> Option<int> {
    let open = open_at(segs, used, at);
    if degree(segs, at) == 2 && open.len() == 1 {
        Some(open[0])
    } else {
        None
    }
}

pub open spec fn unused_count(used: Seq<bool>) -> nat
    decreases used.len(),
{
    if used.len() == 0 {
        0
    } else {
        unused_count(used.drop_last()) + if used.last() {
            0nat
        } else {
            1nat
        }
    }
}

/// The cell in which a step starts, and the one in which it ends.
pub open spec fn step_start(segs: Seq<(Cell, Cell)>, s: StepView) -> Cell {
    if s.backward {
        segs[s.segment].1
    } else {
        segs[s.segment].0
    }
}

pub open spec fn step_end(segs: Seq<(Cell, Cell)>, s: StepView) -> Cell {
    if s.backward {
        segs[s.segment].0
    } else {
        segs[s.segment].1
    }
}

/// Follows the line on from a cell: what is used then, and the steps made.
pub open spec fn walk(
    segs: Seq<(Cell, Cell)>,
    used: Seq<bool>,
    at: Cell,
    done: Seq<StepView>,
) -> (Seq<bool>, Seq<StepView>)
    decreases unused_count(used),
{
    match way_on(segs, used, at) {
        Some(i) => if 0 <= i < used.len() && !used[i] {
            let step = StepView { segment: i, backward: segs[i].0 != at };
            proof {
                lemma_unused_shrinks(used, i);
            }
            walk(segs, used.update(i, true), step_end(segs, step), done.push(step))
        } else {
            (used, done)
        },
        None => (used, done),
    }
}

/// A step in the other direction.
pub open spec fn flipped(s: StepView) -> StepView {
    StepView { segment: s.segment, backward: !s.backward }
}

/// A chain run through from its end.
pub open spec fn turned(c: Seq<StepView>) -> Seq<StepView> {
    Seq::new(c.len(), |k: int| flipped(c[c.len() - 1 - k]))
}

/// The chain that a fragment is in: the fragment, what it leads to at its end, and what it leads
/// to at its start.
pub open spec fn run_from(segs: Seq<(Cell, Cell)>, used: Seq<bool>, from: int) -> (
    Seq<bool>,
    Seq<StepView>,
) {
    let start = StepView { segment: from, backward: false };
    let (u, ahead) = walk(segs, used.update(from, true), segs[from].1, seq![start]);
    let (v, back) = walk(segs, u, segs[from].0, turned(ahead));
    (v, turned(back))
}

/// The chains: from the first fragment on, each that no chain has used yet makes one.
pub open spec fn walks(
    segs: Seq<(Cell, Cell)>,
    from: int,
    used: Seq<bool>,
    chains: Seq<Seq<StepView>>,
) -> Seq<Seq<StepView>>
    decreases segs.len() - from,
{
    if from < 0 || from >= segs.len() {
        chains
    } else if used[from] {
        walks(segs, from + 1, used, chains)
    } else {
        let (u, c) = run_from(segs, used, from);
        walks(segs, from + 1, u, chains.push(c))
    }
}

pub open spec fn nothing_used(n: nat) -> Seq<bool> {
    Seq::new(n, |i: int| false)
}

/// All chains over the fragments.
pub open spec fn chains_of(segs: Seq<(Cell, Cell)>) -> Seq<Seq<StepView>> {
    walks(segs, 0, nothing_used(segs.len()), Seq::empty())
}

/// A fragment in the direction in which a step runs through it.
pub open spec fn oriented(parts: Seq<Seq<CoordView>>, s: StepView) -> Seq<CoordView> {
    if s.backward {
        parts[s.segment].reverse()
    } else {
        parts[s.segment]
    }
}

/// The line of a chain: its fragments one after the other, each shared end once.
pub open spec fn chain_line(parts: Seq<Seq<CoordView>>, steps: Seq<StepView>) -> Seq<CoordView>
    decreases steps.len(),
{
    if steps.len() == 0 {
        Seq::empty()
    } else if steps.len() == 1 {
        oriented(parts, steps[0])
    } else {
        chain_line(parts, steps.drop_last()) + oriented(parts, steps.last()).skip(1)
    }
}

/// A fragment takes part where it has two vertices at least and does not end in the cell in
/// which it starts.
pub open spec fn usable(part: Seq<CoordView>, ends: (Cell, Cell)) -> bool {
    part.len() >= 2 && ends.0 != ends.1
}

pub open spec fn usable_parts(
    parts: Seq<Seq<CoordView>>,
    ends: Seq<(Cell, Cell)>,
) -> Seq<Seq<CoordView>>
    decreases parts.len(),
{
    if parts.len() == 0 {
        Seq::empty()
    } else {
        let before = usable_parts(parts.drop_last(), ends);
        let i = parts.len() - 1;
        if usable(parts[i], ends[i]) {
            before.push(parts[i])
        } else {
            before
        }
    }
}

pub open spec fn usable_ends(
    parts: Seq<Seq<CoordView>>,
    ends: Seq<(Cell, Cell)>,
) -> Seq<(Cell, Cell)>
    decreases parts.len(),
{
    if parts.len() == 0 {
        Seq::empty()
    } else {
        let before = usable_ends(parts.drop_last(), ends);
        let i = parts.len() - 1;
        if usable(parts[i], ends[i]) {
            before.push(ends[i])
        } else {
            before
        }
    }
}

/// The lines that end in the cell in which they start.
pub open spec fn closed_lines(
    parts: Seq<Seq<CoordView>>,
    ends: Seq<(Cell, Cell)>,
) -> Seq<Seq<CoordView>>
    decreases parts.len(),
{
    if parts.len() == 0 {
        Seq::empty()
    } else {
        let before = closed_lines(parts.drop_last(), ends);
        let i = parts.len() - 1;
        if parts[i].len() >= 2 && ends[i].0 == ends[i].1 {
            before.push(parts[i])
        } else {
            before
        }
    }
}

/// The continuous lines that fragments make up, given the cells in which each ends.
pub open spec fn traced_lines(
    parts: Seq<Seq<CoordView>>,
    ends: Seq<(Cell, Cell)>,
) -> Seq<Seq<CoordView>> {
    let segs = usable_ends(parts, ends);
    let lines = usable_parts(parts, ends);
    chains_of(segs).map_values(|c: Seq<StepView>| chain_line(lines, c))
}

// ---------------------------------------------------------------------------
// Facts
// ---------------------------------------------------------------------------

pub proof fn lemma_unused_shrinks(used: Seq<bool>, i: int)
    requires
        0 <= i < used.len(),
        !used[i],
    ensures
        unused_count(used.update(i, true)) + 1 == unused_count(used),
    decreases used.len(),
{
    if i == used.len() - 1 {
        assert(used.update(i, true).drop_last() =~= used.drop_last());
    } else {
        lemma_unused_shrinks(used.drop_last(), i);
        assert(used.update(i, true).drop_last() =~= used.drop_last().update(i, true));
    }
}

proof fn lemma_open_at(segs: Seq<(Cell, Cell)>, used: Seq<bool>, at: Cell)
    ensures
        forall|k: int|
            0 <= k < open_at(segs, used, at).len() ==> {
                let i = #[trigger] open_at(segs, used, at)[k];
                0 <= i < segs.len() && touches(segs[i], at) && !used[i]
            },
    decreases segs.len(),
{
    if segs.len() > 0 {
        lemma_open_at(segs.drop_last(), used, at);
        let before = open_at(segs.drop_last(), used, at);
        assert forall|k: int| 0 <= k < open_at(segs, used, at).len() implies ({
            let i = #[trigger] open_at(segs, used, at)[k];
            0 <= i < segs.len() && touches(segs[i], at) && !used[i]
        }) by {
            if k < before.len() {
                assert(open_at(segs, used, at)[k] == before[k]);
            }
        }
    }
}

proof fn lemma_way_on(segs: Seq<(Cell, Cell)>, used: Seq<bool>, at: Cell)
    ensures
        way_on(segs, used, at) matches Some(i) ==> 0 <= i < segs.len() && touches(segs[i], at)
            && !used[i] && degree(segs, at) == 2,
{
    lemma_open_at(segs, used, at);
    if way_on(segs, used, at) is Some {
        assert(open_at(segs, used, at)[0] == way_on(segs, used, at)->0);
    }
}

/// Consecutive steps meet in a cell in which exactly two fragments end.
pub open spec fn linked(segs: Seq<(Cell, Cell)>, c: Seq<StepView>, k: int) -> bool {
    &&& step_end(segs, c[k - 1]) == step_start(segs, c[k])
    &&& degree(segs, step_end(segs, c[k - 1])) == 2
}

/// An unused fragment that ends in a cell is open there, and a used one makes the open ones fewer
/// than those that end there.
proof fn lemma_open_count(segs: Seq<(Cell, Cell)>, used: Seq<bool>, at: Cell, i: int)
    requires
        0 <= i < segs.len(),
        touches(segs[i], at),
    ensures
        !used[i] ==> open_at(segs, used, at).contains(i),
        used[i] ==> open_at(segs, used, at).len() < degree(segs, at),
        open_at(segs, used, at).len() <= degree(segs, at),
    decreases segs.len(),
{
    let d = segs.drop_last();
    let before = open_at(d, used, at);
    lemma_open_most(d, used, at);
    if i < segs.len() - 1 {
        lemma_open_count(d, used, at, i);
        if !used[i] {
            let k = choose|k: int| 0 <= k < before.len() && before[k] == i;
            assert(open_at(segs, used, at)[k] == i);
        }
    } else if !used[i] {
        assert(open_at(segs, used, at).last() == i);
    }
}

proof fn lemma_open_most(segs: Seq<(Cell, Cell)>, used: Seq<bool>, at: Cell)
    ensures
        open_at(segs, used, at).len() <= degree(segs, at),
    decreases segs.len(),
{
    if segs.len() > 0 {
        lemma_open_most(segs.drop_last(), used, at);
    }
}

/// All fragments that end in a cell are used.
spec fn spent(segs: Seq<(Cell, Cell)>, used: Seq<bool>, at: Cell) -> bool {
    forall|i: int| 0 <= i < segs.len() && touches(#[trigger] segs[i], at) ==> used[i]
}

/// Where there is no way on from a cell that joins two fragments, one of them used, both are.
proof fn lemma_no_way_on(segs: Seq<(Cell, Cell)>, used: Seq<bool>, at: Cell, i: int)
    requires
        way_on(segs, used, at) is None,
        0 <= i < segs.len(),
        touches(segs[i], at),
        used[i],
    ensures
        degree(segs, at) == 2 ==> spent(segs, used, at),
{
    lemma_open_count(segs, used, at, i);
    if degree(segs, at) == 2 {
        assert forall|j: int| 0 <= j < segs.len() && touches(#[trigger] segs[j], at) implies
            used[j] by {
            lemma_open_count(segs, used, at, j);
        }
    }
}

/// What holds of a chain between what was used before it and what is used with it.
spec fn is_run(
    segs: Seq<(Cell, Cell)>,
    before: Seq<bool>,
    used: Seq<bool>,
    c: Seq<StepView>,
) -> bool {
    &&& before.len() == segs.len()
    &&& used.len() == segs.len()
    &&& c.len() > 0
    &&& forall|k: int|
        0 <= k < c.len() ==> 0 <= (#[trigger] c[k]).segment < segs.len() && !before[c[k].segment]
            && used[c[k].segment]
    &&& forall|k: int, m: int|
        0 <= k < m < c.len() ==> (#[trigger] c[k]).segment != (#[trigger] c[m]).segment
    &&& forall|k: int| 1 <= k < c.len() ==> #[trigger] linked(segs, c, k)
    &&& forall|i: int|
        0 <= i < segs.len() ==> ((#[trigger] used[i]) <==> before[i] || exists|k: int|
            0 <= k < c.len() && (#[trigger] c[k]).segment == i)
}

proof fn lemma_turned(
    segs: Seq<(Cell, Cell)>,
    before: Seq<bool>,
    used: Seq<bool>,
    c: Seq<StepView>,
)
    requires
        is_run(segs, before, used, c),
    ensures
        is_run(segs, before, used, turned(c)),
        turned(turned(c)) == c,
        step_end(segs, turned(c).last()) == step_start(segs, c[0]),
        step_start(segs, turned(c)[0]) == step_end(segs, c.last()),
{
    let t = turned(c);
    let n = c.len() as int;
    assert(turned(t) =~= c);
    assert forall|k: int| 0 <= k < t.len() implies 0 <= (#[trigger] t[k]).segment < segs.len()
        && !before[t[k].segment] && used[t[k].segment] by {
        assert(t[k].segment == c[n - 1 - k].segment);
    }
    assert forall|k: int, m: int| 0 <= k < m < t.len() implies (#[trigger] t[k]).segment != (
    #[trigger] t[m]).segment by {
        assert(c[n - 1 - m].segment != c[n - 1 - k].segment);
    }
    assert forall|k: int| 1 <= k < t.len() implies #[trigger] linked(segs, t, k) by {
        assert(linked(segs, c, n - k));
        assert(t[k - 1] == flipped(c[n - k]));
        assert(t[k] == flipped(c[n - k - 1]));
    }
    assert forall|i: int| 0 <= i < segs.len() implies ((#[trigger] used[i]) <==> before[i]
        || exists|k: int| 0 <= k < t.len() && (#[trigger] t[k]).segment == i) by {
        if used[i] && !before[i] {
            let k = choose|k: int| 0 <= k < c.len() && (#[trigger] c[k]).segment == i;
            assert(t[n - 1 - k].segment == i);
        }
    }
}

proof fn lemma_walk(
    segs: Seq<(Cell, Cell)>,
    before: Seq<bool>,
    used: Seq<bool>,
    at: Cell,
    done: Seq<StepView>,
)
    requires
        is_run(segs, before, used, done),
        at == step_end(segs, done.last()),
    ensures
        ({
            let (u, c) = walk(segs, used, at, done);
            &&& is_run(segs, before, u, c)
            &&& c[0] == done[0]
            &&& way_on(segs, u, step_end(segs, c.last())) is None
            &&& forall|i: int| 0 <= i < segs.len() && used[i] ==> #[trigger] u[i]
        }),
    decreases unused_count(used),
{
    lemma_way_on(segs, used, at);
    match way_on(segs, used, at) {
        Some(i) => {
            let step = StepView { segment: i, backward: segs[i].0 != at };
            let used2 = used.update(i, true);
            let more = done.push(step);
            lemma_unused_shrinks(used, i);
            let n = done.len() as int;
            assert(more[n] == step);
            assert forall|k: int| 1 <= k < more.len() implies #[trigger] linked(segs, more, k) by {
                if k < n {
                    assert(linked(segs, done, k));
                }
            }
            assert forall|k: int, m: int| 0 <= k < m < more.len() implies (
            #[trigger] more[k]).segment != (#[trigger] more[m]).segment by {
                if m == n {
                    assert(used[done[k].segment]);
                }
            }
            assert forall|j: int| 0 <= j < segs.len() implies ((#[trigger] used2[j]) <==> before[j]
                || exists|k: int| 0 <= k < more.len() && (#[trigger] more[k]).segment == j) by {
                if j == i {
                    assert(more[n].segment == j);
                } else {
                    assert(used2[j] == used[j]);
                    if used[j] && !before[j] {
                        let k = choose|k: int| 0 <= k < done.len() && (#[trigger] done[k]).segment
                            == j;
                        assert(more[k].segment == j);
                    }
                    if exists|k: int| 0 <= k < more.len() && (#[trigger] more[k]).segment == j {
                        let k = choose|k: int| 0 <= k < more.len() && (#[trigger] more[k]).segment
                            == j;
                        assert(done[k].segment == j);
                    }
                }
            }
            assert(!before[i]) by {
                assert(!used[i]);
            }
            assert forall|k: int| 0 <= k < more.len() implies 0 <= (
            #[trigger] more[k]).segment < segs.len() && !before[more[k].segment]
                && used2[more[k].segment] by {
                if k < n {
                    assert(used[done[k].segment]);
                }
            }
            lemma_walk(segs, before, used2, step_end(segs, step), more);
            let (u, c) = walk(segs, used, at, done);
            assert forall|j: int| 0 <= j < segs.len() && used[j] implies #[trigger] u[j] by {
                assert(used2[j]);
            }
        },
        None => {},
    }
}

/// A chain joins no cell that it ends in with another chain: where two fragments end there, both
/// are used.
spec fn is_whole(segs: Seq<(Cell, Cell)>, used: Seq<bool>, c: Seq<StepView>) -> bool {
    &&& degree(segs, step_start(segs, c[0])) == 2 ==> spent(segs, used, step_start(segs, c[0]))
    &&& degree(segs, step_end(segs, c.last())) == 2 ==> spent(
        segs,
        used,
        step_end(segs, c.last()),
    )
}

proof fn lemma_run(segs: Seq<(Cell, Cell)>, used: Seq<bool>, from: int)
    requires
        used.len() == segs.len(),
        0 <= from < segs.len(),
        !used[from],
    ensures
        ({
            let (u, c) = run_from(segs, used, from);
            &&& is_run(segs, used, u, c)
            &&& u[from]
            &&& is_whole(segs, u, c)
        }),
{
    let start = StepView { segment: from, backward: false };
    let first = used.update(from, true);
    let one = seq![start];
    assert forall|i: int| 0 <= i < segs.len() implies ((#[trigger] first[i]) <==> used[i] || exists|
        k: int,
    | 0 <= k < one.len() && (#[trigger] one[k]).segment == i) by {
        if i == from {
            assert(one[0].segment == i);
        }
    }
    assert(first[from]);
    lemma_walk(segs, used, first, segs[from].1, one);
    let (u, ahead) = walk(segs, first, segs[from].1, one);
    lemma_turned(segs, used, u, ahead);
    let there = step_end(segs, ahead.last());
    lemma_walk(segs, used, u, segs[from].0, turned(ahead));
    let (v, back) = walk(segs, u, segs[from].0, turned(ahead));
    lemma_turned(segs, used, v, back);
    assert(v[from]) by {
        assert(u[from]);
    }
    // The far end is the one that the first walk reached.
    lemma_no_way_on(segs, u, there, ahead.last().segment);
    assert(degree(segs, there) == 2 ==> spent(segs, v, there)) by {
        if degree(segs, there) == 2 {
            assert forall|i: int| 0 <= i < segs.len() && touches(#[trigger] segs[i], there) implies
                v[i] by {
                assert(u[i]);
            }
        }
    }
    assert(step_end(segs, turned(back).last()) == there);
    let here = step_end(segs, back.last());
    lemma_no_way_on(segs, v, here, back.last().segment);
    assert(step_start(segs, turned(back)[0]) == here);
}

/// The step at place `k` of chain `c` is on fragment `i`.
pub open spec fn is_on(chains: Seq<Seq<StepView>>, c: int, k: int, i: int) -> bool {
    0 <= c < chains.len() && 0 <= k < chains[c].len() && chains[c][k].segment == i
}

/// Some chain has a step on fragment `i`.
pub open spec fn occurs(chains: Seq<Seq<StepView>>, i: int) -> bool {
    exists|c: int, k: int| #[trigger] is_on(chains, c, k, i)
}

/// What holds between the chains made so far and what is used.
spec fn accounted(segs: Seq<(Cell, Cell)>, used: Seq<bool>, chains: Seq<Seq<StepView>>) -> bool {
    &&& used.len() == segs.len()
    &&& forall|c: int, k: int, i: int| #[trigger]
        is_on(chains, c, k, i) ==> 0 <= i < segs.len() && used[i]
    &&& forall|i: int|
        0 <= i < segs.len() && #[trigger] used[i] ==> exists|c: int, k: int| #[trigger]
            is_on(chains, c, k, i)
    &&& forall|c: int, k: int, c2: int, k2: int, i: int| #[trigger]
        is_on(chains, c, k, i) && #[trigger] is_on(chains, c2, k2, i) ==> c == c2 && k == k2
    &&& forall|c: int, k: int|
        0 <= c < chains.len() && 1 <= k < chains[c].len() ==> #[trigger] linked(segs, chains[c], k)
    &&& forall|c: int| 0 <= c < chains.len() ==> (#[trigger] chains[c]).len() > 0
    &&& forall|c: int| 0 <= c < chains.len() ==> is_whole(segs, used, #[trigger] chains[c])
    &&& forall|c: int, d: int, at: Cell|
        0 <= c < d < chains.len() && #[trigger] ends_at(segs, chains[c], at) && #[trigger] ends_at(
            segs,
            chains[d],
            at,
        ) ==> degree(segs, at) != 2
}

/// A chain starts or ends in a cell.
pub open spec fn ends_at(segs: Seq<(Cell, Cell)>, c: Seq<StepView>, at: Cell) -> bool {
    step_start(segs, c[0]) == at || step_end(segs, c.last()) == at
}

proof fn lemma_walks(
    segs: Seq<(Cell, Cell)>,
    from: int,
    used: Seq<bool>,
    chains: Seq<Seq<StepView>>,
)
    requires
        accounted(segs, used, chains),
        0 <= from <= segs.len(),
        forall|i: int| 0 <= i < from ==> #[trigger] used[i],
    ensures
        accounted(segs, Seq::new(segs.len(), |i: int| true), walks(segs, from, used, chains)),
    decreases segs.len() - from,
{
    if from >= segs.len() {
        assert(used =~= Seq::new(segs.len(), |i: int| true));
    } else if used[from] {
        lemma_walks(segs, from + 1, used, chains);
    } else {
        lemma_run(segs, used, from);
        let (u, c) = run_from(segs, used, from);
        let more = chains.push(c);
        let n = chains.len() as int;
        assert forall|i: int| 0 <= i < used.len() && used[i] implies #[trigger] u[i] by {}
        assert forall|a: int, k: int, i: int| #[trigger] is_on(more, a, k, i) implies 0 <= i
            < segs.len() && u[i] && (a == n || is_on(chains, a, k, i)) && (a == n ==> !used[i]) by {
            if a == n {
                assert(c[k].segment == i);
            } else {
                assert(is_on(chains, a, k, i));
            }
        }
        assert forall|i: int| 0 <= i < segs.len() && #[trigger] u[i] implies exists|
            a: int,
            k: int,
        | #[trigger] is_on(more, a, k, i) by {
            if used[i] {
                let (a, k) = choose|a: int, k: int| #[trigger] is_on(chains, a, k, i);
                assert(is_on(more, a, k, i));
            } else {
                let k = choose|k: int| 0 <= k < c.len() && (#[trigger] c[k]).segment == i;
                assert(is_on(more, n, k, i));
            }
        }
        assert forall|a: int, k: int, a2: int, k2: int, i: int| #[trigger]
            is_on(more, a, k, i) && #[trigger] is_on(more, a2, k2, i) implies a == a2 && k == k2 by {
            if a == n && a2 == n {
                assert(c[k].segment == c[k2].segment);
            } else if a < n && a2 < n {
                assert(is_on(chains, a, k, i));
                assert(is_on(chains, a2, k2, i));
            } else if a == n {
                assert(is_on(chains, a2, k2, i));
            } else {
                assert(is_on(chains, a, k, i));
            }
        }
        assert forall|a: int, k: int| 0 <= a < more.len() && 1 <= k < more[a].len() implies
            #[trigger] linked(segs, more[a], k) by {
            if a < n {
                assert(linked(segs, chains[a], k));
            } else {
                assert(linked(segs, c, k));
            }
        }
        assert forall|a: int| 0 <= a < more.len() implies is_whole(segs, u, #[trigger] more[a]) by {
            if a < n {
                assert(is_whole(segs, used, chains[a]));
                assert forall|at: Cell| #[trigger] spent(segs, used, at) implies spent(
                    segs,
                    u,
                    at,
                ) by {
                    assert forall|i: int| 0 <= i < segs.len() && touches(
                        #[trigger] segs[i],
                        at,
                    ) implies u[i] by {
                        assert(used[i]);
                    }
                }
            }
        }
        assert forall|a: int, d: int, at: Cell|
            0 <= a < d < more.len() && #[trigger] ends_at(segs, more[a], at) && #[trigger] ends_at(
                segs,
                more[d],
                at,
            ) implies degree(segs, at) != 2 by {
            if d < n {
                assert(ends_at(segs, chains[a], at));
                assert(ends_at(segs, chains[d], at));
            } else {
                assert(is_whole(segs, used, chains[a]));
                assert(!used[c[0].segment] && !used[c[c.len() - 1].segment]);
                assert(touches(segs[c[0].segment], step_start(segs, c[0])));
                assert(touches(segs[c.last().segment], step_end(segs, c.last())));
            }
        }
        assert forall|i: int| 0 <= i < from + 1 implies #[trigger] u[i] by {
            if i < from {
                assert(used[i]);
            }
        }
        lemma_walks(segs, from + 1, u, more);
    }
}

/// Every usable fragment is run through exactly once, by exactly one chain.
pub proof fn each_fragment_once(segs: Seq<(Cell, Cell)>)
    ensures
        forall|i: int| 0 <= i < segs.len() ==> #[trigger] occurs(chains_of(segs), i),
        forall|c: int, k: int, c2: int, k2: int, i: int| #[trigger]
            is_on(chains_of(segs), c, k, i) && #[trigger] is_on(chains_of(segs), c2, k2, i) ==> c
                == c2 && k == k2,
        forall|c: int, k: int, i: int| #[trigger]
            is_on(chains_of(segs), c, k, i) ==> 0 <= i < segs.len(),
{
    let used = nothing_used(segs.len());
    lemma_walks(segs, 0, used, Seq::empty());
    let all = Seq::new(segs.len(), |i: int| true);
    assert forall|i: int| 0 <= i < segs.len() implies #[trigger] occurs(chains_of(segs), i) by {
        assert(all[i]);
    }
}

/// A chain never runs through a fork or past a dead end: wherever it passes from one fragment to
/// the next, the two ends lie in one cell and no third fragment ends there.
pub proof fn chains_pass_no_fork(segs: Seq<(Cell, Cell)>, c: int, k: int)
    requires
        0 <= c < chains_of(segs).len(),
        1 <= k < chains_of(segs)[c].len(),
    ensures
        linked(segs, chains_of(segs)[c], k),
{
    lemma_walks(segs, 0, nothing_used(segs.len()), Seq::empty());
}

/// Only forks and dead ends terminate a chain: no two chains end in one cell in which exactly two
/// fragments end.
pub proof fn only_forks_and_dead_ends_stop(segs: Seq<(Cell, Cell)>, c: int, d: int, at: Cell)
    requires
        0 <= c < chains_of(segs).len(),
        0 <= d < chains_of(segs).len(),
        c != d,
        ends_at(segs, chains_of(segs)[c], at),
        ends_at(segs, chains_of(segs)[d], at),
    ensures
        degree(segs, at) != 2,
{
    lemma_walks(segs, 0, nothing_used(segs.len()), Seq::empty());
    if d < c {
        assert(ends_at(segs, chains_of(segs)[d], at));
    }
}

/// The fragments that end in a cell.
spec fn fragments_at(segs: Seq<(Cell, Cell)>, at: Cell) -> Set<int> {
    Set::new(|i: int| 0 <= i < segs.len() && touches(segs[i], at))
}

proof fn lemma_degree_counts(segs: Seq<(Cell, Cell)>, at: Cell)
    ensures
        fragments_at(segs, at).finite(),
        fragments_at(segs, at).len() == degree(segs, at),
    decreases segs.len(),
{
    if segs.len() == 0 {
        assert(fragments_at(segs, at) =~= Set::empty());
    } else {
        let d = segs.drop_last();
        let n = segs.len() - 1;
        lemma_degree_counts(d, at);
        if touches(segs[n], at) {
            assert(fragments_at(segs, at) =~= fragments_at(d, at).insert(n));
        } else {
            assert(fragments_at(segs, at) =~= fragments_at(d, at));
        }
    }
}

/// The cells in which the chains start and end.
pub open spec fn chain_ends(segs: Seq<(Cell, Cell)>) -> Seq<(Cell, Cell)> {
    chains_of(segs).map_values(
        |c: Seq<StepView>| (step_start(segs, c[0]), step_end(segs, c.last())),
    )
}

/// A fragment that ends in a cell where a chain stops is at the end of its own chain there.
proof fn lemma_at_the_end(segs: Seq<(Cell, Cell)>, at: Cell, i: int) -> (r: (int, int))
    requires
        0 <= i < segs.len(),
        touches(segs[i], at),
        degree(segs, at) != 2,
    ensures
        is_on(chains_of(segs), r.0, r.1, i),
        ({
            let c = chains_of(segs)[r.0];
            ||| r.1 == 0 && step_start(segs, c[0]) == at
            ||| r.1 == c.len() - 1 && step_end(segs, c.last()) == at
        }),
{
    let cs = chains_of(segs);
    each_fragment_once(segs);
    assert(occurs(cs, i));
    let (e, k) = choose|e: int, k: int| #[trigger] is_on(cs, e, k, i);
    let c = cs[e];
    if step_start(segs, c[k]) == at {
        if k > 0 {
            chains_pass_no_fork(segs, e, k);
        }
    } else {
        assert(step_end(segs, c[k]) == at);
        if k < c.len() - 1 {
            chains_pass_no_fork(segs, e, k + 1);
        }
    }
    (e, k)
}

/// Two fragments that end in such a cell are in different chains, unless their chain is closed.
proof fn lemma_different_chains(segs: Seq<(Cell, Cell)>, at: Cell, i: int, j: int)
    requires
        0 <= i < segs.len(),
        0 <= j < segs.len(),
        i != j,
        touches(segs[i], at),
        touches(segs[j], at),
        degree(segs, at) != 2,
        forall|c: int|
            0 <= c < chains_of(segs).len() ==> (#[trigger] chain_ends(segs)[c]).0 != chain_ends(
                segs,
            )[c].1,
    ensures
        chain_of(segs, i) != chain_of(segs, j),
        ends_at(segs, chains_of(segs)[chain_of(segs, i)], at),
        0 <= chain_of(segs, i) < chains_of(segs).len(),
{
    let cs = chains_of(segs);
    each_fragment_once(segs);
    let (a, x) = lemma_at_the_end(segs, at, i);
    let (b, y) = lemma_at_the_end(segs, at, j);
    assert(is_on(cs, a, x, i));
    assert(has_fragment(segs, a, i));
    let k = choose|k: int| is_on(cs, chain_of(segs, i), k, i);
    assert(is_on(cs, chain_of(segs, i), k, i));
    assert(chain_of(segs, i) == a);
    assert(is_on(cs, b, y, j));
    assert(has_fragment(segs, b, j));
    let m = choose|m: int| is_on(cs, chain_of(segs, j), m, j);
    assert(is_on(cs, chain_of(segs, j), m, j));
    assert(chain_of(segs, j) == b);
    if a == b {
        assert(chain_ends(segs)[a].0 != chain_ends(segs)[a].1);
        assert(x != y);
    }
}

/// The chain that a fragment is in.
spec fn chain_of(segs: Seq<(Cell, Cell)>, i: int) -> int {
    choose|c: int| has_fragment(segs, c, i)
}

spec fn has_fragment(segs: Seq<(Cell, Cell)>, c: int, i: int) -> bool {
    exists|k: int| is_on(chains_of(segs), c, k, i)
}

/// Chains cannot be joined any further: where none of them ends in the cell in which it starts, no
/// cell joins exactly two ends of chains.
pub proof fn chains_cannot_be_joined(segs: Seq<(Cell, Cell)>, c: int, at: Cell)
    requires
        forall|d: int|
            0 <= d < chains_of(segs).len() ==> (#[trigger] chain_ends(segs)[d]).0 != chain_ends(
                segs,
            )[d].1,
        0 <= c < chains_of(segs).len(),
        ends_at(segs, chains_of(segs)[c], at),
    ensures
        degree(chain_ends(segs), at) != 2,
{
    let ends = chain_ends(segs);
    let cs = chains_of(segs);
    if degree(ends, at) == 2 {
        lemma_degree_counts(ends, at);
        lemma_degree_counts(segs, at);
        let new = fragments_at(ends, at);
        let old = fragments_at(segs, at);
        assert(touches(ends[c], at));
        assert(new.contains(c));
        let others = new.remove(c);
        assert(others.len() == 1);
        let d = others.choose();
        assert(others.contains(d)) by {
            if others =~= Set::empty() {
                assert(others.len() == 0);
            }
        }
        assert(ends_at(segs, cs[d], at));
        only_forks_and_dead_ends_stop(segs, c, d, at);
        lemma_walks(segs, 0, nothing_used(segs.len()), Seq::empty());
        // Every fragment there is in a chain of its own.
        let f = end_fragment(segs, cs[c], at);
        let g = end_fragment(segs, cs[d], at);
        assert(is_on(cs, c, if step_start(segs, cs[c][0]) == at { 0 } else { cs[c].len() - 1 }, f));
        assert(is_on(cs, d, if step_start(segs, cs[d][0]) == at { 0 } else { cs[d].len() - 1 }, g));
        assert(old.contains(f) && old.contains(g));
        each_fragment_once(segs);
        assert(f != g);
        let rest = old.remove(f).remove(g);
        assert(old.len() >= 2) by {
            vstd::set_lib::lemma_len_subset(set![f, g], old);
            assert(set![f, g].len() == 2);
        }
        assert(rest.len() > 0);
        let h = rest.choose();
        assert(rest.contains(h)) by {
            if rest =~= Set::empty() {
                assert(rest.len() == 0);
            }
        }
        lemma_different_chains(segs, at, f, g);
        lemma_different_chains(segs, at, g, h);
        lemma_different_chains(segs, at, h, f);
        let (x, y, z) = (
            chain_of(segs, f),
            chain_of(segs, g),
            chain_of(segs, h),
        );
        assert(new.contains(x) && new.contains(y) && new.contains(z)) by {
            assert(touches(ends[x], at) && touches(ends[y], at) && touches(ends[z], at));
        }
        vstd::set_lib::lemma_len_subset(set![x, y, z], new);
        assert(set![x, y, z].len() == 3);
    }
}

/// The fragment with which a chain ends in a cell.
spec fn end_fragment(segs: Seq<(Cell, Cell)>, c: Seq<StepView>, at: Cell) -> int {
    if step_start(segs, c[0]) == at {
        c[0].segment
    } else {
        c.last().segment
    }
}

// ---------------------------------------------------------------------------
// Tracing
// ---------------------------------------------------------------------------

fn same_cell(a: Cell, b: Cell) -> (r: bool)
    ensures
        r == (a == b),
{
    a.0 == b.0 && a.1 == b.1
}

/// Finds the one way on from a cell.
fn find_way(segs: &Vec<(Cell, Cell)>, used: &Vec<bool>, at: Cell) -> (r: Option<usize>)
    requires
        used@.len() == segs@.len(),
    ensures
        match r {
            Some(i) => way_on(segs@, used@, at) == Some(i as int),
            None => way_on(segs@, used@, at) is None,
        },
{
    let n = segs.len();
    let mut ends: usize = 0;
    let mut free: usize = 0;
    let mut first: usize = 0;
    let mut i: usize = 0;
    while i < n
        invariant
            i <= n,
            n == segs@.len(),
            used@.len() == segs@.len(),
            ends <= i,
            free <= i,
            ends == degree(segs@.take(i as int), at),
            free == open_at(segs@.take(i as int), used@, at).len(),
            free > 0 ==> first == open_at(segs@.take(i as int), used@, at)[0],
        decreases n - i,
    {
        proof {
            assert(segs@.take(i + 1).drop_last() =~= segs@.take(i as int));
        }
        let s = segs[i];
        if same_cell(s.0, at) || same_cell(s.1, at) {
            ends += 1;
            if !used[i] {
                if free == 0 {
                    first = i;
                }
                free += 1;
            }
        }
        i += 1;
    }
    proof {
        assert(segs@.take(n as int) =~= segs@);
    }
    if ends == 2 && free == 1 {
        Some(first)
    } else {
        None
    }
}

/// Adds a fragment, in its direction, to a line that ends where the fragment starts.
fn append_tail(line: &mut Vec<Coord>, part: &Vec<Coord>, backward: bool)
    requires
        part@.len() > 0,
    ensures
        coords_view(final(line)@) == coords_view(old(line)@) + (if backward {
            coords_view(part@).reverse()
        } else {
            coords_view(part@)
        }).skip(1),
{
    let ghost start = coords_view(line@);
    let ghost way = if backward {
        coords_view(part@).reverse()
    } else {
        coords_view(part@)
    };
    let n = part.len();
    let mut i: usize = 1;
    proof {
        assert(coords_view(line@) =~= start + way.subrange(1, 1));
    }
    while i < n
        invariant
            1 <= i <= n,
            n == part@.len(),
            way == (if backward {
                coords_view(part@).reverse()
            } else {
                coords_view(part@)
            }),
            coords_view(line@) == start + way.subrange(1, i as int),
        decreases n - i,
    {
        let ghost before = line@;
        if backward {
            line.push(part[n - 1 - i].copy());
        } else {
            line.push(part[i].copy());
        }
        i += 1;
        proof {
            assert(way.len() == n);
            assert(line@.last()@ == way[i - 1]);
            assert(coords_view(line@) =~= coords_view(before).push(way[i - 1]));
            assert(way.subrange(1, i as int) =~= way.subrange(1, i - 1).push(way[i - 1]));
            assert(coords_view(line@) =~= start + way.subrange(1, i as int));
        }
    }
    proof {
        assert(way.subrange(1, n as int) =~= way.skip(1));
    }
}

/// A fragment in a chain, and whether it is run through from its end.
#[derive(Clone, Copy)]
struct Step {
    segment: usize,
    backward: bool,
}

impl View for Step {
    type V = StepView;

    closed spec fn view(&self) -> StepView {
        StepView { segment: self.segment as int, backward: self.backward }
    }
}

spec fn steps_view(steps: Seq<Step>) -> Seq<StepView> {
    steps.map_values(|s: Step| s@)
}

/// Follows the line on from a cell.
fn follow(
    segs: &Vec<(Cell, Cell)>,
    used: &mut Vec<bool>,
    from: Cell,
    steps: &mut Vec<Step>,
)
    requires
        old(used)@.len() == segs@.len(),
        forall|k: int|
            0 <= k < old(steps)@.len() ==> (#[trigger] old(steps)@[k]).segment < segs@.len(),
    ensures
        (final(used)@, steps_view(final(steps)@)) == walk(
            segs@,
            old(used)@,
            from,
            steps_view(old(steps)@),
        ),
        final(used)@.len() == segs@.len(),
        forall|k: int|
            0 <= k < final(steps)@.len() ==> (#[trigger] final(steps)@[k]).segment < segs@.len(),
        final(steps)@.len() >= old(steps)@.len(),
{
    let ghost used0 = used@;
    let ghost steps0 = steps_view(steps@);
    let mut at = from;
    loop
        invariant
            used@.len() == segs@.len(),
            steps@.len() >= steps0.len(),
            forall|k: int| 0 <= k < steps@.len() ==> (#[trigger] steps@[k]).segment < segs@.len(),
            walk(segs@, used@, at, steps_view(steps@)) == walk(segs@, used0, from, steps0),
        ensures
            way_on(segs@, used@, at) is None,
        decreases unused_count(used@),
    {
        match find_way(segs, used, at) {
            None => {
                break;
            },
            Some(i) => {
                proof {
                    lemma_way_on(segs@, used@, at);
                    lemma_unused_shrinks(used@, i as int);
                }
                let s = segs[i];
                let backward = !same_cell(s.0, at);
                let step = Step { segment: i, backward };
                let ghost before = steps@;
                used.set(i, true);
                steps.push(step);
                at = if backward {
                    s.0
                } else {
                    s.1
                };
                proof {
                    assert(steps_view(steps@) =~= steps_view(before).push(step@));
                }
            },
        }
    }
}

fn turn(steps: &Vec<Step>) -> (r: Vec<Step>)
    ensures
        steps_view(r@) == turned(steps_view(steps@)),
        r@.len() == steps@.len(),
        forall|k: int|
            0 <= k < r@.len() ==> (#[trigger] r@[k]).segment == steps@[steps@.len() - 1 - k].segment,
{
    let n = steps.len();
    let mut out: Vec<Step> = Vec::new();
    let mut i: usize = 0;
    while i < n
        invariant
            i <= n,
            n == steps@.len(),
            out@.len() == i,
            forall|k: int|
                0 <= k < i ==> (#[trigger] out@[k])@ == flipped(steps@[n - 1 - k]@)
                    && out@[k].segment == steps@[n - 1 - k].segment,
        decreases n - i,
    {
        let s = steps[n - 1 - i];
        out.push(Step { segment: s.segment, backward: !s.backward });
        i += 1;
    }
    proof {
        assert(steps_view(out@) =~= turned(steps_view(steps@)));
    }
    out
}

/// Finds the chain that a fragment is in.
fn find_run(segs: &Vec<(Cell, Cell)>, used: &mut Vec<bool>, start: usize) -> (r: Vec<Step>)
    requires
        old(used)@.len() == segs@.len(),
        start < segs@.len(),
    ensures
        (final(used)@, steps_view(r@)) == run_from(segs@, old(used)@, start as int),
        final(used)@.len() == segs@.len(),
        r@.len() > 0,
        forall|k: int| 0 <= k < r@.len() ==> (#[trigger] r@[k]).segment < segs@.len(),
{
    let s = segs[start];
    let first = Step { segment: start, backward: false };
    let mut steps: Vec<Step> = Vec::new();
    used.set(start, true);
    steps.push(first);
    proof {
        assert(steps_view(steps@) =~= seq![first@]);
    }
    follow(segs, used, s.1, &mut steps);
    let mut back = turn(&steps);
    follow(segs, used, s.0, &mut back);
    turn(&back)
}

/// The line of a chain.
fn line_of(lines: &Vec<Vec<Coord>>, steps: &Vec<Step>) -> (r: Vec<Coord>)
    requires
        steps@.len() > 0,
        forall|k: int| 0 <= k < steps@.len() ==> (#[trigger] steps@[k]).segment < lines@.len(),
        forall|i: int| 0 <= i < lines@.len() ==> (#[trigger] lines@[i])@.len() > 0,
    ensures
        coords_view(r@) == chain_line(lines_view(lines@), steps_view(steps@)),
{
    let ghost view = lines_view(lines@);
    let ghost all = steps_view(steps@);
    let n = steps.len();
    let first = steps[0];
    let part = &lines[first.segment];
    let mut line = oriented_part(part, first.backward);
    proof {
        assert(all.take(1)[0] == first@);
        assert(view[first.segment as int] == coords_view(part@));
    }
    let mut i: usize = 1;
    while i < n
        invariant
            1 <= i <= n,
            n == steps@.len(),
            view == lines_view(lines@),
            all == steps_view(steps@),
            forall|k: int| 0 <= k < steps@.len() ==> (#[trigger] steps@[k]).segment < lines@.len(),
            forall|k: int| 0 <= k < lines@.len() ==> (#[trigger] lines@[k])@.len() > 0,
            coords_view(line@) == chain_line(view, all.take(i as int)),
        decreases n - i,
    {
        let s = steps[i];
        proof {
            assert(all.take(i + 1).drop_last() =~= all.take(i as int));
            assert(all.take(i + 1).last() == s@);
            assert(view[s.segment as int] == coords_view(lines@[s.segment as int]@));
        }
        append_tail(&mut line, &lines[s.segment], s.backward);
        i += 1;
    }
    proof {
        assert(all.take(n as int) =~= all);
    }
    line
}

fn oriented_part(part: &Vec<Coord>, backward: bool) -> (r: Vec<Coord>)
    requires
        part@.len() > 0,
    ensures
        coords_view(r@) == (if backward {
            coords_view(part@).reverse()
        } else {
            coords_view(part@)
        }),
{
    let n = part.len();
    let mut out: Vec<Coord> = Vec::new();
    if backward {
        out.push(part[n - 1].copy());
    } else {
        out.push(part[0].copy());
    }
    let ghost head = coords_view(out@);
    append_tail(&mut out, part, backward);
    proof {
        let way = if backward {
            coords_view(part@).reverse()
        } else {
            coords_view(part@)
        };
        assert(head =~= seq![way[0]]);
        assert(coords_view(out@) =~= way);
    }
    out
}

/// Rebuilds continuous lines from fragments, given the cells in which each starts and ends.
pub fn trace_chains(parts: Vec<Vec<Coord>>, ends: &Vec<(Cell, Cell)>) -> (r: Vec<Vec<Coord>>)
    requires
        parts@.len() == ends@.len(),
    ensures
        lines_view(r@) == traced_lines(lines_view(parts@), ends@),
{
    let ghost all = lines_view(parts@);
    let mut segs: Vec<(Cell, Cell)> = Vec::new();
    let mut lines: Vec<Vec<Coord>> = Vec::new();
    let mut i: usize = 0;
    let total = ends.len();
    for part in it: parts
        invariant
            it.seq() == parts@,
            total == ends@.len(),
            i == it.index(),
            i <= ends@.len(),
            parts@.len() == ends@.len(),
            all == lines_view(parts@),
            segs@ == usable_ends(all.take(i as int), ends@),
            lines_view(lines@) == usable_parts(all.take(i as int), ends@),
            segs@.len() == lines@.len(),
            forall|k: int| 0 <= k < lines@.len() ==> (#[trigger] lines@[k])@.len() > 0,
    {
        proof {
            assert(all.take(i + 1).drop_last() =~= all.take(i as int));
            assert(all.take(i + 1)[i as int] == coords_view(part@));
        }
        let e = ends[i];
        if part.len() >= 2 && !same_cell(e.0, e.1) {
            let ghost before = lines@;
            segs.push(e);
            lines.push(part);
            proof {
                assert(lines_view(lines@) =~= lines_view(before).push(coords_view(part@)));
            }
        }
        i += 1;
    }
    proof {
        assert(all.take(parts@.len() as int) =~= all);
    }
    let n = segs.len();
    let mut used: Vec<bool> = Vec::new();
    let mut j: usize = 0;
    while j < n
        invariant
            j <= n,
            used@ == nothing_used(j as nat),
        decreases n - j,
    {
        used.push(false);
        j += 1;
        proof {
            assert(used@ =~= nothing_used(j as nat));
        }
    }
    let mut out: Vec<Vec<Coord>> = Vec::new();
    let ghost mut chains: Seq<Seq<StepView>> = Seq::empty();
    let ghost view = lines_view(lines@);
    let mut start: usize = 0;
    proof {
        assert(lines_view(out@) =~= chains.map_values(|c: Seq<StepView>| chain_line(view, c)));
    }
    while start < n
        invariant
            start <= n,
            n == segs@.len(),
            used@.len() == segs@.len(),
            lines@.len() == segs@.len(),
            view == lines_view(lines@),
            forall|k: int| 0 <= k < lines@.len() ==> (#[trigger] lines@[k])@.len() > 0,
            walks(segs@, start as int, used@, chains) == chains_of(segs@),
            lines_view(out@) == chains.map_values(|c: Seq<StepView>| chain_line(view, c)),
        decreases n - start,
    {
        if !used[start] {
            let ghost c = run_from(segs@, used@, start as int).1;
            let ghost before = out@;
            let steps = find_run(&segs, &mut used, start);
            out.push(line_of(&lines, &steps));
            proof {
                assert(lines_view(out@) =~= lines_view(before).push(chain_line(view, c)));
                chains = chains.push(c);
                assert(lines_view(out@) =~= chains.map_values(
                    |c: Seq<StepView>| chain_line(view, c),
                ));
            }
        }
        start += 1;
    }
    out
}

// ---------------------------------------------------------------------------
// Merging
// ---------------------------------------------------------------------------

/// The lines that a geometry is made of.
pub open spec fn lines_in(g: GeometryView) -> Seq<Seq<CoordView>> {
    match g {
        GeometryView::Line(a, b) => seq![seq![a, b]],
        GeometryView::LineString(cs) => seq![cs],
        GeometryView::MultiLineString(ls) => ls,
        _ => Seq::empty(),
    }
}

/// The polygons that a geometry is made of.
pub open spec fn polygons_in(g: GeometryView) -> Seq<PolygonView> {
    match g {
        GeometryView::Polygon(p) => seq![p],
        GeometryView::MultiPolygon(ps) => ps,
        _ => Seq::empty(),
    }
}

/// The points that a geometry is made of.
pub open spec fn points_in(g: GeometryView) -> Seq<CoordView> {
    match g {
        GeometryView::Point(c) => seq![c],
        GeometryView::MultiPoint(cs) => cs,
        _ => Seq::empty(),
    }
}

pub open spec fn all_lines(gs: Seq<GeometryView>) -> Seq<Seq<CoordView>>
    decreases gs.len(),
{
    if gs.len() == 0 {
        Seq::empty()
    } else {
        all_lines(gs.drop_last()) + lines_in(gs.last())
    }
}

pub open spec fn all_polygons(gs: Seq<GeometryView>) -> Seq<PolygonView>
    decreases gs.len(),
{
    if gs.len() == 0 {
        Seq::empty()
    } else {
        all_polygons(gs.drop_last()) + polygons_in(gs.last())
    }
}

pub open spec fn all_points(gs: Seq<GeometryView>) -> Seq<CoordView>
    decreases gs.len(),
{
    if gs.len() == 0 {
        Seq::empty()
    } else {
        all_points(gs.drop_last()) + points_in(gs.last())
    }
}

/// The point with both coordinates zero.
pub open spec fn origin() -> CoordView {
    CoordView { x: int_real(0), y: int_real(0) }
}

/// Parts of one sort make one geometry of that sort; where there is no part, or parts of several
/// sorts, the first geometry stands for all.
pub open spec fn united(
    gs: Seq<GeometryView>,
    lines: Seq<Seq<CoordView>>,
    polygons: Seq<PolygonView>,
    points: Seq<CoordView>,
) -> GeometryView {
    if lines.len() > 0 && polygons.len() == 0 && points.len() == 0 {
        if lines.len() == 1 {
            GeometryView::LineString(lines[0])
        } else {
            GeometryView::MultiLineString(lines)
        }
    } else if lines.len() == 0 && polygons.len() > 0 && points.len() == 0 {
        if polygons.len() == 1 {
            GeometryView::Polygon(polygons[0])
        } else {
            GeometryView::MultiPolygon(polygons)
        }
    } else if lines.len() == 0 && polygons.len() == 0 && points.len() > 0 {
        if points.len() == 1 {
            GeometryView::Point(points[0])
        } else {
            GeometryView::MultiPoint(points)
        }
    } else if gs.len() > 0 {
        gs[0]
    } else {
        GeometryView::Point(origin())
    }
}

/// The merged geometry, given the cells in which each of the lines ends: fragments are stitched,
/// and closed lines stand beside the chains.
pub open spec fn merged(gs: Seq<GeometryView>, ends: Seq<(Cell, Cell)>) -> GeometryView {
    let lines = all_lines(gs);
    united(
        gs,
        traced_lines(lines, ends) + closed_lines(lines, ends),
        all_polygons(gs),
        all_points(gs),
    )
}

pub open spec fn geometries_view(gs: Seq<Geometry>) -> Seq<GeometryView> {
    gs.map_values(|g: Geometry| g@)
}

/// The lines that geometries are made of, in order.
pub fn lines_of(geoms: &Vec<Geometry>) -> (r: Vec<Vec<Coord>>)
    ensures
        lines_view(r@) == all_lines(geometries_view(geoms@)),
{
    let n = geoms.len();
    let ghost gs = geometries_view(geoms@);
    let mut out: Vec<Vec<Coord>> = Vec::new();
    let mut i: usize = 0;
    while i < n
        invariant
            i <= n,
            n == geoms@.len(),
            gs == geometries_view(geoms@),
            lines_view(out@) == all_lines(gs.take(i as int)),
        decreases n - i,
    {
        proof {
            assert(gs.take(i + 1).drop_last() =~= gs.take(i as int));
        }
        let ghost before = out@;
        match &geoms[i] {
            Geometry::Line(a, b) => {
                let mut l: Vec<Coord> = Vec::new();
                l.push(a.copy());
                l.push(b.copy());
                proof {
                    assert(coords_view(l@) =~= seq![a@, b@]);
                }
                out.push(l);
            },
            Geometry::LineString(cs) => {
                out.push(copy_coords(cs));
            },
            Geometry::MultiLineString(ls) => {
                let mut more = copy_lines(ls);
                out.append(&mut more);
            },
            _ => {},
        }
        proof {
            assert(lines_view(out@) =~= lines_view(before) + lines_in(gs[i as int]));
        }
        i += 1;
    }
    proof {
        assert(gs.take(n as int) =~= gs);
    }
    out
}

fn polygons_of(geoms: &Vec<Geometry>) -> (r: Vec<Polygon>)
    ensures
        polygons_view(r@) == all_polygons(geometries_view(geoms@)),
{
    let n = geoms.len();
    let ghost gs = geometries_view(geoms@);
    let mut out: Vec<Polygon> = Vec::new();
    let mut i: usize = 0;
    while i < n
        invariant
            i <= n,
            n == geoms@.len(),
            gs == geometries_view(geoms@),
            polygons_view(out@) == all_polygons(gs.take(i as int)),
        decreases n - i,
    {
        proof {
            assert(gs.take(i + 1).drop_last() =~= gs.take(i as int));
        }
        let ghost before = out@;
        match &geoms[i] {
            Geometry::Polygon(p) => {
                out.push(p.copy());
            },
            Geometry::MultiPolygon(ps) => {
                let mut more = copy_polygons(ps);
                out.append(&mut more);
            },
            _ => {},
        }
        proof {
            assert(polygons_view(out@) =~= polygons_view(before) + polygons_in(gs[i as int]));
        }
        i += 1;
    }
    proof {
        assert(gs.take(n as int) =~= gs);
    }
    out
}

fn points_of(geoms: &Vec<Geometry>) -> (r: Vec<Coord>)
    ensures
        coords_view(r@) == all_points(geometries_view(geoms@)),
{
    let n = geoms.len();
    let ghost gs = geometries_view(geoms@);
    let mut out: Vec<Coord> = Vec::new();
    let mut i: usize = 0;
    while i < n
        invariant
            i <= n,
            n == geoms@.len(),
            gs == geometries_view(geoms@),
            coords_view(out@) == all_points(gs.take(i as int)),
        decreases n - i,
    {
        proof {
            assert(gs.take(i + 1).drop_last() =~= gs.take(i as int));
        }
        let ghost before = out@;
        match &geoms[i] {
            Geometry::Point(c) => {
                out.push(c.copy());
            },
            Geometry::MultiPoint(cs) => {
                let mut more = copy_coords(cs);
                out.append(&mut more);
            },
            _ => {},
        }
        proof {
            assert(coords_view(out@) =~= coords_view(before) + points_in(gs[i as int]));
        }
        i += 1;
    }
    proof {
        assert(gs.take(n as int) =~= gs);
    }
    out
}

/// Makes one geometry of parts of one sort; else the first geometry stands for all.
fn unite(
    geoms: &Vec<Geometry>,
    lines: Vec<Vec<Coord>>,
    polygons: Vec<Polygon>,
    points: Vec<Coord>,
) -> (r: Geometry)
    ensures
        r@ == united(
            geometries_view(geoms@),
            lines_view(lines@),
            polygons_view(polygons@),
            coords_view(points@),
        ),
{
    let mut lines = lines;
    let mut polygons = polygons;
    let mut points = points;
    if lines.len() > 0 && polygons.len() == 0 && points.len() == 0 {
        if lines.len() == 1 {
            Geometry::LineString(lines.swap_remove(0))
        } else {
            Geometry::MultiLineString(lines)
        }
    } else if lines.len() == 0 && polygons.len() > 0 && points.len() == 0 {
        if polygons.len() == 1 {
            Geometry::Polygon(polygons.swap_remove(0))
        } else {
            Geometry::MultiPolygon(polygons)
        }
    } else if lines.len() == 0 && polygons.len() == 0 && points.len() > 0 {
        if points.len() == 1 {
            Geometry::Point(points.swap_remove(0))
        } else {
            Geometry::MultiPoint(points)
        }
    } else if geoms.len() > 0 {
        geoms[0].copy()
    } else {
        Geometry::Point(Coord { x: Real::from_u64(0), y: Real::from_u64(0) })
    }
}

fn closed_of(parts: &Vec<Vec<Coord>>, ends: &Vec<(Cell, Cell)>) -> (r: Vec<Vec<Coord>>)
    requires
        parts@.len() == ends@.len(),
    ensures
        lines_view(r@) == closed_lines(lines_view(parts@), ends@),
{
    let n = parts.len();
    let ghost all = lines_view(parts@);
    let mut out: Vec<Vec<Coord>> = Vec::new();
    let mut i: usize = 0;
    proof {
        assert(lines_view(out@) =~= closed_lines(all.take(0), ends@));
    }
    while i < n
        invariant
            i <= n,
            n == parts@.len(),
            n == ends@.len(),
            all == lines_view(parts@),
            lines_view(out@) == closed_lines(all.take(i as int), ends@),
        decreases n - i,
    {
        proof {
            assert(all.take(i + 1).drop_last() =~= all.take(i as int));
            assert(all.take(i + 1)[i as int] == coords_view(parts@[i as int]@));
        }
        let e = ends[i];
        if parts[i].len() >= 2 && same_cell(e.0, e.1) {
            let ghost before = out@;
            out.push(copy_coords(&parts[i]));
            proof {
                assert(lines_view(out@) =~= lines_view(before).push(all[i as int]));
            }
        }
        i += 1;
    }
    proof {
        assert(all.take(n as int) =~= all);
    }
    out
}

/// Merges geometries into one: line fragments are stitched first, closed lines follow, polygons
/// and points are collected, and a lone part is kept as it is. The cells are those in which each line of
/// [`lines_of`] starts and ends.
pub fn merge_geometries(geoms: &Vec<Geometry>, ends: &Vec<(Cell, Cell)>) -> (r: Geometry)
    requires
        ends@.len() == all_lines(geometries_view(geoms@)).len(),
    ensures
        r@ == merged(geometries_view(geoms@), ends@),
{
    let parts = lines_of(geoms);
    let mut closed = closed_of(&parts, ends);
    let mut lines = trace_chains(parts, ends);
    let ghost chains = lines@;
    let ghost loops = closed@;
    lines.append(&mut closed);
    proof {
        assert(lines_view(lines@) =~= lines_view(chains) + lines_view(loops));
    }
    unite(geoms, lines, polygons_of(geoms), points_of(geoms))
}

pub(crate) proof fn lemma_no_lines(ends: Seq<(Cell, Cell)>)
    ensures
        traced_lines(Seq::empty(), ends) + closed_lines(Seq::empty(), ends) == Seq::<
            Seq<CoordView>,
        >::empty(),
{
    assert(traced_lines(Seq::empty(), ends) =~= Seq::<Seq<CoordView>>::empty());
    assert(closed_lines(Seq::empty(), ends) =~= Seq::<Seq<CoordView>>::empty());
}

proof fn lemma_one_segment(s: (Cell, Cell))
    requires
        s.0 != s.1,
    ensures
        chains_of(seq![s]) == seq![seq![StepView { segment: 0, backward: false }]],
{
    let segs = seq![s];
    let first = StepView { segment: 0, backward: false };
    let used = nothing_used(1).update(0, true);
    assert(segs.drop_last() =~= Seq::empty());
    assert(degree(segs, s.1) <= 1) by {
        assert(degree(segs.drop_last(), s.1) == 0);
    }
    assert(degree(segs, s.0) <= 1) by {
        assert(degree(segs.drop_last(), s.0) == 0);
    }
    assert(walk(segs, used, s.1, seq![first]) == (used, seq![first]));
    let t = turned(seq![first]);
    assert(walk(segs, used, s.0, t) == (used, t));
    assert(turned(t) =~= seq![first]);
    reveal_with_fuel(walks, 3);
    assert(chains_of(segs) =~= seq![seq![first]]);
}

/// Lines of which none can be joined with another: each is open, and no cell joins exactly two ends.
pub open spec fn lines_apart(lines: Seq<Seq<CoordView>>, ends: Seq<(Cell, Cell)>) -> bool {
    &&& lines.len() == ends.len()
    &&& lines.len() >= 2
    &&& forall|i: int|
        0 <= i < lines.len() ==> usable(#[trigger] lines[i], ends[i]) && degree(ends, ends[i].0)
            != 2 && degree(ends, ends[i].1) != 2
}

spec fn single_steps(n: nat) -> Seq<Seq<StepView>> {
    Seq::new(n, |i: int| seq![StepView { segment: i, backward: false }])
}

proof fn lemma_apart(segs: Seq<(Cell, Cell)>, from: int)
    requires
        0 <= from <= segs.len(),
        forall|i: int|
            0 <= i < segs.len() ==> degree(segs, (#[trigger] segs[i]).0) != 2 && degree(
                segs,
                segs[i].1,
            ) != 2,
    ensures
        walks(
            segs,
            from,
            Seq::new(segs.len(), |i: int| i < from),
            single_steps(from as nat),
        ) == single_steps(segs.len()),
    decreases segs.len() - from,
{
    let used = Seq::new(segs.len(), |i: int| i < from);
    if from < segs.len() {
        let start = StepView { segment: from, backward: false };
        let next = Seq::new(segs.len(), |i: int| i < from + 1);
        assert(used.update(from, true) =~= next);
        assert(degree(segs, segs[from].0) != 2 && degree(segs, segs[from].1) != 2);
        assert(walk(segs, next, segs[from].1, seq![start]) == (next, seq![start]));
        let t = turned(seq![start]);
        assert(walk(segs, next, segs[from].0, t) == (next, t));
        assert(turned(t) =~= seq![start]);
        assert(single_steps(from as nat).push(seq![start]) =~= single_steps((from + 1) as nat));
        lemma_apart(segs, from + 1);
    }
}

proof fn lemma_all_usable(parts: Seq<Seq<CoordView>>, ends: Seq<(Cell, Cell)>)
    requires
        parts.len() <= ends.len(),
        forall|i: int| 0 <= i < parts.len() ==> usable(#[trigger] parts[i], ends[i]),
    ensures
        usable_parts(parts, ends) == parts,
        usable_ends(parts, ends) == ends.take(parts.len() as int),
        closed_lines(parts, ends) == Seq::<Seq<CoordView>>::empty(),
    decreases parts.len(),
{
    if parts.len() > 0 {
        let d = parts.drop_last();
        assert forall|i: int| 0 <= i < d.len() implies usable(#[trigger] d[i], ends[i]) by {
            assert(usable(parts[i], ends[i]));
        }
        lemma_all_usable(d, ends);
        assert(usable(parts[parts.len() - 1], ends[parts.len() - 1]));
        assert(parts =~= d.push(parts.last()));
        assert(ends.take(parts.len() as int) =~= ends.take(d.len() as int).push(
            ends[parts.len() - 1],
        ));
    } else {
        assert(usable_parts(parts, ends) =~= parts);
        assert(usable_ends(parts, ends) =~= ends.take(0));
    }
}

proof fn lemma_apart_lines(lines: Seq<Seq<CoordView>>, ends: Seq<(Cell, Cell)>)
    requires
        lines_apart(lines, ends),
    ensures
        traced_lines(lines, ends) + closed_lines(lines, ends) == lines,
{
    lemma_all_usable(lines, ends);
    assert(ends.take(lines.len() as int) =~= ends);
    assert forall|i: int| 0 <= i < ends.len() implies degree(ends, (#[trigger] ends[i]).0) != 2
        && degree(ends, ends[i].1) != 2 by {
        assert(usable(lines[i], ends[i]));
    }
    lemma_apart(ends, 0);
    assert(Seq::new(ends.len(), |i: int| i < 0) =~= nothing_used(ends.len()));
    assert(single_steps(0) =~= Seq::empty());
    assert(traced_lines(lines, ends) =~= lines);
    assert(traced_lines(lines, ends) + closed_lines(lines, ends) =~= lines);
}

/// What tracing makes of fragments lies apart, so that tracing it again changes nothing (chains
/// that end in the cell in which they start aside).
pub proof fn traced_lines_lie_apart(parts: Seq<Seq<CoordView>>, ends: Seq<(Cell, Cell)>)
    requires
        parts.len() == ends.len(),
        traced_lines(parts, ends).len() >= 2,
        forall|d: int|
            0 <= d < chain_ends(usable_ends(parts, ends)).len() ==> (#[trigger] chain_ends(
                usable_ends(parts, ends),
            )[d]).0 != chain_ends(usable_ends(parts, ends))[d].1,
    ensures
        lines_apart(traced_lines(parts, ends), chain_ends(usable_ends(parts, ends))),
{
    let segs = usable_ends(parts, ends);
    let cs = chains_of(segs);
    let new = chain_ends(segs);
    let lines = traced_lines(parts, ends);
    lemma_walks(segs, 0, nothing_used(segs.len()), Seq::empty());
    lemma_usable_pairs(parts, ends);
    assert forall|i: int| 0 <= i < lines.len() implies usable(#[trigger] lines[i], new[i])
        && degree(new, new[i].0) != 2 && degree(new, new[i].1) != 2 by {
        assert(new[i].0 != new[i].1);
        chains_cannot_be_joined(segs, i, new[i].0);
        chains_cannot_be_joined(segs, i, new[i].1);
        assert(cs[i].len() > 0);
        assert forall|k: int| 0 <= k < cs[i].len() implies 0 <= (#[trigger] cs[i][k]).segment
            < segs.len() by {
            assert(is_on(cs, i, k, cs[i][k].segment));
        }
        lemma_chain_len(parts, ends, cs[i]);
    }
}

proof fn lemma_chain_len(
    parts: Seq<Seq<CoordView>>,
    ends: Seq<(Cell, Cell)>,
    c: Seq<StepView>,
)
    requires
        c.len() > 0,
        forall|k: int|
            0 <= k < c.len() ==> 0 <= (#[trigger] c[k]).segment < usable_parts(parts, ends).len(),
    ensures
        chain_line(usable_parts(parts, ends), c).len() >= 2,
    decreases c.len(),
{
    let lines = usable_parts(parts, ends);
    assert(0 <= c[0].segment < lines.len());
    if c.len() == 1 {
        lemma_usable_len(parts, ends, c[0].segment);
    } else {
        let d = c.drop_last();
        assert forall|k: int| 0 <= k < d.len() implies 0 <= (#[trigger] d[k]).segment
            < lines.len() by {
            assert(0 <= c[k].segment < lines.len());
        }
        lemma_chain_len(parts, ends, d);
    }
}

pub(crate) proof fn lemma_usable_len(parts: Seq<Seq<CoordView>>, ends: Seq<(Cell, Cell)>, j: int)
    requires
        0 <= j < usable_parts(parts, ends).len(),
    ensures
        usable_parts(parts, ends)[j].len() >= 2,
    decreases parts.len(),
{
    if parts.len() > 0 {
        let before = usable_parts(parts.drop_last(), ends);
        if j < before.len() {
            lemma_usable_len(parts.drop_last(), ends, j);
        }
    }
}

/// A lone geometry is kept as it is, but for a collection of a single point or polygon, which
/// becomes that point or polygon, for straight lines, which become a line of two vertices, and for
/// collections of lines that can be joined.
pub proof fn lone_part_is_unchanged(g: GeometryView, ends: Seq<(Cell, Cell)>)
    requires
        ends.len() == all_lines(seq![g]).len(),
        match g {
            GeometryView::MultiPoint(cs) => cs.len() != 1,
            GeometryView::MultiPolygon(ps) => ps.len() != 1,
            GeometryView::MultiLineString(ls) => lines_apart(ls, ends),
            GeometryView::Line(_, _) => false,
            _ => true,
        },
    ensures
        merged(seq![g], ends) == g,
{
    let gs = seq![g];
    assert(gs.drop_last() =~= Seq::empty());
    reveal_with_fuel(all_lines, 2);
    reveal_with_fuel(all_polygons, 2);
    reveal_with_fuel(all_points, 2);
    assert(all_lines(gs) =~= lines_in(g));
    assert(all_polygons(gs) =~= polygons_in(g));
    assert(all_points(gs) =~= points_in(g));
    if let GeometryView::LineString(cs) = g {
        let parts = seq![cs];
        reveal_with_fuel(usable_ends, 2);
        reveal_with_fuel(usable_parts, 2);
        reveal_with_fuel(closed_lines, 2);
        assert(all_lines(gs) =~= parts);
        assert(parts.drop_last() =~= Seq::empty());
        if usable(cs, ends[0]) {
            assert(usable_ends(parts, ends) =~= seq![ends[0]]);
            assert(usable_parts(parts, ends) =~= seq![cs]);
            lemma_one_segment(ends[0]);
            let first = StepView { segment: 0, backward: false };
            assert(chain_line(seq![cs], seq![first]) == cs);
            assert(traced_lines(parts, ends) =~= seq![cs]);
            assert(traced_lines(parts, ends) + closed_lines(parts, ends) =~= seq![cs]);
        } else {
            assert(usable_ends(parts, ends) =~= Seq::empty());
            assert(chains_of(usable_ends(parts, ends)) =~= Seq::empty());
            assert(traced_lines(parts, ends) =~= Seq::empty());
            if cs.len() >= 2 {
                assert(closed_lines(parts, ends) =~= seq![cs]);
                assert(traced_lines(parts, ends) + closed_lines(parts, ends) =~= seq![cs]);
            } else {
                assert(traced_lines(parts, ends) + closed_lines(parts, ends) =~= Seq::empty());
            }
        }
    } else if let GeometryView::MultiLineString(ls) = g {
        lemma_apart_lines(ls, ends);
    } else {
        lemma_no_lines(ends);
    }
}

proof fn lemma_parts_of_kind(gs: Seq<GeometryView>, kind: Seq<char>)
    requires
        forall|i: int| 0 <= i < gs.len() ==> kind_of(#[trigger] gs[i]) == kind,
    ensures
        kind != "LineString"@ ==> all_lines(gs) == Seq::<Seq<CoordView>>::empty(),
        kind != "Polygon"@ ==> all_polygons(gs) == Seq::<PolygonView>::empty(),
        kind != "Point"@ ==> all_points(gs) == Seq::<CoordView>::empty(),
    decreases gs.len(),
{
    if gs.len() > 0 {
        let d = gs.drop_last();
        assert forall|i: int| 0 <= i < d.len() implies kind_of(#[trigger] d[i]) == kind by {
            assert(kind_of(gs[i]) == kind);
        }
        lemma_parts_of_kind(d, kind);
        assert(kind_of(gs[gs.len() - 1]) == kind);
        assert(all_lines(gs) =~= all_lines(d) + lines_in(gs.last()));
        assert(all_polygons(gs) =~= all_polygons(d) + polygons_in(gs.last()));
        assert(all_points(gs) =~= all_points(d) + points_in(gs.last()));
    }
}

/// Geometries of one kind merge into a geometry of that kind.
pub proof fn merging_keeps_the_kind(
    gs: Seq<GeometryView>,
    ends: Seq<(Cell, Cell)>,
    kind: Seq<char>,
)
    requires
        gs.len() > 0,
        ends.len() == all_lines(gs).len(),
        forall|i: int| 0 <= i < gs.len() ==> kind_of(#[trigger] gs[i]) == kind,
    ensures
        kind_of(merged(gs, ends)) == kind,
{
    reveal_strlit("Point");
    reveal_strlit("LineString");
    reveal_strlit("Polygon");
    reveal_strlit("Mixed");
    assert("Point"@.len() == 5 && "LineString"@.len() == 10 && "Polygon"@.len() == 7);
    assert("Point"@[0] == 'P' && "Mixed"@[0] == 'M');
    lemma_parts_of_kind(gs, kind);
    lemma_no_lines(ends);
    assert(kind_of(gs[0]) == kind);
}

/// Merging loses no line of two vertices or more: one that ends where it starts stands by itself,
/// and any other is in one of the chains.
pub proof fn no_line_is_lost(parts: Seq<Seq<CoordView>>, ends: Seq<(Cell, Cell)>, i: int)
    requires
        parts.len() == ends.len(),
        0 <= i < parts.len(),
        parts[i].len() >= 2,
    ensures
        ends[i].0 == ends[i].1 ==> closed_lines(parts, ends).contains(parts[i]),
        ends[i].0 != ends[i].1 ==> exists|j: int|
            0 <= j < usable_parts(parts, ends).len() && usable_parts(parts, ends)[j] == parts[i]
                && #[trigger] occurs(chains_of(usable_ends(parts, ends)), j),
{
    if ends[i].0 == ends[i].1 {
        lemma_closed_there(parts, ends, i);
    } else {
        let j = lemma_usable_there(parts, ends, i);
        each_fragment_once(usable_ends(parts, ends));
        assert(occurs(chains_of(usable_ends(parts, ends)), j));
    }
}

proof fn lemma_closed_there(parts: Seq<Seq<CoordView>>, ends: Seq<(Cell, Cell)>, i: int)
    requires
        0 <= i < parts.len(),
        parts[i].len() >= 2,
        ends[i].0 == ends[i].1,
    ensures
        closed_lines(parts, ends).contains(parts[i]),
    decreases parts.len(),
{
    let d = parts.drop_last();
    if i < d.len() {
        lemma_closed_there(d, ends, i);
        let k = choose|k: int| 0 <= k < closed_lines(d, ends).len() && closed_lines(d, ends)[k]
            == d[i];
        assert(closed_lines(parts, ends)[k] == parts[i]);
    } else {
        assert(closed_lines(parts, ends).last() == parts[i]);
    }
}

pub(crate) proof fn lemma_usable_there(
    parts: Seq<Seq<CoordView>>,
    ends: Seq<(Cell, Cell)>,
    i: int,
) -> (j: int)
    requires
        0 <= i < parts.len(),
        usable(parts[i], ends[i]),
    ensures
        0 <= j < usable_parts(parts, ends).len(),
        usable_parts(parts, ends).len() == usable_ends(parts, ends).len(),
        usable_parts(parts, ends)[j] == parts[i],
    decreases parts.len(),
{
    let d = parts.drop_last();
    lemma_usable_pairs(parts, ends);
    if i < d.len() {
        lemma_usable_there(d, ends, i)
    } else {
        usable_parts(d, ends).len() as int
    }
}

pub(crate) proof fn lemma_usable_pairs(parts: Seq<Seq<CoordView>>, ends: Seq<(Cell, Cell)>)
    ensures
        usable_parts(parts, ends).len() == usable_ends(parts, ends).len(),
    decreases parts.len(),
{
    if parts.len() > 0 {
        lemma_usable_pairs(parts.drop_last(), ends);
    }
}

} // verus!
