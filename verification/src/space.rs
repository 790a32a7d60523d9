//! The bookkeeping of a particle simulation: particles addressed by handles
//! (their index), elastic links between pairs of particles, and the broad-phase
//! grid.
//!
//! What a particle holds (`P`) and what a link holds (`L`) are chosen by the
//! caller; every floating-point decision (distances, collisions, which cell a
//! position falls in) is made by the caller and handed in as a plain value or as
//! a closure whose result this module acts upon.
use vstd::prelude::*;
use crate::grid::{Grid, bucket, law_bucket, after_update_obj};
use crate::block::{is_nearest_fellow, law_block_links_nearest, link_nearest, has_link, block_links, nearest, slots, key_rows, place_nearest};
use crate::seqs::{keep, select, lemma_select_within, lemma_keep_all, lemma_keep_keep, lemma_keep_ext, lemma_keep_everything};

verus! {

/// The abstract state of a [`Space`]: its particles in handle order, its links in
/// insertion order (each with the data it carries), and its number of substeps.
pub struct SpaceView<P, L> {
    pub particles: Seq<P>,
    pub links: Seq<((usize, usize), L)>,
    pub substeps: usize,
}

/// The ends of each link, in order.
pub open spec fn link_pairs<L>(links: Seq<((usize, usize), L)>) -> Seq<(usize, usize)> {
    links.map_values(|e: ((usize, usize), L)| e.0)
}

/// Keeps the links that have neither end at `handle`.
pub open spec fn not_touching<L>(handle: usize) -> spec_fn(((usize, usize), L)) -> bool {
    |e: ((usize, usize), L)| e.0.0 != handle && e.0.1 != handle
}

/// Handle `h` is one that `outside` flags.
pub open spec fn flagged(outside: Seq<bool>, h: usize) -> bool {
    h < outside.len() && outside[h as int]
}

/// Keeps the links that have no end at a flagged handle.
pub open spec fn not_touching_flagged<L>(outside: Seq<bool>) -> spec_fn(((usize, usize), L)) -> bool {
    |e: ((usize, usize), L)| !flagged(outside, e.0.0) && !flagged(outside, e.0.1)
}

/// Handle `h` is one that `outside` flags, at or above `from`.
pub open spec fn flagged_from(outside: Seq<bool>, from: int, h: usize) -> bool {
    from <= h && flagged(outside, h)
}

/// Keeps the links that have no end at a handle flagged at or above `from`.
pub open spec fn not_touching_flagged_from<L>(outside: Seq<bool>, from: int) -> spec_fn(
    ((usize, usize), L),
) -> bool {
    |e: ((usize, usize), L)| !flagged_from(outside, from, e.0.0) && !flagged_from(outside, from, e.0.1)
}

/// The flags of `outside`, each turned over.
pub open spec fn negate(outside: Seq<bool>) -> Seq<bool> {
    outside.map_values(|b: bool| !b)
}

/// Particle `k` is an end of some link of `links`.
pub open spec fn is_link_end<L>(links: Seq<((usize, usize), L)>, k: int) -> bool {
    exists|m: int| 0 <= m < links.len() && (links[m].0.0 == k || links[m].0.1 == k)
}

/// Both ends of every link are handles of `particles`.
pub open spec fn links_in_range<P, L>(particles: Seq<P>, links: Seq<((usize, usize), L)>) -> bool {
    forall|k: int|
        0 <= k < links.len() ==> (#[trigger] links[k]).0.0 < particles.len() && links[k].0.1
            < particles.len()
}

/// A collision moved particle `handle` to a position outside the grid.
#[derive(Debug, Clone, Copy)]
pub struct OutOfGrid {
    pub handle: usize,
}

/// A copy of a list of handles.
fn copy_handles(v: &Vec<usize>) -> (copy: Vec<usize>)
    ensures
        copy@ == v@,
{
    let mut copy: Vec<usize> = Vec::new();
    let mut k: usize = 0;
    while k < v.len()
        invariant
            k <= v@.len(),
            copy@ == v@.take(k as int),
        decreases v@.len() - k,
    {
        copy.push(v[k]);
        k = k + 1;
        assert(copy@ =~= v@.take(k as int));
    }
    assert(v@.take(v@.len() as int) =~= v@);
    copy
}

/// Cell coordinates `c` name a cell of a grid of `(w + 1) x (h + 1)` cells.
pub open spec fn cell_in_grid(c: (isize, isize), w: usize, h: usize) -> bool {
    0 <= c.0 <= w && 0 <= c.1 <= h
}

/// What a cell holds after a collision of `pi` and `pj` was settled with cells
/// `ci` and `cj` in a grid of `(w + 1) x (h + 1)` cells: `pi` is moved to `ci`,
/// then `pj` to `cj`, each only when its cell is in the grid and the one before was.
pub open spec fn settled_cell(
    before: Seq<usize>,
    pi: usize,
    pj: usize,
    ci: (isize, isize),
    cj: (isize, isize),
    w: usize,
    h: usize,
    a: int,
    b: int,
) -> Seq<usize> {
    if !cell_in_grid(ci, w, h) {
        before
    } else {
        let moved = after_update_obj(before, pi, ci.0 as int, ci.1 as int, a, b);
        if !cell_in_grid(cj, w, h) {
            moved
        } else {
            after_update_obj(moved, pj, cj.0 as int, cj.1 as int, a, b)
        }
    }
}

/// The outcome of a step of work: `Ok(())` to go on, or the particle that left the grid.
pub type Outcome = Result<(), OutOfGrid>;

/// `k` steps of work lead from `s` to `t` with outcome `r`: step `i` takes a state
/// to a next state and an outcome (`step(i, before, after, outcome)`); after a step
/// whose outcome is an error, the later steps do nothing and the error stands.
pub open spec fn chain<S>(step: spec_fn(int, S, S, Outcome) -> bool, s: S, k: int, t: S, r: Outcome) -> bool
    decreases k,
{
    if k <= 0 {
        t == s && r == Ok::<(), OutOfGrid>(())
    } else {
        exists|mid: S, rm: Outcome|
            #[trigger] next_step(step, k - 1, mid, rm, t, r) && chain(step, s, k - 1, mid, rm)
    }
}

/// Step `k` from `mid`, where the work so far had outcome `rm`, leads to `t` with
/// outcome `r`: after an error nothing changes.
pub open spec fn next_step<S>(
    step: spec_fn(int, S, S, Outcome) -> bool,
    k: int,
    mid: S,
    rm: Outcome,
    t: S,
    r: Outcome,
) -> bool {
    if rm is Err {
        t == mid && r == rm
    } else {
        step(k, mid, t, r)
    }
}

/// One more step extends a chain.
pub proof fn lemma_chain_step<S>(
    step: spec_fn(int, S, S, Outcome) -> bool,
    s: S,
    k: int,
    mid: S,
    rm: Outcome,
    t: S,
    r: Outcome,
)
    requires
        0 <= k,
        chain(step, s, k, mid, rm),
        rm is Err ==> t == mid && r == rm,
        rm is Ok ==> step(k, mid, t, r),
    ensures
        chain(step, s, k + 1, t, r),
{
    assert(next_step(step, (k + 1) - 1, mid, rm, t, r));
}

/// After an error, a chain runs to any later length with nothing more done.
pub proof fn lemma_chain_stops<S>(
    step: spec_fn(int, S, S, Outcome) -> bool,
    s: S,
    k: int,
    t: S,
    r: Outcome,
    k2: int,
)
    requires
        0 <= k <= k2,
        chain(step, s, k, t, r),
        r is Err,
    ensures
        chain(step, s, k2, t, r),
    decreases k2 - k,
{
    if k < k2 {
        lemma_chain_step(step, s, k, t, r, t, r);
        lemma_chain_stops(step, s, k + 1, t, r, k2);
    }
}

/// What settling a collision of `pi` and `pj` does (see [`Space::settle_collision`]):
/// from `s` to `t`, with outcome `r`.
pub open spec fn settle_rel<P, L>(
    s: Space<P, L>,
    pi: usize,
    pj: usize,
    first: P,
    second: P,
    cell_i: (isize, isize),
    cell_j: (isize, isize),
    t: Space<P, L>,
    r: Outcome,
) -> bool {
    &&& t.wf()
    &&& t@ == (SpaceView {
        particles: s@.particles.update(pi as int, first).update(pj as int, second),
        ..s@
    })
    &&& t.grid_view().width == s.grid_view().width
    &&& t.grid_view().height == s.grid_view().height
    &&& r == if !cell_in_grid(cell_i, s.grid_view().width, s.grid_view().height) {
        Err::<(), OutOfGrid>(OutOfGrid { handle: pi })
    } else if !cell_in_grid(cell_j, s.grid_view().width, s.grid_view().height) {
        Err::<(), OutOfGrid>(OutOfGrid { handle: pj })
    } else {
        Ok::<(), OutOfGrid>(())
    }
    &&& forall|a: int, b: int|
        t.grid_view().in_range(a, b) ==> #[trigger] t.grid_view().objects(a, b) == settled_cell(
            s.grid_view().objects(a, b),
            pi,
            pj,
            cell_i,
            cell_j,
            s.grid_view().width,
            s.grid_view().height,
            a,
            b,
        )
}

/// Asking `collide` about particles `pi` and `pj` of `s` leads to `t` with outcome
/// `r`: either it answered that they do not overlap and nothing changed, or it
/// answered what they become and the cells they fall in, and that was settled.
pub open spec fn pair_outcome<P, L, F: Fn(&P, &P) -> Option<(P, P, (isize, isize), (isize, isize))>>(
    collide: F,
    s: Space<P, L>,
    pi: usize,
    pj: usize,
    t: Space<P, L>,
    r: Outcome,
) -> bool {
    ||| call_ensures(
        collide,
        (&s@.particles[pi as int], &s@.particles[pj as int]),
        None::<(P, P, (isize, isize), (isize, isize))>,
    ) && t == s && r == Ok::<(), OutOfGrid>(())
    ||| exists|ans: (P, P, (isize, isize), (isize, isize))|
        call_ensures(
            collide,
            (&s@.particles[pi as int], &s@.particles[pj as int]),
            Some(ans),
        ) && #[trigger] settle_rel(s, pi, pj, ans.0, ans.1, ans.2, ans.3, t, r)
}

/// The pairing of particle `pi` with particle `pj`: nothing when they are the same
/// particle, else [`pair_outcome`].
pub open spec fn pair_visit<P, L, F: Fn(&P, &P) -> Option<(P, P, (isize, isize), (isize, isize))>>(
    collide: F,
    s: Space<P, L>,
    pi: usize,
    pj: usize,
    t: Space<P, L>,
    r: Outcome,
) -> bool {
    if pi == pj {
        t == s && r == Ok::<(), OutOfGrid>(())
    } else {
        pair_outcome(collide, s, pi, pj, t, r)
    }
}

/// Step `b` pairs particle `pi` with `other[b]`.
pub open spec fn row_steps<P, L, F: Fn(&P, &P) -> Option<(P, P, (isize, isize), (isize, isize))>>(
    collide: F,
    pi: usize,
    other: Seq<usize>,
) -> spec_fn(int, Space<P, L>, Space<P, L>, Outcome) -> bool {
    |b: int, s: Space<P, L>, t: Space<P, L>, r: Outcome| pair_visit(collide, s, pi, other[b], t, r)
}

/// Step `a` pairs particle `current[a]` with every particle of `other`, in order.
pub open spec fn cells_steps<P, L, F: Fn(&P, &P) -> Option<(P, P, (isize, isize), (isize, isize))>>(
    collide: F,
    current: Seq<usize>,
    other: Seq<usize>,
) -> spec_fn(int, Space<P, L>, Space<P, L>, Outcome) -> bool {
    |a: int, s: Space<P, L>, t: Space<P, L>, r: Outcome|
        chain(row_steps(collide, current[a], other), s, other.len() as int, t, r)
}

/// Step `d` pairs the particles `current` of cell `(x, y)` with those filed (at that
/// point) in the neighbouring cell `(x + d / 3 - 1, y + d % 3 - 1)`, when it lies in
/// the scanned part of the grid; it does nothing otherwise.
pub open spec fn around_steps<P, L, F: Fn(&P, &P) -> Option<(P, P, (isize, isize), (isize, isize))>>(
    collide: F,
    x: int,
    y: int,
    current: Seq<usize>,
) -> spec_fn(int, Space<P, L>, Space<P, L>, Outcome) -> bool {
    |d: int, s: Space<P, L>, t: Space<P, L>, r: Outcome|
        if 0 <= x + d / 3 - 1 < s.grid_view().width && 0 <= y + d % 3 - 1
            < s.grid_view().height {
            chain(
                cells_steps(
                    collide,
                    current,
                    s.grid_view().objects(x + d / 3 - 1, y + d % 3 - 1),
                ),
                s,
                current.len() as int,
                t,
                r,
            )
        } else {
            t == s && r == Ok::<(), OutOfGrid>(())
        }
}

/// The collisions around cell `(x, y)`: its particles, as filed in `s`, paired with
/// each of its neighbours in turn.
pub open spec fn cell_visit<P, L, F: Fn(&P, &P) -> Option<(P, P, (isize, isize), (isize, isize))>>(
    collide: F,
    x: int,
    y: int,
    s: Space<P, L>,
    t: Space<P, L>,
    r: Outcome,
) -> bool {
    chain(around_steps(collide, x, y, s.grid_view().objects(x, y)), s, 9, t, r)
}

/// Step `y` handles the collisions around cell `(x, y)`.
pub open spec fn column_steps<P, L, F: Fn(&P, &P) -> Option<(P, P, (isize, isize), (isize, isize))>>(
    collide: F,
    x: int,
) -> spec_fn(int, Space<P, L>, Space<P, L>, Outcome) -> bool {
    |y: int, s: Space<P, L>, t: Space<P, L>, r: Outcome| cell_visit(collide, x, y, s, t, r)
}

/// Step `x` handles the collisions around the cells `(x, 0)` to `(x, h - 1)`.
pub open spec fn scan_steps<P, L, F: Fn(&P, &P) -> Option<(P, P, (isize, isize), (isize, isize))>>(
    collide: F,
    h: int,
) -> spec_fn(int, Space<P, L>, Space<P, L>, Outcome) -> bool {
    |x: int, s: Space<P, L>, t: Space<P, L>, r: Outcome| chain(column_steps(collide, x), s, h, t, r)
}

/// What settling link `i` of `s` with the answer `(broken, first, second)` does
/// (see [`Space::relax_link`]): from `s` to `t`.
pub open spec fn relax_rel<P, L>(s: Space<P, L>, i: int, broken: bool, first: P, second: P, t: Space<P, L>) -> bool {
    &&& t.wf()
    &&& t@ == (SpaceView {
        particles: s@.particles.update(s@.links[i].0.0 as int, first).update(
            s@.links[i].0.1 as int,
            second,
        ),
        links: if broken {
            s@.links.remove(i)
        } else {
            s@.links
        },
        ..s@
    })
    &&& t.grid_view() == s.grid_view()
}

/// Step `k` of the visit of `n` links settles link `n - 1 - k` of the state it starts
/// from with an answer of `relax` to that link's two ends and data.
pub open spec fn link_steps<P, L, F: Fn(&P, &P, &L) -> (bool, P, P)>(relax: F, n: int) -> spec_fn(
    int,
    Space<P, L>,
    Space<P, L>,
    Outcome,
) -> bool {
    |k: int, s: Space<P, L>, t: Space<P, L>, r: Outcome|
        r == Ok::<(), OutOfGrid>(()) && exists|ans: (bool, P, P)|
            call_ensures(
                relax,
                (
                    &s@.particles[s@.links[n - 1 - k].0.0 as int],
                    &s@.particles[s@.links[n - 1 - k].0.1 as int],
                    &s@.links[n - 1 - k].1,
                ),
                ans,
            ) && #[trigger] relax_rel(s, n - 1 - k, ans.0, ans.1, ans.2, t)
}

/// Cell coordinates `c` name a cell that `g` holds: a column of `g.cells` and a row
/// of that column.
pub open spec fn cell_exists(g: Grid, c: (isize, isize)) -> bool {
    0 <= c.0 < g.cells@.len() && 0 <= c.1 < g.cells@[c.0 as int]@.len()
}

/// In a well-formed grid, the cells that `cell_in_grid` admits are the cells that
/// the grid holds, its last column and last row included.
pub proof fn law_cell_in_grid(g: Grid, c: (isize, isize))
    requires
        g.wf(),
    ensures
        cell_in_grid(c, g.width, g.height) <==> cell_exists(g, c),
        cell_in_grid(c, g.width, g.height) <==> g.in_range(c.0 as int, c.1 as int),
{
    if 0 <= c.0 < g.cells@.len() {
        assert(g.cells@[c.0 as int]@.len() == g.height + 1);
    }
}

/// A run of steps, each of which, from `s`, can only stay at `s` with outcome `Ok`,
/// stays at `s`, ends with `Ok`, and took every one of its steps from `s` to `s`.
pub proof fn lemma_chain_still<S>(
    step: spec_fn(int, S, S, Outcome) -> bool,
    s: S,
    k: int,
    t: S,
    r: Outcome,
)
    requires
        0 <= k,
        chain(step, s, k, t, r),
        forall|j: int, t2: S, r2: Outcome|
            0 <= j < k && #[trigger] step(j, s, t2, r2) ==> t2 == s && r2 == Ok::<(), OutOfGrid>(()),
    ensures
        t == s,
        r == Ok::<(), OutOfGrid>(()),
        forall|j: int| 0 <= j < k ==> #[trigger] step(j, s, s, Ok::<(), OutOfGrid>(())),
    decreases k,
{
    if k > 0 {
        let (mid, rm) = choose|mid: S, rm: Outcome|
            #[trigger] next_step(step, k - 1, mid, rm, t, r) && chain(step, s, k - 1, mid, rm);
        lemma_chain_still(step, s, k - 1, mid, rm);
        assert(step(k - 1, s, t, r));
    }
}

/// `collide` answers, whatever it is asked, that the two particles do not overlap.
pub open spec fn never_overlap<P, F: Fn(&P, &P) -> Option<(P, P, (isize, isize), (isize, isize))>>(
    collide: F,
) -> bool {
    forall|a: &P, b: &P, o: Option<(P, P, (isize, isize), (isize, isize))>|
        #[trigger] call_ensures(collide, (a, b), o) ==> o is None
}

proof fn lemma_row_still<P, L, F: Fn(&P, &P) -> Option<(P, P, (isize, isize), (isize, isize))>>(
    collide: F,
    s: Space<P, L>,
    pi: usize,
    other: Seq<usize>,
    t: Space<P, L>,
    r: Outcome,
)
    requires
        never_overlap(collide),
        chain(row_steps(collide, pi, other), s, other.len() as int, t, r),
    ensures
        t == s,
        r == Ok::<(), OutOfGrid>(()),
        forall|b: int|
            0 <= b < other.len() ==> #[trigger] pair_visit(
                collide,
                s,
                pi,
                other[b],
                s,
                Ok::<(), OutOfGrid>(()),
            ),
{
    let step = row_steps::<P, L, F>(collide, pi, other);
    assert forall|j: int, t2: Space<P, L>, r2: Outcome|
        0 <= j < other.len() && #[trigger] step(j, s, t2, r2) implies t2 == s && r2 == Ok::<
        (),
        OutOfGrid,
    >(()) by {
        if pi != other[j] {
            if !(call_ensures(
                collide,
                (&s@.particles[pi as int], &s@.particles[other[j] as int]),
                None::<(P, P, (isize, isize), (isize, isize))>,
            ) && t2 == s && r2 == Ok::<(), OutOfGrid>(())) {
                let ans = choose|ans: (P, P, (isize, isize), (isize, isize))|
                    call_ensures(
                        collide,
                        (&s@.particles[pi as int], &s@.particles[other[j] as int]),
                        Some(ans),
                    ) && #[trigger] settle_rel(s, pi, other[j], ans.0, ans.1, ans.2, ans.3, t2, r2);
                assert(call_ensures(
                    collide,
                    (&s@.particles[pi as int], &s@.particles[other[j] as int]),
                    Some(ans),
                ));
            }
        }
    }
    lemma_chain_still(step, s, other.len() as int, t, r);
    assert forall|b: int| 0 <= b < other.len() implies #[trigger] pair_visit(
        collide,
        s,
        pi,
        other[b],
        s,
        Ok::<(), OutOfGrid>(()),
    ) by {
        assert(step(b, s, s, Ok::<(), OutOfGrid>(())));
    }
}

proof fn lemma_cells_still<P, L, F: Fn(&P, &P) -> Option<(P, P, (isize, isize), (isize, isize))>>(
    collide: F,
    s: Space<P, L>,
    current: Seq<usize>,
    other: Seq<usize>,
    t: Space<P, L>,
    r: Outcome,
)
    requires
        never_overlap(collide),
        chain(cells_steps(collide, current, other), s, current.len() as int, t, r),
    ensures
        t == s,
        r == Ok::<(), OutOfGrid>(()),
        forall|a: int|
            0 <= a < current.len() ==> #[trigger] chain(
                row_steps(collide, current[a], other),
                s,
                other.len() as int,
                s,
                Ok::<(), OutOfGrid>(()),
            ),
{
    let step = cells_steps::<P, L, F>(collide, current, other);
    assert forall|j: int, t2: Space<P, L>, r2: Outcome|
        0 <= j < current.len() && #[trigger] step(j, s, t2, r2) implies t2 == s && r2 == Ok::<
        (),
        OutOfGrid,
    >(()) by {
        lemma_row_still(collide, s, current[j], other, t2, r2);
    }
    lemma_chain_still(step, s, current.len() as int, t, r);
    assert forall|a: int| 0 <= a < current.len() implies #[trigger] chain(
        row_steps(collide, current[a], other),
        s,
        other.len() as int,
        s,
        Ok::<(), OutOfGrid>(()),
    ) by {
        assert(step(a, s, s, Ok::<(), OutOfGrid>(())));
    }
}

proof fn lemma_around_still<P, L, F: Fn(&P, &P) -> Option<(P, P, (isize, isize), (isize, isize))>>(
    collide: F,
    x: int,
    y: int,
    current: Seq<usize>,
    s: Space<P, L>,
    t: Space<P, L>,
    r: Outcome,
)
    requires
        never_overlap(collide),
        chain(around_steps(collide, x, y, current), s, 9, t, r),
    ensures
        t == s,
        r == Ok::<(), OutOfGrid>(()),
        forall|d: int|
            0 <= d < 9 ==> #[trigger] around_steps(collide, x, y, current)(
                d,
                s,
                s,
                Ok::<(), OutOfGrid>(()),
            ),
{
    let step = around_steps::<P, L, F>(collide, x, y, current);
    assert forall|j: int, t2: Space<P, L>, r2: Outcome|
        0 <= j < 9 && #[trigger] step(j, s, t2, r2) implies t2 == s && r2 == Ok::<(), OutOfGrid>(
        (),
    ) by {
        if 0 <= x + j / 3 - 1 < s.grid_view().width && 0 <= y + j % 3 - 1 < s.grid_view().height {
            lemma_cells_still(
                collide,
                s,
                current,
                s.grid_view().objects(x + j / 3 - 1, y + j % 3 - 1),
                t2,
                r2,
            );
        }
    }
    lemma_chain_still(step, s, 9, t, r);
}

proof fn lemma_column_still<P, L, F: Fn(&P, &P) -> Option<(P, P, (isize, isize), (isize, isize))>>(
    collide: F,
    x: int,
    h: int,
    s: Space<P, L>,
    t: Space<P, L>,
    r: Outcome,
)
    requires
        never_overlap(collide),
        0 <= h,
        chain(column_steps(collide, x), s, h, t, r),
    ensures
        t == s,
        r == Ok::<(), OutOfGrid>(()),
        forall|y: int|
            0 <= y < h ==> #[trigger] cell_visit(collide, x, y, s, s, Ok::<(), OutOfGrid>(())),
{
    let step = column_steps::<P, L, F>(collide, x);
    assert forall|j: int, t2: Space<P, L>, r2: Outcome|
        0 <= j < h && #[trigger] step(j, s, t2, r2) implies t2 == s && r2 == Ok::<(), OutOfGrid>(
        (),
    ) by {
        lemma_around_still(collide, x, j, s.grid_view().objects(x, j), s, t2, r2);
    }
    lemma_chain_still(step, s, h, t, r);
    assert forall|y: int| 0 <= y < h implies #[trigger] cell_visit(
        collide,
        x,
        y,
        s,
        s,
        Ok::<(), OutOfGrid>(()),
    ) by {
        assert(step(y, s, s, Ok::<(), OutOfGrid>(())));
    }
}

/// When `collide` never answers that two particles overlap, the scan that
/// [`Space::apply_collisions`] makes changes nothing and ends with `Ok`.
pub proof fn law_scan_still<P, L, F: Fn(&P, &P) -> Option<(P, P, (isize, isize), (isize, isize))>>(
    collide: F,
    s: Space<P, L>,
    t: Space<P, L>,
    r: Outcome,
)
    requires
        never_overlap(collide),
        chain(
            scan_steps(collide, s.grid_view().height as int),
            s,
            s.grid_view().width as int,
            t,
            r,
        ),
    ensures
        t == s,
        r == Ok::<(), OutOfGrid>(()),
{
    let w = s.grid_view().width as int;
    let h = s.grid_view().height as int;
    let scan = scan_steps::<P, L, F>(collide, h);
    assert forall|j: int, t2: Space<P, L>, r2: Outcome|
        0 <= j < w && #[trigger] scan(j, s, t2, r2) implies t2 == s && r2 == Ok::<(), OutOfGrid>(
        (),
    ) by {
        lemma_column_still(collide, j, h, s, t2, r2);
    }
    lemma_chain_still(scan, s, w, t, r);
}

/// When `collide` never answers that two particles overlap, the scan that
/// [`Space::apply_collisions`] makes (its `chain` of [`scan_steps`]) changes nothing,
/// ends with `Ok`, and has asked `collide` about every two distinct particles filed
/// in cells `(x, y)` and `(x2, y2)` of the scanned part (`x`, `x2` below the width,
/// `y`, `y2` below the height, the last column and row of that part included) that
/// are one cell or neighbours (`x2` and `y2` within one of `x` and `y`).
pub proof fn law_scan_asks_every_neighbour_pair<
    P,
    L,
    F: Fn(&P, &P) -> Option<(P, P, (isize, isize), (isize, isize))>,
>(
    collide: F,
    s: Space<P, L>,
    t: Space<P, L>,
    r: Outcome,
    x: int,
    y: int,
    x2: int,
    y2: int,
    a: int,
    b: int,
)
    requires
        never_overlap(collide),
        chain(
            scan_steps(collide, s.grid_view().height as int),
            s,
            s.grid_view().width as int,
            t,
            r,
        ),
        0 <= x < s.grid_view().width,
        0 <= x2 < s.grid_view().width,
        0 <= y < s.grid_view().height,
        0 <= y2 < s.grid_view().height,
        -1 <= x2 - x <= 1,
        -1 <= y2 - y <= 1,
        0 <= a < s.grid_view().objects(x, y).len(),
        0 <= b < s.grid_view().objects(x2, y2).len(),
        s.grid_view().objects(x, y)[a] != s.grid_view().objects(x2, y2)[b],
    ensures
        t == s,
        r == Ok::<(), OutOfGrid>(()),
        call_ensures(
            collide,
            (
                &s@.particles[s.grid_view().objects(x, y)[a] as int],
                &s@.particles[s.grid_view().objects(x2, y2)[b] as int],
            ),
            None::<(P, P, (isize, isize), (isize, isize))>,
        ),
{
    let w = s.grid_view().width as int;
    let h = s.grid_view().height as int;
    let scan = scan_steps::<P, L, F>(collide, h);
    assert forall|j: int, t2: Space<P, L>, r2: Outcome|
        0 <= j < w && #[trigger] scan(j, s, t2, r2) implies t2 == s && r2 == Ok::<(), OutOfGrid>(
        (),
    ) by {
        lemma_column_still(collide, j, h, s, t2, r2);
    }
    lemma_chain_still(scan, s, w, t, r);
    assert(scan(x, s, s, Ok::<(), OutOfGrid>(())));
    lemma_column_still(collide, x, h, s, s, Ok::<(), OutOfGrid>(()));
    assert(cell_visit(collide, x, y, s, s, Ok::<(), OutOfGrid>(())));
    let current = s.grid_view().objects(x, y);
    lemma_around_still(collide, x, y, current, s, s, Ok::<(), OutOfGrid>(()));
    let d = 3 * (x2 - x + 1) + (y2 - y + 1);
    assert(d / 3 == x2 - x + 1 && d % 3 == y2 - y + 1) by (nonlinear_arith)
        requires
            d == 3 * (x2 - x + 1) + (y2 - y + 1),
            0 <= y2 - y + 1 < 3,
    ;
    assert(around_steps(collide, x, y, current)(d, s, s, Ok::<(), OutOfGrid>(())));
    let other = s.grid_view().objects(x2, y2);
    assert(chain(cells_steps(collide, current, other), s, current.len() as int, s, Ok::<(), OutOfGrid>(())));
    lemma_cells_still(collide, s, current, other, s, Ok::<(), OutOfGrid>(()));
    assert(chain(row_steps(collide, current[a], other), s, other.len() as int, s, Ok::<(), OutOfGrid>(())));
    lemma_row_still(collide, s, current[a], other, s, Ok::<(), OutOfGrid>(()));
    assert(pair_visit(collide, s, current[a], other[b], s, Ok::<(), OutOfGrid>(())));
    if !call_ensures(
        collide,
        (&s@.particles[current[a] as int], &s@.particles[other[b] as int]),
        None::<(P, P, (isize, isize), (isize, isize))>,
    ) {
        let ans = choose|ans: (P, P, (isize, isize), (isize, isize))|
            call_ensures(
                collide,
                (&s@.particles[current[a] as int], &s@.particles[other[b] as int]),
                Some(ans),
            ) && #[trigger] settle_rel(s, current[a], other[b], ans.0, ans.1, ans.2, ans.3, s, Ok::<(), OutOfGrid>(()));
        assert(call_ensures(
            collide,
            (&s@.particles[current[a] as int], &s@.particles[other[b] as int]),
            Some(ans),
        ));
    }
}

/// A set of particles and the links between them, with a grid over the simulation square.
pub struct Space<P, L> {
    particles: Vec<P>,
    links: Vec<(usize, usize)>,
    link_data: Vec<L>,
    grid: Grid,
    n_objects: usize,
    dt_substeps: usize,
}

impl<P, L> View for Space<P, L> {
    type V = SpaceView<P, L>;

    closed spec fn view(&self) -> SpaceView<P, L> {
        SpaceView {
            particles: self.particles@,
            links: zip_links(self.links@, self.link_data@),
            substeps: self.dt_substeps,
        }
    }
}

/// Pairs each link with its data.
pub open spec fn zip_links<L>(links: Seq<(usize, usize)>, data: Seq<L>) -> Seq<((usize, usize), L)> {
    Seq::new(links.len(), |k: int| (links[k], data[k]))
}

proof fn lemma_zip_remove<L>(links: Seq<(usize, usize)>, data: Seq<L>, k: int)
    requires
        links.len() == data.len(),
        0 <= k < links.len(),
    ensures
        zip_links(links.remove(k), data.remove(k)) == zip_links(links, data).remove(k),
{
    assert(zip_links(links.remove(k), data.remove(k)) =~= zip_links(links, data).remove(k));
}

proof fn lemma_zip_push<L>(links: Seq<(usize, usize)>, data: Seq<L>, l: (usize, usize), d: L)
    requires
        links.len() == data.len(),
    ensures
        zip_links(links.push(l), data.push(d)) == zip_links(links, data).push((l, d)),
{
    assert(zip_links(links.push(l), data.push(d)) =~= zip_links(links, data).push((l, d)));
}

impl<P, L> Space<P, L> {
    /// The particle and link lists are in step with the counters, and the grid is well formed.
    pub closed spec fn wf(&self) -> bool {
        &&& self.n_objects == self.particles@.len()
        &&& self.links@.len() == self.link_data@.len()
        &&& self.grid.wf()
    }

    /// The grid that the space files its particles in.
    pub closed spec fn grid_view(&self) -> Grid {
        self.grid
    }

    /// An empty space, with one substep and an empty grid of
    /// `(grid_width + 1) x (grid_height + 1)` cells.
    pub fn new(grid_width: usize, grid_height: usize) -> (space: Self)
        requires
            grid_width < usize::MAX,
            grid_height < usize::MAX,
        ensures
            space.wf(),
            space.grid_view().wf(),
            space@.particles.len() == 0,
            space@.links.len() == 0,
            space@.substeps == 1,
            space.grid_view().width == grid_width,
            space.grid_view().height == grid_height,
            forall|i: int, j: int|
                space.grid_view().in_range(i, j) ==> space.grid_view().objects(i, j).len() == 0,
    {
        let space = Space {
            particles: Vec::new(),
            links: Vec::new(),
            link_data: Vec::new(),
            grid: Grid::new(grid_width, grid_height),
            n_objects: 0,
            dt_substeps: 1,
        };
        assert(space@.links =~= Seq::<((usize, usize), L)>::empty());
        space
    }

    /// Sets how many substeps a simulation step is divided into.
    pub fn set_substeps(&mut self, substeps: usize)
        ensures
            final(self)@ == (SpaceView { substeps, ..old(self)@ }),
            final(self).wf() == old(self).wf(),
            final(self).grid_view() == old(self).grid_view(),
    {
        self.dt_substeps = substeps;
    }

    /// How many substeps a simulation step is divided into.
    pub fn substeps(&self) -> (n: usize)
        ensures
            n == self@.substeps,
    {
        self.dt_substeps
    }

    /// The number of particles.
    pub fn n_objects(&self) -> (n: usize)
        requires
            self.wf(),
        ensures
            n == self@.particles.len(),
    {
        self.n_objects
    }

    /// The particles, in handle order.
    pub fn particles(&self) -> (particles: &Vec<P>)
        ensures
            particles@ == self@.particles,
    {
        &self.particles
    }

    /// The particle with handle `handle`.
    pub fn particle(&self, handle: usize) -> (particle: &P)
        requires
            handle < self@.particles.len(),
        ensures
            *particle == self@.particles[handle as int],
    {
        &self.particles[handle]
    }

    /// Replaces the particle with handle `handle`.
    pub fn set_particle(&mut self, handle: usize, particle: P)
        requires
            handle < old(self)@.particles.len(),
        ensures
            final(self)@ == (SpaceView {
                particles: old(self)@.particles.update(handle as int, particle),
                ..old(self)@
            }),
            final(self).wf() == old(self).wf(),
            final(self).grid_view() == old(self).grid_view(),
    {
        self.particles.set(handle, particle);
    }

    /// The links, in insertion order.
    pub fn links(&self) -> (links: &Vec<(usize, usize)>)
        requires
            self.wf(),
        ensures
            links@ == link_pairs(self@.links),
    {
        &self.links
    }

    /// The data of each link, in the order of [`Space::links`].
    pub fn link_data(&self) -> (data: &Vec<L>)
        requires
            self.wf(),
        ensures
            data@.len() == self@.links.len(),
            forall|k: int| 0 <= k < data@.len() ==> data@[k] == self@.links[k].1,
    {
        &self.link_data
    }

    /// The grid.
    pub fn grid(&self) -> (grid: &Grid)
        ensures
            *grid == self.grid_view(),
            self.wf() ==> grid.wf(),
    {
        &self.grid
    }

    /// Adds a particle and returns its handle, which is the number of particles before.
    pub fn add_particle(&mut self, particle: P) -> (handle: usize)
        requires
            old(self).wf(),
            old(self)@.particles.len() < usize::MAX,
        ensures
            final(self).wf(),
            final(self).grid_view().wf(),
            handle == old(self)@.particles.len(),
            final(self)@ == (SpaceView { particles: old(self)@.particles.push(particle), ..old(self)@ }),
            final(self).grid_view() == old(self).grid_view(),
    {
        self.particles.push(particle);
        self.n_objects = self.n_objects + 1;
        self.n_objects - 1
    }

    /// Links particle `p1` to particle `p2`; the link carries `data`.
    pub fn add_link(&mut self, p1: usize, p2: usize, data: L)
        requires
            old(self).wf(),
            p1 < old(self)@.particles.len(),
            p2 < old(self)@.particles.len(),
        ensures
            final(self).wf(),
            final(self).grid_view().wf(),
            final(self)@ == (SpaceView { links: old(self)@.links.push(((p1, p2), data)), ..old(self)@ }),
            final(self).grid_view() == old(self).grid_view(),
    {
        proof {
            lemma_zip_push(self.links@, self.link_data@, (p1, p2), data);
        }
        self.links.push((p1, p2));
        self.link_data.push(data);
    }

    /// Some link joins `p1` and `p2`, in either direction.
    pub fn link_exists(&self, p1: usize, p2: usize) -> (exists: bool)
        requires
            self.wf(),
        ensures
            exists == (has_link(link_pairs(self@.links), p1, p2) || has_link(
                link_pairs(self@.links),
                p2,
                p1,
            )),
    {
        let mut k: usize = 0;
        while k < self.links.len()
            invariant
                self.wf(),
                k <= self.links@.len(),
                forall|m: int|
                    0 <= m < k ==> link_pairs(self@.links)[m] != (p1, p2) && link_pairs(
                        self@.links,
                    )[m] != (p2, p1),
            decreases self.links@.len() - k,
        {
            let l = self.links[k];
            if (l.0 == p1 && l.1 == p2) || (l.0 == p2 && l.1 == p1) {
                assert(link_pairs(self@.links)[k as int] == l);
                return true;
            }
            k = k + 1;
        }
        false
    }

    /// Removes the particle with handle `handle` and every link with an end at it.
    /// The particles above it move down by one; the ends of the remaining links are
    /// left as they are.
    pub fn remove_particle(&mut self, handle: usize)
        requires
            old(self).wf(),
            handle < old(self)@.particles.len(),
        ensures
            final(self).wf(),
            final(self).grid_view().wf(),
            final(self)@ == (SpaceView {
                particles: old(self)@.particles.remove(handle as int),
                links: keep(old(self)@.links, not_touching::<L>(handle)),
                ..old(self)@
            }),
            final(self).grid_view() == old(self).grid_view(),
            forall|k: int|
                0 <= k < final(self)@.links.len() ==> (#[trigger] final(self)@.links[k]).0.0
                    != handle && final(self)@.links[k].0.1 != handle,
    {
        let ghost orig = self@.links;
        self.particles.remove(handle);
        self.n_objects = self.n_objects - 1;
        let ghost rest = self.particles@;
        let ghost grid = self.grid;
        let ghost substeps = self.dt_substeps;
        let mut i: usize = self.links.len();
        proof {
            assert(orig.skip(i as int) =~= Seq::<((usize, usize), L)>::empty());
            assert(orig.take(i as int) =~= orig);
            assert(orig.take(i as int) + keep(orig.skip(i as int), not_touching::<L>(handle))
                =~= orig);
        }
        while i > 0
            invariant
                self.links@.len() == self.link_data@.len(),
                self.particles@ == rest,
                self.n_objects == rest.len(),
                self.grid == grid,
                self.dt_substeps == substeps,
                i <= self.links@.len(),
                i <= orig.len(),
                self@.links == orig.take(i as int) + keep(
                    orig.skip(i as int),
                    not_touching::<L>(handle),
                ),
            decreases i,
        {
            i = i - 1;
            let ghost before = self@.links;
            assert(before[i as int] == orig[i as int]);
            assert(orig.skip(i as int).drop_first() =~= orig.skip(i + 1));
            if self.links[i].0 == handle || self.links[i].1 == handle {
                proof {
                    lemma_zip_remove(self.links@, self.link_data@, i as int);
                }
                self.links.remove(i);
                self.link_data.remove(i);
                assert(self@.links =~= orig.take(i as int) + keep(
                    orig.skip(i as int),
                    not_touching::<L>(handle),
                ));
            } else {
                assert(self@.links =~= orig.take(i as int) + keep(
                    orig.skip(i as int),
                    not_touching::<L>(handle),
                ));
            }
        }
        assert(orig.skip(0) =~= orig);
        assert(self@.links =~= keep(orig, not_touching::<L>(handle)));
        proof {
            lemma_keep_all(orig, not_touching::<L>(handle));
        }
    }
    /// Removes every particle that `outside` flags (`outside[h]` for the particle with
    /// handle `h`), from the highest handle down, as [`Space::remove_particle`] does:
    /// the other particles keep their order, and every link with an end at a removed
    /// particle goes.
    pub fn remove_outside(&mut self, outside: &Vec<bool>)
        requires
            old(self).wf(),
            outside@.len() == old(self)@.particles.len(),
        ensures
            final(self).wf(),
            final(self).grid_view().wf(),
            final(self)@ == (SpaceView {
                particles: select(old(self)@.particles, negate(outside@)),
                links: keep(old(self)@.links, not_touching_flagged::<L>(outside@)),
                ..old(self)@
            }),
            final(self).grid_view() == old(self).grid_view(),
            forall|k: int|
                0 <= k < final(self)@.links.len() ==> !flagged(
                    outside@,
                    (#[trigger] final(self)@.links[k]).0.0,
                ) && !flagged(outside@, final(self)@.links[k].0.1),
    {
        let ghost ps = self@.particles;
        let ghost ls = self@.links;
        let ghost grid = self.grid;
        let ghost substeps = self.dt_substeps;
        let ghost keep_mask = negate(outside@);
        let n = self.n_objects;
        let mut i: usize = n;
        proof {
            assert(ps.take(n as int) =~= ps);
            assert(ps.skip(n as int) =~= Seq::<P>::empty());
            assert(ps.take(n as int) + select(ps.skip(n as int), keep_mask.skip(n as int)) =~= ps);
            lemma_keep_everything(ls, not_touching_flagged_from::<L>(outside@, n as int));
        }
        while i > 0
            invariant
                self.wf(),
                n == ps.len(),
                outside@.len() == n,
                keep_mask == negate(outside@),
                i <= n,
                self.grid == grid,
                self.dt_substeps == substeps,
                self@.particles == ps.take(i as int) + select(
                    ps.skip(i as int),
                    keep_mask.skip(i as int),
                ),
                self@.links == keep(ls, not_touching_flagged_from::<L>(outside@, i as int)),
            decreases i,
        {
            i = i - 1;
            assert(ps.skip(i as int).drop_first() =~= ps.skip(i + 1));
            assert(keep_mask.skip(i as int).drop_first() =~= keep_mask.skip(i + 1));
            if outside[i] {
                self.remove_particle(i);
                proof {
                    assert(self@.particles =~= ps.take(i as int) + select(
                        ps.skip(i as int),
                        keep_mask.skip(i as int),
                    ));
                    lemma_keep_keep(
                        ls,
                        not_touching_flagged_from::<L>(outside@, i + 1),
                        not_touching::<L>(i),
                    );
                    lemma_keep_ext(
                        ls,
                        |x: ((usize, usize), L)|
                            not_touching_flagged_from::<L>(outside@, i + 1)(x) && not_touching::<L>(
                                i,
                            )(x),
                        not_touching_flagged_from::<L>(outside@, i as int),
                    );
                }
            } else {
                proof {
                    assert(ps.take(i + 1) =~= ps.take(i as int).push(ps[i as int]));
                    assert(self@.particles =~= ps.take(i as int) + select(
                        ps.skip(i as int),
                        keep_mask.skip(i as int),
                    ));
                    lemma_keep_ext(
                        ls,
                        not_touching_flagged_from::<L>(outside@, i + 1),
                        not_touching_flagged_from::<L>(outside@, i as int),
                    );
                }
            }
        }
        proof {
            assert(ps.skip(0) =~= ps);
            assert(keep_mask.skip(0) =~= keep_mask);
            assert(ps.take(0) + select(ps, keep_mask) =~= select(ps, keep_mask));
            lemma_keep_ext(
                ls,
                not_touching_flagged_from::<L>(outside@, 0),
                not_touching_flagged::<L>(outside@),
            );
            lemma_keep_all(ls, not_touching_flagged::<L>(outside@));
        }
    }
    /// Ties the particles of `particles` together. Each member, in order, offers every
    /// other member to three neighbour slots (see [`crate::block::nearest`]; `keys[i][j]`
    /// orders the distance from member `i` to member `j`), then is linked to the
    /// member in each filled slot unless the two are already linked, either way.
    /// The data of a link from `a` to `b` is what `link_data(a, b)` returns.
    ///
    /// A block of two or more members must hold handles of particles only. A member
    /// that is no handle would be an empty slot when it equals the number of
    /// particles, and would be read as a particle otherwise; the blocks in which no
    /// such read happens (two members already joined by a link left over from
    /// removed particles, or members all equal to the number of particles) are not
    /// taken, as the choice of neighbours here reads every member as a particle.
    pub fn add_block<F: Fn(usize, usize) -> L>(
        &mut self,
        particles: Vec<usize>,
        keys: &Vec<Vec<u32>>,
        link_data: F,
    )
        requires
            old(self).wf(),
            keys@.len() == particles@.len(),
            forall|r: int| 0 <= r < keys@.len() ==> (#[trigger] keys@[r])@.len() == particles@.len(),
            particles@.len() >= 2 ==> forall|k: int|
                0 <= k < particles@.len() ==> #[trigger] particles@[k] < old(self)@.particles.len(),
            forall|a: usize, b: usize| call_requires(link_data, (a, b)),
        ensures
            final(self).wf(),
            final(self).grid_view().wf(),
            final(self)@.particles == old(self)@.particles,
            final(self)@.substeps == old(self)@.substeps,
            final(self).grid_view() == old(self).grid_view(),
            link_pairs(final(self)@.links) == block_links(
                link_pairs(old(self)@.links),
                particles@,
                key_rows(keys@),
                particles@.len() as int,
            ),
            final(self)@.links.len() >= old(self)@.links.len(),
            final(self)@.links.take(old(self)@.links.len() as int) == old(self)@.links,
            forall|t: int|
                old(self)@.links.len() <= t < final(self)@.links.len() ==> call_ensures(
                    link_data,
                    ((#[trigger] final(self)@.links[t]).0.0, final(self)@.links[t].0.1),
                    final(self)@.links[t].1,
                ),
            forall|i: int, j0: int|
                0 <= i < particles@.len() && is_nearest_fellow(
                    key_rows(keys@)[i],
                    i,
                    particles@.len() as int,
                    j0,
                ) ==> has_link(link_pairs(final(self)@.links), particles@[i], particles@[j0])
                    || has_link(link_pairs(final(self)@.links), particles@[j0], particles@[i]),
    {
        let ghost start = self@;
        let ghost grid = self.grid;
        let ghost krows = key_rows(keys@);
        let bn = particles.len();
        let mut i: usize = 0;
        assert(start.links.take(start.links.len() as int) =~= start.links);
        while i < bn
            invariant
                self.wf(),
                bn == particles@.len(),
                keys@.len() == bn,
                krows == key_rows(keys@),
                forall|r: int| 0 <= r < keys@.len() ==> (#[trigger] keys@[r])@.len() == bn,
                bn >= 2 ==> forall|k: int|
                    0 <= k < bn ==> #[trigger] particles@[k] < start.particles.len(),
                forall|a: usize, b: usize| call_requires(link_data, (a, b)),
                i <= bn,
                self@.particles == start.particles,
                self@.substeps == start.substeps,
                self.grid == grid,
                link_pairs(self@.links) == block_links(
                    link_pairs(start.links),
                    particles@,
                    krows,
                    i as int,
                ),
                self@.links.len() >= start.links.len(),
                self@.links.take(start.links.len() as int) == start.links,
                forall|t: int|
                    start.links.len() <= t < self@.links.len() ==> call_ensures(
                        link_data,
                        ((#[trigger] self@.links[t]).0.0, self@.links[t].0.1),
                        self@.links[t].1,
                    ),
            decreases bn - i,
        {
            let mut near: Vec<usize> = vec![bn, bn, bn];
            let uid = particles[i];
            assert(slots(near@, bn) =~= nearest(krows[i as int], i as int, 0));
            let mut j: usize = 0;
            while j < bn
                invariant
                    bn == particles@.len(),
                    keys@.len() == bn,
                    krows == key_rows(keys@),
                    forall|r: int| 0 <= r < keys@.len() ==> (#[trigger] keys@[r])@.len() == bn,
                    i < bn,
                    j <= bn,
                    near@.len() == 3,
                    forall|k: int| 0 <= k < 3 ==> near@[k] <= bn,
                    forall|k: int| 0 <= k < 3 ==> near@[k] == bn || near@[k] != i,
                    slots(near@, bn) == nearest(krows[i as int], i as int, j as int),
                decreases bn - j,
            {
                if j != i {
                    assert(keys@[i as int]@ == krows[i as int]);
                    place_nearest(&mut near, &keys[i], j, bn);
                }
                j = j + 1;
            }
            let ghost target = block_links(link_pairs(start.links), particles@, krows, i + 1);
            let mut s: usize = 0;
            while s < 3
                invariant
                    self.wf(),
                    bn == particles@.len(),
                    i < bn,
                    uid == particles@[i as int],
                    bn >= 2 ==> forall|k: int|
                        0 <= k < bn ==> #[trigger] particles@[k] < start.particles.len(),
                    forall|a: usize, b: usize| call_requires(link_data, (a, b)),
                    near@.len() == 3,
                    forall|k: int| 0 <= k < 3 ==> near@[k] <= bn,
                    forall|k: int| 0 <= k < 3 ==> near@[k] == bn || near@[k] != i,
                    s <= 3,
                    self@.particles == start.particles,
                    self@.substeps == start.substeps,
                    self.grid == grid,
                    target == link_nearest(
                        link_pairs(self@.links),
                        uid,
                        particles@,
                        slots(near@, bn),
                        s as int,
                    ),
                    self@.links.len() >= start.links.len(),
                    self@.links.take(start.links.len() as int) == start.links,
                    forall|t: int|
                        start.links.len() <= t < self@.links.len() ==> call_ensures(
                            link_data,
                            ((#[trigger] self@.links[t]).0.0, self@.links[t].0.1),
                            self@.links[t].1,
                        ),
                decreases 3 - s,
            {
                let m = near[s];
                if m != bn {
                    let h = particles[m];
                    if !self.link_exists(uid, h) {
                        let d = link_data(uid, h);
                        let ghost before = self@.links;
                        self.add_link(uid, h, d);
                        assert(link_pairs(self@.links) =~= link_pairs(before).push((uid, h)));
                        assert(self@.links.take(start.links.len() as int) =~= before.take(
                            start.links.len() as int,
                        ));
                    }
                }
                s = s + 1;
            }
            i = i + 1;
        }
        proof {
            assert forall|i: int, j0: int|
                0 <= i < particles@.len() && is_nearest_fellow(
                    krows[i],
                    i,
                    particles@.len() as int,
                    j0,
                ) implies has_link(link_pairs(self@.links), particles@[i], particles@[j0])
                || has_link(link_pairs(self@.links), particles@[j0], particles@[i]) by {
                law_block_links_nearest(link_pairs(start.links), particles@, krows, i, j0);
            }
        }
    }
    /// Settles link `i` after its ends were computed anew: the link's first end
    /// becomes `first` and its second end `second` (in that order, so `second` wins
    /// when both ends are one particle), and the link goes when `broken`.
    pub fn relax_link(&mut self, i: usize, broken: bool, first: P, second: P)
        requires
            old(self).wf(),
            i < old(self)@.links.len(),
            old(self)@.links[i as int].0.0 < old(self)@.particles.len(),
            old(self)@.links[i as int].0.1 < old(self)@.particles.len(),
        ensures
            final(self).wf(),
            final(self).grid_view().wf(),
            final(self)@ == (SpaceView {
                particles: old(self)@.particles.update(
                    old(self)@.links[i as int].0.0 as int,
                    first,
                ).update(old(self)@.links[i as int].0.1 as int, second),
                links: if broken {
                    old(self)@.links.remove(i as int)
                } else {
                    old(self)@.links
                },
                ..old(self)@
            }),
            final(self).grid_view() == old(self).grid_view(),
            relax_rel(*old(self), i as int, broken, first, second, *final(self)),
    {
        let (p1, p2) = self.links[i];
        assert(self@.links[i as int].0 == (p1, p2));
        if broken {
            proof {
                lemma_zip_remove(self.links@, self.link_data@, i as int);
            }
            self.links.remove(i);
            self.link_data.remove(i);
        }
        self.particles.set(p1, first);
        self.particles.set(p2, second);
    }

    /// Visits the links from the last to the first. For each, `relax` is given its two
    /// ends and its data, and answers whether the link breaks and what the two ends
    /// become; [`Space::relax_link`] applies the answer.
    ///
    /// This is the chain of [`link_steps`]: each link, last first, is settled with an
    /// answer of `relax` to its ends and data as they are when its turn comes. So the
    /// links that stay are some of the links before, in their order, each with its
    /// data, and the particles keep their number.
    pub fn apply_links<F: Fn(&P, &P, &L) -> (bool, P, P)>(&mut self, relax: F)
        requires
            old(self).wf(),
            links_in_range(old(self)@.particles, old(self)@.links),
            forall|a: &P, b: &P, c: &L| call_requires(relax, (a, b, c)),
        ensures
            final(self).wf(),
            final(self).grid_view().wf(),
            final(self)@.particles.len() == old(self)@.particles.len(),
            final(self)@.substeps == old(self)@.substeps,
            final(self).grid_view() == old(self).grid_view(),
            exists|mask: Seq<bool>|
                mask.len() == old(self)@.links.len() && final(self)@.links == select(
                    old(self)@.links,
                    mask,
                ),
            links_in_range(final(self)@.particles, final(self)@.links),
            forall|k: int|
                0 <= k < old(self)@.particles.len() && !is_link_end(old(self)@.links, k)
                    ==> #[trigger] final(self)@.particles[k] == old(self)@.particles[k],
            chain(
                link_steps(relax, old(self)@.links.len() as int),
                *old(self),
                old(self)@.links.len() as int,
                *final(self),
                Ok::<(), OutOfGrid>(()),
            ),
    {
        let ghost start = self@;
        let ghost start_s = *self;
        let ghost n = start.links.len() as int;
        let ghost steps = link_steps::<P, L, F>(relax, n);
        let ghost grid = self.grid;
        let ghost mut mask = Seq::new(start.links.len(), |k: int| true);
        let mut i: usize = self.links.len();
        proof {
            assert(start.links.take(i as int) =~= start.links);
            assert(start.links.skip(i as int) =~= Seq::<((usize, usize), L)>::empty());
            assert(start.links.take(i as int) + select(
                start.links.skip(i as int),
                mask.skip(i as int),
            ) =~= start.links);
        }
        while i > 0
            invariant
                self.wf(),
                i <= start.links.len(),
                mask.len() == start.links.len(),
                links_in_range(start.particles, start.links),
                forall|a: &P, b: &P, c: &L| call_requires(relax, (a, b, c)),
                self@.particles.len() == start.particles.len(),
                forall|k: int|
                    0 <= k < start.particles.len() && !is_link_end(start.links, k)
                        ==> #[trigger] self@.particles[k] == start.particles[k],
                self@.substeps == start.substeps,
                self.grid == grid,
                self@.links == start.links.take(i as int) + select(
                    start.links.skip(i as int),
                    mask.skip(i as int),
                ),
                start_s == *old(self),
                start == start_s@,
                n == start.links.len(),
                steps == link_steps::<P, L, F>(relax, n),
                chain(steps, start_s, n - i, *self, Ok::<(), OutOfGrid>(())),
            decreases i,
        {
            assert(start.links.take(i as int).len() == i);
            assert(self.links@.len() == self@.links.len());
            i = i - 1;
            let ghost before = self@.links;
            assert(before[i as int] == start.links.take(i + 1)[i as int]);
            assert(before[i as int] == start.links[i as int]);
            assert(start.links.skip(i as int).drop_first() =~= start.links.skip(i + 1));
            let (p1, p2) = self.links[i];
            assert(self@.links[i as int].0 == (p1, p2));
            assert(self@.links[i as int].1 == self.link_data@[i as int]);
            let ghost mid = *self;
            let (broken, first, second) = relax(
                &self.particles[p1],
                &self.particles[p2],
                &self.link_data[i],
            );
            self.relax_link(i, broken, first, second);
            proof {
                let k = n - 1 - i;
                assert(n - 1 - k == i);
                assert(relax_rel(mid, n - 1 - k, broken, first, second, *self));
                assert(steps(k, mid, *self, Ok::<(), OutOfGrid>(())));
                lemma_chain_step(
                    steps,
                    start_s,
                    k,
                    mid,
                    Ok::<(), OutOfGrid>(()),
                    *self,
                    Ok::<(), OutOfGrid>(()),
                );
                let old_mask = mask;
                mask = mask.update(i as int, !broken);
                assert(mask.skip(i as int).drop_first() =~= mask.skip(i + 1));
                assert(mask.skip(i + 1) =~= old_mask.skip(i + 1));
                let tail = select(start.links.skip(i + 1), mask.skip(i + 1));
                assert(before =~= start.links.take(i as int).push(start.links[i as int]) + tail);
                if broken {
                    assert(before.remove(i as int) =~= start.links.take(i as int) + tail);
                }
                assert(self@.links =~= start.links.take(i as int) + select(
                    start.links.skip(i as int),
                    mask.skip(i as int),
                ));
            }
        }
        proof {
            assert(start.links.skip(0) =~= start.links);
            assert(mask.skip(0) =~= mask);
            assert(self@.links =~= select(start.links, mask));
            lemma_select_within(start.links, mask);
        }
    }

    /// Replaces each particle by what `f` makes of it.
    pub fn map_particles<F: Fn(&P) -> P>(&mut self, f: F)
        requires
            old(self).wf(),
            forall|p: &P| call_requires(f, (p,)),
        ensures
            final(self).wf(),
            final(self).grid_view().wf(),
            final(self)@.particles.len() == old(self)@.particles.len(),
            forall|k: int|
                0 <= k < old(self)@.particles.len() ==> call_ensures(
                    f,
                    (&old(self)@.particles[k],),
                    #[trigger] final(self)@.particles[k],
                ),
            final(self)@.links == old(self)@.links,
            final(self)@.substeps == old(self)@.substeps,
            final(self).grid_view() == old(self).grid_view(),
    {
        let ghost start = self@;
        let mut k: usize = 0;
        while k < self.particles.len()
            invariant
                self.wf(),
                forall|p: &P| call_requires(f, (p,)),
                k <= self@.particles.len(),
                self@.particles.len() == start.particles.len(),
                forall|m: int| k <= m < start.particles.len() ==> self@.particles[m] == start.particles[m],
                forall|m: int|
                    0 <= m < k ==> call_ensures(
                        f,
                        (&start.particles[m],),
                        #[trigger] self@.particles[m],
                    ),
                self@.links == start.links,
                self@.substeps == start.substeps,
                self.grid_view() == old(self).grid_view(),
            decreases self@.particles.len() - k,
        {
            let p = f(&self.particles[k]);
            self.particles.set(k, p);
            k = k + 1;
        }
    }

    /// Whether `overlaps` answers `true` for some particle; the particles are asked in
    /// handle order, and the first `true` ends the search.
    pub fn is_colliding<F: Fn(&P) -> bool>(&self, overlaps: F) -> (colliding: bool)
        requires
            self.wf(),
            forall|p: &P| call_requires(overlaps, (p,)),
        ensures
            colliding ==> exists|k: int|
                0 <= k < self@.particles.len() && call_ensures(
                    overlaps,
                    (&self@.particles[k],),
                    true,
                ),
            !colliding ==> forall|k: int|
                0 <= k < self@.particles.len() ==> call_ensures(
                    overlaps,
                    (&self@.particles[k],),
                    false,
                ),
    {
        let mut k: usize = 0;
        while k < self.n_objects
            invariant
                self.wf(),
                forall|p: &P| call_requires(overlaps, (p,)),
                k <= self@.particles.len(),
                forall|m: int|
                    0 <= m < k ==> call_ensures(overlaps, (&self@.particles[m],), false),
            decreases self@.particles.len() - k,
        {
            if overlaps(&self.particles[k]) {
                return true;
            }
            k = k + 1;
        }
        false
    }

    /// Files every particle in the grid anew: particle `k` goes in cell `coords[k]`.
    pub fn update_grid(&mut self, coords: &Vec<(usize, usize)>)
        requires
            old(self).wf(),
            coords@.len() == old(self)@.particles.len(),
            forall|k: int|
                0 <= k < coords@.len() ==> (#[trigger] coords@[k]).0 <= old(self).grid_view().width
                    && coords@[k].1 <= old(self).grid_view().height,
        ensures
            final(self).wf(),
            final(self).grid_view().wf(),
            final(self)@ == old(self)@,
            final(self).grid_view().width == old(self).grid_view().width,
            final(self).grid_view().height == old(self).grid_view().height,
            forall|i: int, j: int|
                final(self).grid_view().in_range(i, j) ==> final(self).grid_view().objects(i, j)
                    == bucket(coords@, i, j),
            final(self).grid_view().handles_below(final(self)@.particles.len()),
    {
        self.grid.update(coords);
        assert forall|i: int, j: int, k: int|
            self.grid.in_range(i, j) && 0 <= k < self.grid.objects(i, j).len() implies #[trigger] self.grid.objects(
            i,
            j,
        )[k] < self@.particles.len() by {
            law_bucket(coords@, i, j);
        }
    }
    /// What collision handling keeps: the number of particles, the links, the
    /// substeps, the grid's dimensions, and that the grid files only handles of
    /// particles.
    spec fn collision_frame(&self, before: &Self) -> bool {
        &&& self.wf()
        &&& self@.particles.len() == before@.particles.len()
        &&& self@.links == before@.links
        &&& self@.substeps == before@.substeps
        &&& self.grid.width == before.grid.width
        &&& self.grid.height == before.grid.height
        &&& self.grid.handles_below(self@.particles.len())
    }

    /// Settles a collision of particles `pi` and `pj`: they become `first` and
    /// `second` (in that order), then `pi` is moved to cell `cell_i` and `pj` to
    /// `cell_j` with [`Grid::update_obj`]. A cell outside the grid stops the work
    /// there, with the handle of the particle concerned.
    pub fn settle_collision(
        &mut self,
        pi: usize,
        pj: usize,
        first: P,
        second: P,
        cell_i: (isize, isize),
        cell_j: (isize, isize),
    ) -> (r: Result<(), OutOfGrid>)
        requires
            old(self).wf(),
            pi < old(self)@.particles.len(),
            pj < old(self)@.particles.len(),
        ensures
            final(self).wf(),
            final(self).grid_view().wf(),
            final(self)@ == (SpaceView {
                particles: old(self)@.particles.update(pi as int, first).update(pj as int, second),
                ..old(self)@
            }),
            final(self).grid_view().width == old(self).grid_view().width,
            final(self).grid_view().height == old(self).grid_view().height,
            r == if !cell_in_grid(cell_i, old(self).grid_view().width, old(self).grid_view().height) {
                Err::<(), OutOfGrid>(OutOfGrid { handle: pi })
            } else if !cell_in_grid(cell_j, old(self).grid_view().width, old(self).grid_view().height) {
                Err::<(), OutOfGrid>(OutOfGrid { handle: pj })
            } else {
                Ok::<(), OutOfGrid>(())
            },
            forall|a: int, b: int|
                final(self).grid_view().in_range(a, b) ==> #[trigger] final(self).grid_view().objects(
                    a,
                    b,
                ) == settled_cell(
                    old(self).grid_view().objects(a, b),
                    pi,
                    pj,
                    cell_i,
                    cell_j,
                    old(self).grid_view().width,
                    old(self).grid_view().height,
                    a,
                    b,
                ),
            old(self).grid_view().handles_below(old(self)@.particles.len())
                ==> final(self).grid_view().handles_below(final(self)@.particles.len()),
            settle_rel(*old(self), pi, pj, first, second, cell_i, cell_j, *final(self), r),
            r is Ok <==> cell_exists(old(self).grid_view(), cell_i) && cell_exists(
                old(self).grid_view(),
                cell_j,
            ),
    {
        proof {
            law_cell_in_grid(self.grid, cell_i);
            law_cell_in_grid(self.grid, cell_j);
        }
        let w = self.grid.width;
        let h = self.grid.height;
        self.particles.set(pi, first);
        self.particles.set(pj, second);
        if !(cell_i.0 >= 0 && cell_i.0 as usize <= w && cell_i.1 >= 0 && cell_i.1 as usize <= h) {
            return Err(OutOfGrid { handle: pi });
        }
        self.grid.update_obj(pi, cell_i.0, cell_i.1);
        if !(cell_j.0 >= 0 && cell_j.0 as usize <= w && cell_j.1 >= 0 && cell_j.1 as usize <= h) {
            return Err(OutOfGrid { handle: pj });
        }
        self.grid.update_obj(pj, cell_j.0, cell_j.1);
        Ok(())
    }

    /// Lets particles `pi` and `pj` collide: when `collide` answers their new values
    /// and the cells those fall in, [`Space::settle_collision`] applies the answer.
    fn collide_pair<F: Fn(&P, &P) -> Option<(P, P, (isize, isize), (isize, isize))>>(
        &mut self,
        pi: usize,
        pj: usize,
        collide: &F,
    ) -> (r: Result<(), OutOfGrid>)
        requires
            old(self).collision_frame(old(self)),
            pi < old(self)@.particles.len(),
            pj < old(self)@.particles.len(),
            forall|a: &P, b: &P| call_requires(*collide, (a, b)),
        ensures
            final(self).collision_frame(old(self)),
            pair_outcome(*collide, *old(self), pi, pj, *final(self), r),
    {
        match collide(&self.particles[pi], &self.particles[pj]) {
            Some((first, second, cell_i, cell_j)) => {
                self.settle_collision(pi, pj, first, second, cell_i, cell_j)
            },
            None => Ok(()),
        }
    }

    /// Lets every particle of `current` collide with every other particle of
    /// `other`, in order.
    fn collide_cells<F: Fn(&P, &P) -> Option<(P, P, (isize, isize), (isize, isize))>>(
        &mut self,
        current: &Vec<usize>,
        other: &Vec<usize>,
        collide: &F,
    ) -> (r: Result<(), OutOfGrid>)
        requires
            old(self).collision_frame(old(self)),
            forall|k: int| 0 <= k < current@.len() ==> #[trigger] current@[k] < old(self)@.particles.len(),
            forall|k: int| 0 <= k < other@.len() ==> #[trigger] other@[k] < old(self)@.particles.len(),
            forall|a: &P, b: &P| call_requires(*collide, (a, b)),
        ensures
            final(self).collision_frame(old(self)),
            chain(
                cells_steps(*collide, current@, other@),
                *old(self),
                current@.len() as int,
                *final(self),
                r,
            ),
    {
        let ghost start = *self;
        let ghost steps = cells_steps::<P, L, F>(*collide, current@, other@);
        let mut a: usize = 0;
        while a < current.len()
            invariant
                self.collision_frame(&start),
                start == *old(self),
                steps == cells_steps::<P, L, F>(*collide, current@, other@),
                a <= current@.len(),
                forall|k: int| 0 <= k < current@.len() ==> #[trigger] current@[k] < start@.particles.len(),
                forall|k: int| 0 <= k < other@.len() ==> #[trigger] other@[k] < start@.particles.len(),
                forall|x: &P, y: &P| call_requires(*collide, (x, y)),
                chain(steps, start, a as int, *self, Ok::<(), OutOfGrid>(())),
            decreases current@.len() - a,
        {
            let ghost s_a = *self;
            let ghost row = row_steps::<P, L, F>(*collide, current@[a as int], other@);
            let mut b: usize = 0;
            while b < other.len()
                invariant
                    self.collision_frame(&start),
                    start == *old(self),
                    steps == cells_steps::<P, L, F>(*collide, current@, other@),
                    row == row_steps::<P, L, F>(*collide, current@[a as int], other@),
                    a < current@.len(),
                    b <= other@.len(),
                    forall|k: int|
                        0 <= k < current@.len() ==> #[trigger] current@[k] < start@.particles.len(),
                    forall|k: int|
                        0 <= k < other@.len() ==> #[trigger] other@[k] < start@.particles.len(),
                    forall|x: &P, y: &P| call_requires(*collide, (x, y)),
                    chain(steps, start, a as int, s_a, Ok::<(), OutOfGrid>(())),
                    chain(row, s_a, b as int, *self, Ok::<(), OutOfGrid>(())),
                decreases other@.len() - b,
            {
                let pi = current[a];
                let pj = other[b];
                let ghost mid = *self;
                if pi != pj {
                    let res = self.collide_pair(pi, pj, collide);
                    proof {
                        assert(row(b as int, mid, *self, res));
                        lemma_chain_step(row, s_a, b as int, mid, Ok::<(), OutOfGrid>(()), *self, res);
                    }
                    match res {
                        Ok(()) => {},
                        Err(e) => {
                            proof {
                                lemma_chain_stops(row, s_a, b + 1, *self, res, other@.len() as int);
                                assert(steps(a as int, s_a, *self, res));
                                lemma_chain_step(steps, start, a as int, s_a, Ok::<(), OutOfGrid>(()), *self, res);
                                lemma_chain_stops(steps, start, a + 1, *self, res, current@.len() as int);
                            }
                            return Err(e);
                        },
                    }
                } else {
                    proof {
                        assert(row(b as int, mid, *self, Ok::<(), OutOfGrid>(())));
                        lemma_chain_step(
                            row,
                            s_a,
                            b as int,
                            mid,
                            Ok::<(), OutOfGrid>(()),
                            *self,
                            Ok::<(), OutOfGrid>(()),
                        );
                    }
                }
                b = b + 1;
            }
            proof {
                assert(steps(a as int, s_a, *self, Ok::<(), OutOfGrid>(())));
                lemma_chain_step(
                    steps,
                    start,
                    a as int,
                    s_a,
                    Ok::<(), OutOfGrid>(()),
                    *self,
                    Ok::<(), OutOfGrid>(()),
                );
            }
            a = a + 1;
        }
        Ok(())
    }

    /// Lets the particles filed in cell `(x, y)` collide with those of each of its
    /// neighbours in the scanned part of the grid, in turn.
    fn collide_around<F: Fn(&P, &P) -> Option<(P, P, (isize, isize), (isize, isize))>>(
        &mut self,
        x: usize,
        y: usize,
        collide: &F,
    ) -> (r: Result<(), OutOfGrid>)
        requires
            old(self).collision_frame(old(self)),
            x < old(self).grid.width,
            y < old(self).grid.height,
            forall|a: &P, b: &P| call_requires(*collide, (a, b)),
        ensures
            final(self).collision_frame(old(self)),
            cell_visit(*collide, x as int, y as int, *old(self), *final(self), r),
    {
        let ghost start = *self;
        let w = self.grid.width;
        let h = self.grid.height;
        let current = copy_handles(&self.grid.get(x, y).objects);
        let ghost around = around_steps::<P, L, F>(*collide, x as int, y as int, current@);
        assert(current@ == start.grid_view().objects(x as int, y as int));
        let mut dx: usize = 0;
        while dx < 3
            invariant
                self.collision_frame(&start),
                start == *old(self),
                w == start.grid.width,
                h == start.grid.height,
                x < w,
                y < h,
                dx <= 3,
                around == around_steps::<P, L, F>(*collide, x as int, y as int, current@),
                current@ == start.grid_view().objects(x as int, y as int),
                forall|k: int|
                    0 <= k < current@.len() ==> #[trigger] current@[k] < start@.particles.len(),
                forall|a: &P, b: &P| call_requires(*collide, (a, b)),
                chain(around, start, 3 * dx as int, *self, Ok::<(), OutOfGrid>(())),
            decreases 3 - dx,
        {
            let mut dy: usize = 0;
            while dy < 3
                invariant
                    self.collision_frame(&start),
                    start == *old(self),
                    w == start.grid.width,
                    h == start.grid.height,
                    x < w,
                    y < h,
                    dx < 3,
                    dy <= 3,
                    around == around_steps::<P, L, F>(*collide, x as int, y as int, current@),
                    current@ == start.grid_view().objects(x as int, y as int),
                    forall|k: int|
                        0 <= k < current@.len() ==> #[trigger] current@[k] < start@.particles.len(),
                    forall|a: &P, b: &P| call_requires(*collide, (a, b)),
                    chain(around, start, 3 * dx + dy, *self, Ok::<(), OutOfGrid>(())),
                decreases 3 - dy,
            {
                let ghost mid = *self;
                let ghost d = 3 * dx + dy;
                assert(d / 3 == dx as int && d % 3 == dy as int) by (nonlinear_arith)
                    requires
                        d == 3 * dx + dy,
                        dy < 3,
                ;
                if x + dx >= 1 && x + dx <= w && y + dy >= 1 && y + dy <= h {
                    let other = copy_handles(&self.grid.get(x + dx - 1, y + dy - 1).objects);
                    assert forall|k: int| 0 <= k < other@.len() implies #[trigger] other@[k]
                        < start@.particles.len() by {
                        assert(other@[k] == self.grid.objects(
                            (x + dx - 1) as int,
                            (y + dy - 1) as int,
                        )[k]);
                    }
                    let res = self.collide_cells(&current, &other, collide);
                    proof {
                        assert(other@ == mid.grid_view().objects(x + d / 3 - 1, y + d % 3 - 1));
                        assert(around(d, mid, *self, res));
                        lemma_chain_step(around, start, d, mid, Ok::<(), OutOfGrid>(()), *self, res);
                    }
                    match res {
                        Ok(()) => {},
                        Err(e) => {
                            proof {
                                lemma_chain_stops(around, start, d + 1, *self, res, 9);
                            }
                            return Err(e);
                        },
                    }
                } else {
                    proof {
                        assert(around(d, mid, *self, Ok::<(), OutOfGrid>(())));
                        lemma_chain_step(
                            around,
                            start,
                            d,
                            mid,
                            Ok::<(), OutOfGrid>(()),
                            *self,
                            Ok::<(), OutOfGrid>(()),
                        );
                    }
                }
                dy = dy + 1;
            }
            dx = dx + 1;
        }
        Ok(())
    }

    /// Separates overlapping particles, cell by cell. For each cell `(x, y)` with
    /// `x < width` and `y < height`, in order, the particles filed there are paired
    /// with those filed in each neighbouring cell `(x + dx, y + dy)`
    /// (`dx`, `dy` from -1 to 1, in order) that also has `x + dx < width` and
    /// `y + dy < height`; for each pair of distinct handles, `collide` is asked whether
    /// they overlap, and if so what they become and in which cells they then lie,
    /// which [`Space::settle_collision`] applies. The lists of handles are read when
    /// their pairing starts. This is the chain of [`scan_steps`].
    ///
    /// Returns the handle of a particle that a collision moved out of the grid, at
    /// which point the work stops; whatever `collide` answers, the number of
    /// particles, the links, the substeps and the grid's dimensions stay, and the
    /// grid files only handles of particles.
    pub fn apply_collisions<F: Fn(&P, &P) -> Option<(P, P, (isize, isize), (isize, isize))>>(
        &mut self,
        collide: F,
    ) -> (r: Result<(), OutOfGrid>)
        requires
            old(self).wf(),
            old(self).grid_view().handles_below(old(self)@.particles.len()),
            forall|a: &P, b: &P| call_requires(collide, (a, b)),
        ensures
            final(self).wf(),
            final(self).grid_view().wf(),
            final(self)@.particles.len() == old(self)@.particles.len(),
            final(self)@.links == old(self)@.links,
            final(self)@.substeps == old(self)@.substeps,
            final(self).grid_view().width == old(self).grid_view().width,
            final(self).grid_view().height == old(self).grid_view().height,
            final(self).grid_view().handles_below(final(self)@.particles.len()),
            chain(
                scan_steps(collide, old(self).grid_view().height as int),
                *old(self),
                old(self).grid_view().width as int,
                *final(self),
                r,
            ),
            never_overlap(collide) ==> *final(self) == *old(self) && r == Ok::<(), OutOfGrid>(()),
    {
        let ghost start = *self;
        let ghost scan = scan_steps::<P, L, F>(collide, start.grid.height as int);
        let w = self.grid.width;
        let h = self.grid.height;
        let mut x: usize = 0;
        while x < w
            invariant
                self.collision_frame(&start),
                start == *old(self),
                w == start.grid.width,
                h == start.grid.height,
                x <= w,
                scan == scan_steps::<P, L, F>(collide, h as int),
                forall|a: &P, b: &P| call_requires(collide, (a, b)),
                chain(scan, start, x as int, *self, Ok::<(), OutOfGrid>(())),
            decreases w - x,
        {
            let ghost s_x = *self;
            let ghost column = column_steps::<P, L, F>(collide, x as int);
            let mut y: usize = 0;
            while y < h
                invariant
                    self.collision_frame(&start),
                    start == *old(self),
                    w == start.grid.width,
                    h == start.grid.height,
                    x < w,
                    y <= h,
                    scan == scan_steps::<P, L, F>(collide, h as int),
                    column == column_steps::<P, L, F>(collide, x as int),
                    forall|a: &P, b: &P| call_requires(collide, (a, b)),
                    chain(scan, start, x as int, s_x, Ok::<(), OutOfGrid>(())),
                    chain(column, s_x, y as int, *self, Ok::<(), OutOfGrid>(())),
                decreases h - y,
            {
                let ghost mid = *self;
                let res = self.collide_around(x, y, &collide);
                proof {
                    assert(column(y as int, mid, *self, res));
                    lemma_chain_step(column, s_x, y as int, mid, Ok::<(), OutOfGrid>(()), *self, res);
                }
                match res {
                    Ok(()) => {},
                    Err(e) => {
                        proof {
                            lemma_chain_stops(column, s_x, y + 1, *self, res, h as int);
                            assert(scan(x as int, s_x, *self, res));
                            lemma_chain_step(scan, start, x as int, s_x, Ok::<(), OutOfGrid>(()), *self, res);
                            lemma_chain_stops(scan, start, x + 1, *self, res, w as int);
                            if never_overlap(collide) {
                                law_scan_still(collide, start, *self, res);
                            }
                        }
                        return Err(e);
                    },
                }
                y = y + 1;
            }
            proof {
                assert(scan(x as int, s_x, *self, Ok::<(), OutOfGrid>(())));
                lemma_chain_step(
                    scan,
                    start,
                    x as int,
                    s_x,
                    Ok::<(), OutOfGrid>(()),
                    *self,
                    Ok::<(), OutOfGrid>(()),
                );
            }
            x = x + 1;
        }
        proof {
            if never_overlap(collide) {
                law_scan_still(collide, start, *self, Ok::<(), OutOfGrid>(()));
            }
        }
        Ok(())
    }
}

/// A link just added joins its two ends: afterwards `link_exists` answers `true` for
/// them, in either order.
pub proof fn law_added_link_exists<L>(links: Seq<((usize, usize), L)>, a: usize, b: usize, data: L)
    ensures
        has_link(link_pairs(links.push(((a, b), data))), a, b),
{
    let pairs = link_pairs(links.push(((a, b), data)));
    assert(pairs[links.len() as int] == (a, b));
}

/// Removing the particle just added undoes the addition: the particles are those
/// before, and, when every link joined particles that were there, so are the links.
pub proof fn law_remove_added_particle<P, L>(particles: Seq<P>, links: Seq<((usize, usize), L)>, p: P)
    requires
        particles.len() < usize::MAX,
        links_in_range(particles, links),
    ensures
        particles.push(p).remove(particles.len() as int) == particles,
        keep(links, not_touching::<L>(particles.len() as usize)) == links,
{
    assert(particles.push(p).remove(particles.len() as int) =~= particles);
    lemma_keep_everything_in(links, not_touching::<L>(particles.len() as usize), particles.len());
}

proof fn lemma_keep_everything_in<L>(
    links: Seq<((usize, usize), L)>,
    pred: spec_fn(((usize, usize), L)) -> bool,
    n: nat,
)
    requires
        forall|k: int| 0 <= k < links.len() ==> (#[trigger] links[k]).0.0 < n && links[k].0.1 < n,
        pred == not_touching::<L>(n as usize),
        n < usize::MAX,
    ensures
        keep(links, pred) == links,
    decreases links.len(),
{
    if links.len() > 0 {
        assert(links[0].0.0 < n);
        lemma_keep_everything_in(links.drop_first(), pred, n);
        assert(seq![links[0]] + links.drop_first() =~= links);
    }
}

} // verus!
