//! A uniform grid of cells over the simulation square, used as a broad phase:
//! each cell lists the handles of the particles whose position falls in it.
//!
//! Cell coordinates are integers; turning a position into cell coordinates is
//! floating-point work that the caller does.
use vstd::prelude::*;

verus! {

/// One cell of the grid: its column, its row, and the handles filed in it.
#[derive(Clone)]
pub struct GridCell {
    pub col: usize,
    pub row: usize,
    pub objects: Vec<usize>,
}

impl GridCell {
    /// An empty cell at column `col` and row `row`.
    pub fn new(col: usize, row: usize) -> (cell: GridCell)
        ensures
            cell.col == col,
            cell.row == row,
            cell.objects@ == Seq::<usize>::empty(),
    {
        GridCell { col, row, objects: Vec::new() }
    }
}

/// A grid of `(width + 1) x (height + 1)` cells, indexed `cells[column][row]`.
#[derive(Clone)]
pub struct Grid {
    pub cells: Vec<Vec<GridCell>>,
    pub width: usize,
    pub height: usize,
}

/// The handles `k` (in increasing order) whose coordinates `coords[k]` are `(i, j)`.
pub open spec fn bucket(coords: Seq<(usize, usize)>, i: int, j: int) -> Seq<usize>
    decreases coords.len(),
{
    if coords.len() == 0 {
        Seq::<usize>::empty()
    } else {
        let prev = bucket(coords.drop_last(), i, j);
        if coords.last().0 == i && coords.last().1 == j {
            prev.push((coords.len() - 1) as usize)
        } else {
            prev
        }
    }
}

/// `s` with its first occurrence of `x` taken out (`s` itself when `x` does not occur).
pub open spec fn remove_first(s: Seq<usize>, x: usize) -> Seq<usize>
    decreases s.len(),
{
    if s.len() == 0 {
        s
    } else if s[0] == x {
        s.drop_first()
    } else {
        seq![s[0]] + remove_first(s.drop_first(), x)
    }
}

/// The lower bound of the window that `update_obj` clears around a coordinate.
pub open spec fn window_low(i: int) -> int {
    if i - 1 > 0 { i - 1 } else { 0 }
}

/// Cell `(a, b)` lies in the window that `update_obj(_, i, j)` clears:
/// the cell itself and its neighbours to the left, above, and above-left.
pub open spec fn in_window(i: int, j: int, a: int, b: int) -> bool {
    window_low(i) <= a <= i && window_low(j) <= b <= j
}

/// What cell `(a, b)` holds after `update_obj(uid, i, j)`, given what it held before.
pub open spec fn after_update_obj(before: Seq<usize>, uid: usize, i: int, j: int, a: int, b: int) -> Seq<usize> {
    let cleared = if in_window(i, j, a, b) { remove_first(before, uid) } else { before };
    if a == i && b == j { cleared.push(uid) } else { cleared }
}

impl Grid {
    /// The grid's dimensions and the coordinates recorded in its cells agree.
    pub open spec fn wf(&self) -> bool {
        &&& self.width < usize::MAX
        &&& self.height < usize::MAX
        &&& self.cells@.len() == self.width + 1
        &&& forall|i: int|
            0 <= i < self.cells@.len() ==> #[trigger] self.cells@[i]@.len() == self.height + 1
        &&& forall|i: int, j: int|
            0 <= i < self.cells@.len() && 0 <= j < self.cells@[i]@.len() ==> {
                &&& (#[trigger] self.cells@[i]@[j]).col == i
                &&& self.cells@[i]@[j].row == j
            }
    }

    /// `(i, j)` names a cell of the grid.
    pub open spec fn in_range(&self, i: int, j: int) -> bool {
        0 <= i <= self.width && 0 <= j <= self.height
    }

    /// The handles filed in cell `(i, j)`.
    #[verifier::inline]
    pub open spec fn objects(&self, i: int, j: int) -> Seq<usize> {
        self.cells@[i]@[j].objects@
    }

    /// Every handle filed in the grid is below `n`.
    pub open spec fn handles_below(&self, n: nat) -> bool {
        forall|i: int, j: int, k: int|
            self.in_range(i, j) && 0 <= k < self.objects(i, j).len() ==> #[trigger] self.objects(
                i,
                j,
            )[k] < n
    }

    /// A grid of `(width + 1) x (height + 1)` empty cells.
    pub fn new(width: usize, height: usize) -> (grid: Grid)
        requires
            width < usize::MAX,
            height < usize::MAX,
        ensures
            grid.wf(),
            grid.width == width,
            grid.height == height,
            forall|i: int, j: int| grid.in_range(i, j) ==> grid.objects(i, j).len() == 0,
    {
        let mut cells: Vec<Vec<GridCell>> = Vec::new();
        let mut i: usize = 0;
        while i < width + 1
            invariant
                width < usize::MAX,
                height < usize::MAX,
                i <= width + 1,
                cells@.len() == i,
                forall|a: int| 0 <= a < i ==> #[trigger] cells@[a]@.len() == height + 1,
                forall|a: int, b: int|
                    0 <= a < i && 0 <= b < height + 1 ==> {
                        &&& (#[trigger] cells@[a]@[b]).col == a
                        &&& cells@[a]@[b].row == b
                        &&& cells@[a]@[b].objects@.len() == 0
                    },
            decreases width + 1 - i,
        {
            let mut col: Vec<GridCell> = Vec::new();
            let mut j: usize = 0;
            while j < height + 1
                invariant
                    height < usize::MAX,
                    j <= height + 1,
                    col@.len() == j,
                    forall|b: int|
                        0 <= b < j ==> {
                            &&& (#[trigger] col@[b]).col == i
                            &&& col@[b].row == b
                            &&& col@[b].objects@.len() == 0
                        },
                decreases height + 1 - j,
            {
                col.push(GridCell::new(i, j));
                j = j + 1;
            }
            cells.push(col);
            i = i + 1;
        }
        Grid { cells, width, height }
    }

    /// Empties every cell, then files each handle `k` in cell `coords[k]`.
    pub fn update(&mut self, coords: &Vec<(usize, usize)>)
        requires
            old(self).wf(),
            forall|k: int|
                0 <= k < coords@.len() ==> (#[trigger] coords@[k]).0 <= old(self).width
                    && coords@[k].1 <= old(self).height,
        ensures
            final(self).wf(),
            final(self).width == old(self).width,
            final(self).height == old(self).height,
            forall|i: int, j: int|
                final(self).in_range(i, j) ==> final(self).objects(i, j) == bucket(coords@, i, j),
    {
        let ghost w = self.width as int;
        let ghost h = self.height as int;
        let mut i: usize = 0;
        while i < self.cells.len()
            invariant
                self.wf(),
                self.width == w,
                self.height == h,
                i <= self.cells@.len(),
                forall|a: int, b: int|
                    0 <= a < i && 0 <= b <= h ==> (#[trigger] self.objects(a, b)).len() == 0,
            decreases self.cells@.len() - i,
        {
            let mut j: usize = 0;
            while j < self.cells[i].len()
                invariant
                    self.wf(),
                    self.width == w,
                    self.height == h,
                    i < self.cells@.len(),
                    j <= self.cells@[i as int]@.len(),
                    forall|a: int, b: int|
                        0 <= a < i && 0 <= b <= h ==> (#[trigger] self.objects(a, b)).len() == 0,
                    forall|b: int| 0 <= b < j ==> (#[trigger] self.objects(i as int, b)).len() == 0,
                decreases self.cells@[i as int]@.len() - j,
            {
                cell_clear(&mut self.cells, i, j);
                j = j + 1;
            }
            i = i + 1;
        }
        let mut k: usize = 0;
        while k < coords.len()
            invariant
                self.wf(),
                self.width == w,
                self.height == h,
                k <= coords@.len(),
                forall|m: int|
                    0 <= m < coords@.len() ==> (#[trigger] coords@[m]).0 <= w && coords@[m].1 <= h,
                forall|a: int, b: int|
                    self.in_range(a, b) ==> #[trigger] self.objects(a, b) == bucket(
                        coords@.take(k as int),
                        a,
                        b,
                    ),
            decreases coords@.len() - k,
        {
            let (ci, cj) = coords[k];
            assert(coords@.take(k + 1).drop_last() =~= coords@.take(k as int));
            cell_push(&mut self.cells, ci, cj, k);
            k = k + 1;
        }
        assert(coords@.take(coords@.len() as int) =~= coords@);
    }

    /// Takes `uid` out of the cell `(i, j)` and the cells to its left, above and above-left
    /// (its first occurrence in each), then files it at the end of cell `(i, j)`.
    pub fn update_obj(&mut self, uid: usize, i: isize, j: isize)
        requires
            old(self).wf(),
            0 <= i <= old(self).width,
            0 <= j <= old(self).height,
        ensures
            final(self).wf(),
            final(self).width == old(self).width,
            final(self).height == old(self).height,
            forall|a: int, b: int|
                final(self).in_range(a, b) ==> #[trigger] final(self).objects(a, b)
                    == after_update_obj(old(self).objects(a, b), uid, i as int, j as int, a, b),
            forall|n: nat|
                old(self).handles_below(n) && uid < n ==> #[trigger] final(self).handles_below(n),
            final(self).objects(i as int, j as int).len() > 0,
            final(self).objects(i as int, j as int).last() == uid,
    {
        let ghost pre = *self;
        let iu = i as usize;
        let ju = j as usize;
        let lo_i: usize = if iu > 1 { iu - 1 } else { 0 };
        let lo_j: usize = if ju > 1 { ju - 1 } else { 0 };
        let mut a = lo_i;
        while a <= iu
            invariant
                self.wf(),
                self.width == pre.width,
                self.height == pre.height,
                pre.wf(),
                iu == i,
                ju == j,
                iu <= pre.width,
                ju <= pre.height,
                lo_i == window_low(i as int),
                lo_j == window_low(j as int),
                lo_i <= a <= iu + 1,
                forall|x: int, y: int|
                    self.in_range(x, y) ==> #[trigger] self.objects(x, y) == if in_window(
                        i as int,
                        j as int,
                        x,
                        y,
                    ) && x < a {
                        remove_first(pre.objects(x, y), uid)
                    } else {
                        pre.objects(x, y)
                    },
            decreases iu + 1 - a,
        {
            let mut b = lo_j;
            while b <= ju
                invariant
                    self.wf(),
                    self.width == pre.width,
                    self.height == pre.height,
                    pre.wf(),
                    iu == i,
                    ju == j,
                    iu <= pre.width,
                    ju <= pre.height,
                    lo_i == window_low(i as int),
                    lo_j == window_low(j as int),
                    lo_i <= a <= iu,
                    lo_j <= b <= ju + 1,
                    forall|x: int, y: int|
                        self.in_range(x, y) ==> #[trigger] self.objects(x, y) == if in_window(
                            i as int,
                            j as int,
                            x,
                            y,
                        ) && (x < a || (x == a && y < b)) {
                            remove_first(pre.objects(x, y), uid)
                        } else {
                            pre.objects(x, y)
                        },
                decreases ju + 1 - b,
            {
                cell_remove_first(&mut self.cells, a, b, uid);
                b = b + 1;
            }
            a = a + 1;
        }
        cell_push(&mut self.cells, iu, ju, uid);
        assert forall|n: nat| pre.handles_below(n) && uid < n implies #[trigger] self.handles_below(
            n,
        ) by {
            assert forall|x: int, y: int, k: int|
                self.in_range(x, y) && 0 <= k < self.objects(x, y).len() implies #[trigger] self.objects(
                x,
                y,
            )[k] < n by {
                let before = pre.objects(x, y);
                lemma_remove_first_within(before, uid);
                let cleared = if in_window(i as int, j as int, x, y) {
                    remove_first(before, uid)
                } else {
                    before
                };
                if k < cleared.len() {
                    if in_window(i as int, j as int, x, y) {
                        assert(before.contains(cleared[k]));
                        let m = choose|m: int| 0 <= m < before.len() && before[m] == cleared[k];
                        assert(pre.objects(x, y)[m] < n);
                    } else {
                        assert(pre.objects(x, y)[k] < n);
                    }
                }
            }
        }
    }

    /// The cell at column `x`, row `y`.
    pub fn get(&self, x: usize, y: usize) -> (cell: &GridCell)
        requires
            self.wf(),
            self.in_range(x as int, y as int),
        ensures
            *cell == self.cells@[x as int]@[y as int],
    {
        &self.cells[x][y]
    }

    /// The cell at column `x`, row `y`, to change in place.
    pub fn get_mut(&mut self, x: usize, y: usize) -> (cell: &mut GridCell)
        requires
            old(self).wf(),
            old(self).in_range(x as int, y as int),
        ensures
            *cell == old(self).cells@[x as int]@[y as int],
            final(self).width == old(self).width,
            final(self).height == old(self).height,
            final(self).cells@.len() == old(self).cells@.len(),
            forall|a: int|
                0 <= a < old(self).cells@.len() && a != x ==> final(self).cells@[a]
                    == old(self).cells@[a],
            final(self).cells@[x as int]@ == old(self).cells@[x as int]@.update(
                y as int,
                *final(cell),
            ),
    {
        &mut self.cells[x][y]
    }
}

/// Cell `(i, j)` of `new` is `old`'s with its handles replaced by `objects`; every other cell,
/// and every column's length, are as in `old`.
spec fn cells_changed_at(
    old: Seq<Vec<GridCell>>,
    new: Seq<Vec<GridCell>>,
    i: int,
    j: int,
    objects: Seq<usize>,
) -> bool {
    &&& new.len() == old.len()
    &&& forall|a: int| 0 <= a < old.len() && a != i ==> new[a] == old[a]
    &&& new[i]@.len() == old[i]@.len()
    &&& forall|b: int| 0 <= b < old[i]@.len() && b != j ==> new[i]@[b] == old[i]@[b]
    &&& new[i]@[j].objects@ == objects
    &&& new[i]@[j].col == old[i]@[j].col
    &&& new[i]@[j].row == old[i]@[j].row
}

fn cell_push(cells: &mut Vec<Vec<GridCell>>, i: usize, j: usize, uid: usize)
    requires
        i < old(cells)@.len(),
        j < old(cells)@[i as int]@.len(),
    ensures
        cells_changed_at(
            old(cells)@,
            final(cells)@,
            i as int,
            j as int,
            old(cells)@[i as int]@[j as int].objects@.push(uid),
        ),
{
    cells[i][j].objects.push(uid);
}

fn cell_clear(cells: &mut Vec<Vec<GridCell>>, i: usize, j: usize)
    requires
        i < old(cells)@.len(),
        j < old(cells)@[i as int]@.len(),
    ensures
        cells_changed_at(old(cells)@, final(cells)@, i as int, j as int, Seq::<usize>::empty()),
{
    cells[i][j].objects.clear();
}

fn cell_remove_first(cells: &mut Vec<Vec<GridCell>>, i: usize, j: usize, uid: usize)
    requires
        i < old(cells)@.len(),
        j < old(cells)@[i as int]@.len(),
    ensures
        cells_changed_at(
            old(cells)@,
            final(cells)@,
            i as int,
            j as int,
            remove_first(old(cells)@[i as int]@[j as int].objects@, uid),
        ),
{
    remove_first_occurrence(&mut cells[i][j].objects, uid);
}

/// Takes the first occurrence of `x` out of `v`, if there is one.
fn remove_first_occurrence(v: &mut Vec<usize>, x: usize)
    ensures
        final(v)@ == remove_first(old(v)@, x),
{
    let mut p: usize = 0;
    while p < v.len()
        invariant
            p <= v@.len(),
            v@ == old(v)@,
            forall|q: int| 0 <= q < p ==> v@[q] != x,
        decreases v@.len() - p,
    {
        if v[p] == x {
            proof {
                lemma_remove_first_at(v@, x, p as int);
            }
            v.remove(p);
            return;
        }
        p = p + 1;
    }
    proof {
        lemma_remove_first_absent(v@, x);
    }
}

proof fn lemma_remove_first_at(s: Seq<usize>, x: usize, p: int)
    requires
        0 <= p < s.len(),
        s[p] == x,
        forall|q: int| 0 <= q < p ==> s[q] != x,
    ensures
        remove_first(s, x) == s.remove(p),
    decreases p,
{
    if p > 0 {
        lemma_remove_first_at(s.drop_first(), x, p - 1);
        assert(s.remove(p) =~= seq![s[0]] + s.drop_first().remove(p - 1));
    } else {
        assert(s.remove(0) =~= s.drop_first());
    }
}

proof fn lemma_remove_first_absent(s: Seq<usize>, x: usize)
    requires
        forall|q: int| 0 <= q < s.len() ==> s[q] != x,
    ensures
        remove_first(s, x) == s,
    decreases s.len(),
{
    if s.len() > 0 {
        lemma_remove_first_absent(s.drop_first(), x);
        assert(seq![s[0]] + s.drop_first() =~= s);
    }
}

/// Filing by `update` puts each handle in exactly the cell of its coordinates, and
/// lists each cell's handles in increasing order.
pub proof fn law_bucket(coords: Seq<(usize, usize)>, i: int, j: int)
    requires
        coords.len() <= usize::MAX,
    ensures
        forall|k: int|
            0 <= k < bucket(coords, i, j).len() ==> {
                &&& (#[trigger] bucket(coords, i, j)[k]) < coords.len()
                &&& coords[bucket(coords, i, j)[k] as int].0 == i
                &&& coords[bucket(coords, i, j)[k] as int].1 == j
            },
        forall|m: int|
            0 <= m < coords.len() && (#[trigger] coords[m]).0 == i && coords[m].1 == j
                ==> bucket(coords, i, j).contains(m as usize),
        forall|p: int, q: int|
            0 <= p < q < bucket(coords, i, j).len() ==> bucket(coords, i, j)[p] < bucket(
                coords,
                i,
                j,
            )[q],
    decreases coords.len(),
{
    if coords.len() > 0 {
        let prev = coords.drop_last();
        law_bucket(prev, i, j);
        let b = bucket(coords, i, j);
        let pb = bucket(prev, i, j);
        let last = (coords.len() - 1) as usize;
        let hit = coords.last().0 == i && coords.last().1 == j;
        assert(b == if hit { pb.push(last) } else { pb });
        assert forall|k: int| 0 <= k < b.len() implies {
            &&& (#[trigger] b[k]) < coords.len()
            &&& coords[b[k] as int].0 == i
            &&& coords[b[k] as int].1 == j
        } by {
            if k < pb.len() {
                assert(b[k] == pb[k]);
                assert(prev[pb[k] as int] == coords[pb[k] as int]);
            } else {
                assert(b[k] == last);
            }
        }
        assert forall|m: int|
            0 <= m < coords.len() && (#[trigger] coords[m]).0 == i && coords[m].1 == j implies b.contains(
            m as usize,
        ) by {
            if m < prev.len() {
                assert(prev[m] == coords[m]);
                assert(pb.contains(m as usize));
                let x = choose|x: int| 0 <= x < pb.len() && pb[x] == m as usize;
                assert(b[x] == m as usize);
            } else {
                assert(b[b.len() - 1] == m as usize);
            }
        }
        assert forall|p: int, q: int| 0 <= p < q < b.len() implies b[p] < b[q] by {
            if q < pb.len() {
                assert(b[p] == pb[p] && b[q] == pb[q]);
            } else {
                assert(b[p] == pb[p]);
                assert(pb[p] < prev.len());
            }
        }
    }
}

/// The items of `remove_first(s, x)` are items of `s`.
pub proof fn lemma_remove_first_within(s: Seq<usize>, x: usize)
    ensures
        remove_first(s, x).len() <= s.len(),
        forall|k: int|
            0 <= k < remove_first(s, x).len() ==> s.contains(#[trigger] remove_first(s, x)[k]),
    decreases s.len(),
{
    if s.len() > 0 && s[0] != x {
        lemma_remove_first_within(s.drop_first(), x);
        let r = remove_first(s, x);
        assert forall|k: int| 0 <= k < r.len() implies s.contains(#[trigger] r[k]) by {
            if k == 0 {
                assert(s[0] == r[0]);
            } else {
                let v = r[k];
                assert(v == remove_first(s.drop_first(), x)[k - 1]);
                let m = choose|m: int| 0 <= m < s.drop_first().len() && s.drop_first()[m] == v;
                assert(s[m + 1] == v);
            }
        }
    } else if s.len() > 0 {
        assert forall|k: int| 0 <= k < s.drop_first().len() implies s.contains(
            #[trigger] s.drop_first()[k],
        ) by {
            assert(s[k + 1] == s.drop_first()[k]);
        }
    }
}

} // verus!
