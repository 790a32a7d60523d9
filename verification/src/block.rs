//! How a block of particles is tied together: each particle of the block is linked
//! to (up to) three of the others, chosen by comparing distances.
//!
//! Distances are floating-point values that the caller compares; here they are
//! given as integer keys that order as the distances do.
use vstd::prelude::*;

verus! {

/// Some pair of `pairs` is `(a, b)`.
pub open spec fn has_link(pairs: Seq<(usize, usize)>, a: usize, b: usize) -> bool {
    exists|k: int| 0 <= k < pairs.len() && pairs[k] == (a, b)
}

/// One step of the choice of neighbours: candidate `j` takes the first of the three
/// slots, from slot `k` on, that is empty (`-1`) or holds a candidate farther away
/// than `j` (by the distance keys `row`); when none does, the slots stay as they are.
pub open spec fn place(near: Seq<int>, row: Seq<u32>, j: int, k: int) -> Seq<int>
    decreases 3 - k,
{
    if k >= 3 {
        near
    } else if near[k] < 0 || row[near[k]] > row[j] {
        near.update(k, j)
    } else {
        place(near, row, j, k + 1)
    }
}

/// The three neighbour slots of block member `i` after the candidates `0 .. m`
/// (all but `i` itself) have been offered; `-1` marks an empty slot.
pub open spec fn nearest(row: Seq<u32>, i: int, m: int) -> Seq<int>
    decreases m,
{
    if m <= 0 {
        seq![-1int, -1int, -1int]
    } else {
        let prev = nearest(row, i, m - 1);
        if m - 1 == i {
            prev
        } else {
            place(prev, row, m - 1, 0)
        }
    }
}

/// Links `uid` to the members in slots `s ..` of `near`, skipping empty slots and
/// members that `uid` is already linked with, in either direction.
pub open spec fn link_nearest(
    pairs: Seq<(usize, usize)>,
    uid: usize,
    handles: Seq<usize>,
    near: Seq<int>,
    s: int,
) -> Seq<(usize, usize)>
    decreases 3 - s,
{
    if s >= 3 {
        pairs
    } else {
        let next = if near[s] >= 0 && !has_link(pairs, uid, handles[near[s]]) && !has_link(
            pairs,
            handles[near[s]],
            uid,
        ) {
            pairs.push((uid, handles[near[s]]))
        } else {
            pairs
        };
        link_nearest(next, uid, handles, near, s + 1)
    }
}

/// The link ends after the first `m` members of the block `handles` have been
/// linked to their neighbours; `keys[i][j]` orders the distance from member `i` to
/// member `j`.
pub open spec fn block_links(
    pairs: Seq<(usize, usize)>,
    handles: Seq<usize>,
    keys: Seq<Seq<u32>>,
    m: int,
) -> Seq<(usize, usize)>
    decreases m,
{
    if m <= 0 {
        pairs
    } else {
        let prev = block_links(pairs, handles, keys, m - 1);
        link_nearest(
            prev,
            handles[m - 1],
            handles,
            nearest(keys[m - 1], m - 1, handles.len() as int),
            0,
        )
    }
}

/// The slots of an executable neighbour array, in which `n` marks an empty slot.
pub open spec fn slots(near: Seq<usize>, n: usize) -> Seq<int> {
    near.map_values(|x: usize| if x == n { -1int } else { x as int })
}

/// The distance keys as sequences.
pub open spec fn key_rows(keys: Seq<Vec<u32>>) -> Seq<Seq<u32>> {
    keys.map_values(|r: Vec<u32>| r@)
}

/// Offers candidate `j` to the neighbour slots `near` (one step of [`nearest`]).
pub(crate) fn place_nearest(near: &mut Vec<usize>, row: &Vec<u32>, j: usize, n: usize)
    requires
        old(near)@.len() == 3,
        forall|k: int| 0 <= k < 3 ==> old(near)@[k] <= n,
        row@.len() == n,
        j < n,
    ensures
        final(near)@.len() == 3,
        forall|k: int| 0 <= k < 3 ==> final(near)@[k] <= n,
        forall|k: int| 0 <= k < 3 ==> final(near)@[k] == old(near)@[k] || final(near)@[k] == j,
        slots(final(near)@, n) == place(slots(old(near)@, n), row@, j as int, 0),
{
    let mut k: usize = 0;
    while k < 3
        invariant
            near@ == old(near)@,
            near@.len() == 3,
            forall|m: int| 0 <= m < 3 ==> near@[m] <= n,
            row@.len() == n,
            j < n,
            k <= 3,
            place(slots(near@, n), row@, j as int, 0) == place(
                slots(near@, n),
                row@,
                j as int,
                k as int,
            ),
        decreases 3 - k,
    {
        if near[k] == n || row[near[k]] > row[j] {
            near.set(k, j);
            assert(slots(near@, n) =~= slots(old(near)@, n).update(k as int, j as int));
            return;
        }
        k = k + 1;
    }
}

/// Each pair from index `start` on joins two ends that no earlier pair joins, in
/// either direction.
pub open spec fn fresh_from(pairs: Seq<(usize, usize)>, start: int) -> bool {
    forall|t: int|
        start <= t < pairs.len() ==> !has_link(pairs.take(t), (#[trigger] pairs[t]).0, pairs[t].1)
            && !has_link(pairs.take(t), pairs[t].1, pairs[t].0)
}

/// Each pair from index `start` on joins two members of `handles` at different
/// places in it.
pub open spec fn within_block(pairs: Seq<(usize, usize)>, start: int, handles: Seq<usize>) -> bool {
    forall|t: int|
        start <= t < pairs.len() ==> exists|a: int, b: int|
            0 <= a < handles.len() && 0 <= b < handles.len() && a != b && #[trigger] pairs[t] == (
                handles[a],
                handles[b],
            )
}

/// The slots hold nothing (`-1`) or candidates below `m` other than `i`.
pub open spec fn slots_ok(near: Seq<int>, i: int, m: int) -> bool {
    &&& near.len() == 3
    &&& forall|k: int| 0 <= k < 3 ==> near[k] == -1 || (0 <= #[trigger] near[k] < m && near[k] != i)
}

proof fn lemma_place_slots(near: Seq<int>, row: Seq<u32>, j: int, k: int)
    requires
        near.len() == 3,
        0 <= k,
    ensures
        place(near, row, j, k).len() == 3,
        forall|x: int|
            0 <= x < 3 ==> #[trigger] place(near, row, j, k)[x] == near[x] || place(
                near,
                row,
                j,
                k,
            )[x] == j,
    decreases 3 - k,
{
    if k < 3 && !(near[k] < 0 || row[near[k]] > row[j]) {
        lemma_place_slots(near, row, j, k + 1);
    }
}

proof fn lemma_nearest_slots(row: Seq<u32>, i: int, m: int)
    requires
        0 <= m,
    ensures
        slots_ok(nearest(row, i, m), i, m),
    decreases m,
{
    if m > 0 {
        lemma_nearest_slots(row, i, m - 1);
        if m - 1 != i {
            lemma_place_slots(nearest(row, i, m - 1), row, m - 1, 0);
        }
    }
}

proof fn lemma_link_nearest(
    pairs: Seq<(usize, usize)>,
    uid: usize,
    handles: Seq<usize>,
    near: Seq<int>,
    s: int,
    i: int,
    start: int,
)
    requires
        0 <= start <= pairs.len(),
        0 <= s,
        0 <= i < handles.len(),
        uid == handles[i],
        slots_ok(near, i, handles.len() as int),
        fresh_from(pairs, start),
        within_block(pairs, start, handles),
    ensures
        link_nearest(pairs, uid, handles, near, s).len() >= pairs.len(),
        link_nearest(pairs, uid, handles, near, s).len() <= pairs.len() + if s < 3 {
            3 - s
        } else {
            0
        },
        link_nearest(pairs, uid, handles, near, s).take(pairs.len() as int) == pairs,
        fresh_from(link_nearest(pairs, uid, handles, near, s), start),
        within_block(link_nearest(pairs, uid, handles, near, s), start, handles),
    decreases 3 - s,
{
    if s < 3 {
        let next = if near[s] >= 0 && !has_link(pairs, uid, handles[near[s]]) && !has_link(
            pairs,
            handles[near[s]],
            uid,
        ) {
            pairs.push((uid, handles[near[s]]))
        } else {
            pairs
        };
        if near[s] >= 0 && !has_link(pairs, uid, handles[near[s]]) && !has_link(
            pairs,
            handles[near[s]],
            uid,
        ) {
            let t = pairs.len() as int;
            assert(next.take(t) =~= pairs);
            assert forall|u: int| start <= u < next.len() implies !has_link(
                next.take(u),
                (#[trigger] next[u]).0,
                next[u].1,
            ) && !has_link(next.take(u), next[u].1, next[u].0) by {
                if u < t {
                    assert(next.take(u) =~= pairs.take(u));
                    assert(next[u] == pairs[u]);
                }
            }
            assert forall|u: int| start <= u < next.len() implies exists|a: int, b: int|
                0 <= a < handles.len() && 0 <= b < handles.len() && a != b && #[trigger] next[u]
                    == (handles[a], handles[b]) by {
                if u < t {
                    assert(next[u] == pairs[u]);
                } else {
                    assert(next[u] == (handles[i], handles[near[s]]));
                }
            }
        }
        lemma_link_nearest(next, uid, handles, near, s + 1, i, start);
        let res = link_nearest(next, uid, handles, near, s + 1);
        assert(res.take(pairs.len() as int) =~= next.take(next.len() as int).take(
            pairs.len() as int,
        ));
        assert(next.take(pairs.len() as int) =~= pairs);
    } else {
        assert(pairs.take(pairs.len() as int) =~= pairs);
    }
}

/// Tying a block of particles together adds only links that join two members of the
/// block at different places in it, never a link that joins two particles already
/// joined (in either direction, by an earlier link or one added before it), at most
/// three links for each member, and keeps the links that were there before.
pub proof fn law_block_links(
    pairs: Seq<(usize, usize)>,
    handles: Seq<usize>,
    keys: Seq<Seq<u32>>,
)
    ensures
        block_links(pairs, handles, keys, handles.len() as int).take(pairs.len() as int) == pairs,
        block_links(pairs, handles, keys, handles.len() as int).len() <= pairs.len() + 3
            * handles.len(),
        fresh_from(block_links(pairs, handles, keys, handles.len() as int), pairs.len() as int),
        within_block(
            block_links(pairs, handles, keys, handles.len() as int),
            pairs.len() as int,
            handles,
        ),
{
    lemma_block_links(pairs, handles, keys, handles.len() as int);
}

proof fn lemma_block_links(pairs: Seq<(usize, usize)>, handles: Seq<usize>, keys: Seq<Seq<u32>>, m: int)
    requires
        0 <= m <= handles.len(),
    ensures
        block_links(pairs, handles, keys, m).len() >= pairs.len(),
        block_links(pairs, handles, keys, m).len() <= pairs.len() + 3 * m,
        block_links(pairs, handles, keys, m).take(pairs.len() as int) == pairs,
        fresh_from(block_links(pairs, handles, keys, m), pairs.len() as int),
        within_block(block_links(pairs, handles, keys, m), pairs.len() as int, handles),
    decreases m,
{
    if m > 0 {
        lemma_block_links(pairs, handles, keys, m - 1);
        let prev = block_links(pairs, handles, keys, m - 1);
        lemma_nearest_slots(keys[m - 1], m - 1, handles.len() as int);
        lemma_link_nearest(
            prev,
            handles[m - 1],
            handles,
            nearest(keys[m - 1], m - 1, handles.len() as int),
            0,
            m - 1,
            pairs.len() as int,
        );
        let res = block_links(pairs, handles, keys, m);
        assert(res.take(pairs.len() as int) =~= res.take(prev.len() as int).take(
            pairs.len() as int,
        ));
    } else {
        assert(pairs.take(pairs.len() as int) =~= pairs);
    }
}

/// Member `j0` is the nearest fellow of member `i` among the members `0 .. n` of a
/// block, by the distance keys `row`: no other member (but `i` itself) has a smaller
/// key, and every member before `j0` (but `i`) has a larger one.
pub open spec fn is_nearest_fellow(row: Seq<u32>, i: int, n: int, j0: int) -> bool {
    &&& 0 <= j0 < n
    &&& j0 != i
    &&& forall|j: int| 0 <= j < n && j != i ==> row[j0] <= #[trigger] row[j]
    &&& forall|j: int| 0 <= j < j0 && j != i ==> row[j0] < #[trigger] row[j]
}

proof fn lemma_place_keeps_first(near: Seq<int>, row: Seq<u32>, j: int, k: int)
    requires
        near.len() == 3,
        1 <= k,
    ensures
        place(near, row, j, k)[0] == near[0],
        place(near, row, j, k).len() == 3,
    decreases 3 - k,
{
    if k < 3 && !(near[k] < 0 || row[near[k]] > row[j]) {
        lemma_place_keeps_first(near, row, j, k + 1);
    }
}

/// Some member of `0 .. m` other than `i` exists.
spec fn has_fellow(i: int, m: int) -> bool {
    m >= 2 || (m == 1 && i != 0)
}

proof fn lemma_nearest_first(row: Seq<u32>, i: int, m: int)
    requires
        0 <= m,
        0 <= i,
    ensures
        !has_fellow(i, m) ==> nearest(row, i, m)[0] == -1,
        has_fellow(i, m) ==> is_nearest_fellow(row, i, m, nearest(row, i, m)[0]),
    decreases m,
{
    if m > 0 {
        lemma_nearest_first(row, i, m - 1);
        lemma_nearest_slots(row, i, m - 1);
        let prev = nearest(row, i, m - 1);
        if m - 1 != i {
            let res = nearest(row, i, m);
            assert(res == place(prev, row, m - 1, 0));
            if prev[0] < 0 || row[prev[0]] > row[m - 1] {
                assert(res[0] == m - 1);
                if prev[0] < 0 {
                    assert(!has_fellow(i, m - 1));
                    assert(m - 1 == 0 || (m - 1 == 1 && i == 0));
                }
            } else {
                lemma_place_keeps_first(prev, row, m - 1, 1);
                assert(res[0] == prev[0]);
            }
        }
    }
}

/// The first neighbour slot of each member of a block of two or more ends holding
/// its nearest fellow member (the earliest in block order among the nearest), every
/// other member of the block, before it or after it, having been offered.
pub proof fn law_nearest_first_slot(row: Seq<u32>, i: int, n: int)
    requires
        0 <= i < n,
        2 <= n,
    ensures
        is_nearest_fellow(row, i, n, nearest(row, i, n)[0]),
{
    lemma_nearest_first(row, i, n);
}

proof fn lemma_has_link_prefix(p: Seq<(usize, usize)>, q: Seq<(usize, usize)>, a: usize, b: usize)
    requires
        p.len() <= q.len(),
        q.take(p.len() as int) == p,
        has_link(p, a, b),
    ensures
        has_link(q, a, b),
{
    let k = choose|k: int| 0 <= k < p.len() && p[k] == (a, b);
    assert(q.take(p.len() as int)[k] == q[k]);
}

proof fn lemma_link_nearest_extends(
    pairs: Seq<(usize, usize)>,
    uid: usize,
    handles: Seq<usize>,
    near: Seq<int>,
    s: int,
)
    ensures
        link_nearest(pairs, uid, handles, near, s).len() >= pairs.len(),
        link_nearest(pairs, uid, handles, near, s).take(pairs.len() as int) == pairs,
    decreases 3 - s,
{
    if s < 3 {
        let next = if near[s] >= 0 && !has_link(pairs, uid, handles[near[s]]) && !has_link(
            pairs,
            handles[near[s]],
            uid,
        ) {
            pairs.push((uid, handles[near[s]]))
        } else {
            pairs
        };
        lemma_link_nearest_extends(next, uid, handles, near, s + 1);
        let res = link_nearest(next, uid, handles, near, s + 1);
        assert(next.take(pairs.len() as int) =~= pairs);
        assert(res.take(pairs.len() as int) =~= res.take(next.len() as int).take(
            pairs.len() as int,
        ));
    } else {
        assert(pairs.take(pairs.len() as int) =~= pairs);
    }
}

proof fn lemma_block_links_extends(
    pairs: Seq<(usize, usize)>,
    handles: Seq<usize>,
    keys: Seq<Seq<u32>>,
    m: int,
    m2: int,
)
    requires
        0 <= m <= m2,
    ensures
        block_links(pairs, handles, keys, m2).len() >= block_links(pairs, handles, keys, m).len(),
        block_links(pairs, handles, keys, m2).take(
            block_links(pairs, handles, keys, m).len() as int,
        ) == block_links(pairs, handles, keys, m),
    decreases m2 - m,
{
    let bm = block_links(pairs, handles, keys, m);
    if m < m2 {
        lemma_block_links_extends(pairs, handles, keys, m, m2 - 1);
        let prev = block_links(pairs, handles, keys, m2 - 1);
        lemma_link_nearest_extends(
            prev,
            handles[m2 - 1],
            handles,
            nearest(keys[m2 - 1], m2 - 1, handles.len() as int),
            0,
        );
        let res = block_links(pairs, handles, keys, m2);
        assert(res.take(bm.len() as int) =~= res.take(prev.len() as int).take(bm.len() as int));
    } else {
        assert(bm.take(bm.len() as int) =~= bm);
    }
}

/// Tying a block of two or more particles together leaves each member linked, in one
/// direction or the other, with its nearest fellow member (the earliest in block
/// order among the nearest, by the distance keys).
pub proof fn law_block_links_nearest(
    pairs: Seq<(usize, usize)>,
    handles: Seq<usize>,
    keys: Seq<Seq<u32>>,
    i: int,
    j0: int,
)
    requires
        0 <= i < handles.len(),
        is_nearest_fellow(keys[i], i, handles.len() as int, j0),
    ensures
        has_link(
            block_links(pairs, handles, keys, handles.len() as int),
            handles[i],
            handles[j0],
        ) || has_link(
            block_links(pairs, handles, keys, handles.len() as int),
            handles[j0],
            handles[i],
        ),
{
    let n = handles.len() as int;
    law_nearest_first_slot(keys[i], i, n);
    let near = nearest(keys[i], i, n);
    let j1 = near[0];
    // the nearest fellow is unique
    if j1 != j0 {
        if j1 < j0 {
            assert(keys[i][j0] < keys[i][j1]);
        } else {
            assert(keys[i][j1] < keys[i][j0]);
        }
    }
    let prev = block_links(pairs, handles, keys, i);
    let uid = handles[i];
    let h = handles[j0];
    let next = if near[0] >= 0 && !has_link(prev, uid, h) && !has_link(prev, h, uid) {
        prev.push((uid, h))
    } else {
        prev
    };
    if near[0] >= 0 && !has_link(prev, uid, h) && !has_link(prev, h, uid) {
        assert(next[prev.len() as int] == (uid, h));
        assert(has_link(next, uid, h));
    } else {
        assert(has_link(next, uid, h) || has_link(next, h, uid));
    }
    lemma_link_nearest_extends(next, uid, handles, near, 1);
    let after = block_links(pairs, handles, keys, i + 1);
    assert(after == link_nearest(next, uid, handles, near, 1));
    lemma_block_links_extends(pairs, handles, keys, i + 1, n);
    let fin = block_links(pairs, handles, keys, n);
    assert(fin.take(next.len() as int) =~= fin.take(after.len() as int).take(next.len() as int));
    if has_link(next, uid, h) {
        lemma_has_link_prefix(next, fin, uid, h);
    } else {
        lemma_has_link_prefix(next, fin, h, uid);
    }
}

} // verus!
