use vstd::prelude::*;

use crate::pac::Pac;
use crate::pellet::Pellet;
use crate::store::{lemma_find_pellet, units_of};
use crate::world::{Position, Team, WorldModel};

verus! {

/// `path` is a nonempty sequence of positions, each a neighbour of the one before.
pub open spec fn is_walk(wm: WorldModel, path: Seq<Position>) -> bool {
    &&& path.len() > 0
    &&& forall|i: int|
        0 <= i < path.len() - 1 ==> #[trigger] wm.neighbors_of(path[i]).contains(path[i + 1])
}

/// `b` can be reached from `a` by moves between neighbouring cells.
pub open spec fn reachable(wm: WorldModel, a: Position, b: Position) -> bool {
    exists|path: Seq<Position>| #[trigger] is_walk(wm, path) && path[0] == a && path.last() == b
}

/// `all` with the positions of `ns` appended in order, each unless it is
/// already there: one expansion step of the search.
pub open spec fn enqueue_new(all: Seq<Position>, ns: Seq<Position>) -> Seq<Position>
    decreases ns.len(),
{
    if ns.len() == 0 {
        all
    } else {
        let a = enqueue_new(all, ns.drop_last());
        if a.contains(ns.last()) {
            a
        } else {
            a.push(ns.last())
        }
    }
}

/// Breadth-first search with at most `fuel` dequeues. `all` holds every
/// position ever enqueued, in order; those from `head` on are still waiting.
/// The first dequeued position that holds a pellet gives the result.
pub open spec fn bfs(wm: WorldModel, all: Seq<Position>, head: nat, fuel: nat) -> Option<Pellet>
    decreases fuel,
{
    if fuel == 0 || head >= all.len() {
        None
    } else if wm.pellet_lookup(all[head as int]).is_some() {
        wm.pellet_lookup(all[head as int])
    } else {
        bfs(wm, enqueue_new(all, wm.neighbors_of(all[head as int])), head + 1, (fuel - 1) as nat)
    }
}

/// The pellet that breadth-first search from `start` finds: nearest by
/// number of moves, ties broken by the neighbour order left, up, right,
/// down. No search dequeues more positions than the maze has cells.
pub open spec fn bfs_from(wm: WorldModel, start: Position) -> Option<Pellet> {
    bfs(wm, seq![start], 0, wm.grid@.len() as nat)
}

/// Number of `true` entries of `s`.
pub open spec fn count_true(s: Seq<bool>) -> nat
    decreases s.len(),
{
    if s.len() == 0 {
        0
    } else {
        count_true(s.drop_last()) + if s.last() {
            1nat
        } else {
            0nat
        }
    }
}

proof fn lemma_count_true_bound(s: Seq<bool>)
    ensures
        count_true(s) <= s.len(),
    decreases s.len(),
{
    if s.len() > 0 {
        lemma_count_true_bound(s.drop_last());
    }
}

proof fn lemma_count_true_set(s: Seq<bool>, i: int)
    requires
        0 <= i < s.len(),
        !s[i],
    ensures
        count_true(s.update(i, true)) == count_true(s) + 1,
    decreases s.len(),
{
    let u = s.update(i, true);
    if i == s.len() - 1 {
        assert(u.drop_last() == s.drop_last());
    } else {
        lemma_count_true_set(s.drop_last(), i);
        assert(u.drop_last() == s.drop_last().update(i, true));
    }
}

/// The BFS state once every queued position has been expanded: every
/// position reachable from the first one is in the queue.
proof fn lemma_closed_queue_covers(
    wm: WorldModel,
    start: Position,
    queue: Seq<Position>,
    visited: Seq<bool>,
    path: Seq<Position>,
)
    requires
        wm.wf(),
        wm.in_bounds(start),
        queue.len() > 0,
        queue[0] == start,
        visited.len() == wm.grid@.len(),
        forall|i: int| 0 <= i < queue.len() ==> wm.in_bounds(#[trigger] queue[i]),
        forall|k: int|
            0 <= k < visited.len() && #[trigger] visited[k] ==> exists|j: int|
                0 <= j < queue.len() && wm.flat(#[trigger] queue[j]) == k,
        forall|i: int, c: Position|
            0 <= i < queue.len() && #[trigger] wm.neighbors_of(queue[i]).contains(c) ==> visited[wm.flat(c)],
        is_walk(wm, path),
        path[0] == start,
    ensures
        queue.contains(path.last()),
    decreases path.len(),
{
    if path.len() == 1 {
        assert(queue[0] == path.last());
    } else {
        let prefix = path.drop_last();
        assert(is_walk(wm, prefix)) by {
            assert forall|i: int| 0 <= i < prefix.len() - 1 implies #[trigger] wm.neighbors_of(prefix[i]).contains(prefix[i + 1]) by {
                assert(wm.neighbors_of(path[i]).contains(path[i + 1]));
            }
        }
        lemma_closed_queue_covers(wm, start, queue, visited, prefix);
        let p = prefix.last();
        let q = path.last();
        let k = path.len() - 2;
        assert(wm.neighbors_of(path[k]).contains(path[k + 1]));
        let i = choose|i: int| 0 <= i < queue.len() && queue[i] == p;
        assert(wm.in_bounds(queue[i]));
        wm.lemma_neighbors_valid(p);
        assert(wm.neighbors_of(queue[i]).contains(q));
        assert(wm.in_bounds(q));
        wm.lemma_flat_in_range(q);
        assert(visited[wm.flat(q)]);
        let j = choose|j: int| 0 <= j < queue.len() && wm.flat(#[trigger] queue[j]) == wm.flat(q);
        wm.lemma_flat_injective(queue[j], q);
    }
}

/// The pellet behind an optional reference.
pub open spec fn owned(r: Option<&Pellet>) -> Option<Pellet> {
    match r {
        Some(p) => Some(*p),
        None => None,
    }
}

/// No walk from `start` shorter than `n` positions ends on a pellet.
pub open spec fn no_pellet_within(wm: WorldModel, start: Position, n: nat) -> bool {
    forall|w: Seq<Position>|
        #[trigger] is_walk(wm, w) && w[0] == start && wm.pellet_lookup(w.last()).is_some() ==> w.len()
            >= n
}

/// In a breadth-first queue whose walk lengths grow along the queue, where
/// each expanded position's neighbours sit at most one step further, every
/// walk shorter than the one to the head ends on an already expanded position.
proof fn lemma_short_walks_expanded(
    wm: WorldModel,
    start: Position,
    queue: Seq<Position>,
    paths: Seq<Seq<Position>>,
    head: int,
    w: Seq<Position>,
)
    requires
        0 <= head < queue.len(),
        paths.len() == queue.len(),
        queue[0] == start,
        paths[0].len() == 1,
        forall|i: int, k: int|
            0 <= i <= k < queue.len() ==> (#[trigger] paths[i]).len() <= (#[trigger] paths[k]).len(),
        forall|i: int, c: Position|
            0 <= i < head && #[trigger] wm.neighbors_of(queue[i]).contains(c) ==> exists|k: int|
                0 <= k < queue.len() && queue[k] == c && (#[trigger] paths[k]).len() <= paths[i].len() + 1,
        is_walk(wm, w),
        w[0] == start,
        w.len() < paths[head].len(),
    ensures
        exists|j: int| 0 <= j < head && queue[j] == w.last() && (#[trigger] paths[j]).len() <= w.len(),
    decreases w.len(),
{
    if w.len() == 1 {
        assert(paths[0].len() <= paths[head].len());
        assert(queue[0] == w.last());
    } else {
        let prefix = w.drop_last();
        assert(is_walk(wm, prefix)) by {
            assert forall|i: int| 0 <= i < prefix.len() - 1 implies #[trigger] wm.neighbors_of(prefix[i]).contains(prefix[i + 1]) by {
                assert(wm.neighbors_of(w[i]).contains(w[i + 1]));
            }
        }
        lemma_short_walks_expanded(wm, start, queue, paths, head, prefix);
        let i = choose|i: int| 0 <= i < head && queue[i] == prefix.last() && (#[trigger] paths[i]).len() <= prefix.len();
        let n = w.len() - 2;
        assert(wm.neighbors_of(w[n]).contains(w[n + 1]));
        assert(wm.neighbors_of(queue[i]).contains(w.last()));
        let k = choose|k: int| 0 <= k < queue.len() && queue[k] == w.last() && (#[trigger] paths[k]).len() <= paths[i].len() + 1;
        if k >= head {
            assert(paths[head].len() <= paths[k].len());
        }
        assert(paths[k].len() <= w.len());
    }
}

/// `r` answers a nearest-pellet query from `start`: a pellet that lies where
/// it is and that a walk from `start` reaches no later than any other
/// pellet, or none when no reachable position holds a pellet.
pub open spec fn sound_answer(wm: WorldModel, start: Position, r: Option<Pellet>) -> bool {
    &&& r matches Some(p) ==> wm.pellet_lookup(p.pos) == Some(p) && reachable(wm, start, p.pos)
    &&& r matches Some(p) ==> exists|wp: Seq<Position>|
        #[trigger] is_walk(wm, wp) && wp[0] == start && wp.last() == p.pos && no_pellet_within(
            wm,
            start,
            wp.len(),
        )
    &&& r.is_none() ==> forall|q: Position|
        reachable(wm, start, q) ==> (#[trigger] wm.pellet_lookup(q)).is_none()
}

/// With a single pellet in sight, the answer is that pellet when it can be
/// reached from `start` and none when walls cut it off.
pub proof fn lemma_single_pellet(wm: WorldModel, start: Position, r: Option<Pellet>)
    requires
        wm.wf(),
        wm.pellets@.len() == 1,
        sound_answer(wm, start, r),
    ensures
        r == if reachable(wm, start, wm.pellets@[0].pos) {
            Some(wm.pellets@[0])
        } else {
            None::<Pellet>
        },
{
    let only = wm.pellets@[0];
    lemma_find_pellet(wm.pellets@, only.pos);
    assert(wm.pellet_lookup(only.pos) == Some(only));
    if let Some(p) = r {
        lemma_find_pellet(wm.pellets@, p.pos);
        let i = choose|i: int| 0 <= i < wm.pellets@.len() && wm.pellets@[i].pos == p.pos;
        assert(i == 0);
        assert(p == only);
    }
}

/// Repeated searches on the same world from the same start agree: every
/// answer is the one `bfs_from` gives, so equally near pellets are always
/// decided the same way.
pub proof fn lemma_search_repeatable(
    wm: WorldModel,
    start: Position,
    first: Option<Pellet>,
    second: Option<Pellet>,
)
    requires
        first == bfs_from(wm, start),
        second == bfs_from(wm, start),
    ensures
        first == second,
{
}

/// The extension of `all` by `enqueue_new` keeps `all` as its prefix, and the
/// first position of `ns` comes right after it when it was not there yet.
proof fn lemma_enqueue_new_prefix(all: Seq<Position>, ns: Seq<Position>)
    ensures
        enqueue_new(all, ns).len() >= all.len(),
        forall|i: int| 0 <= i < all.len() ==> #[trigger] enqueue_new(all, ns)[i] == all[i],
        ns.len() > 0 && !all.contains(ns[0]) ==> enqueue_new(all, ns).len() > all.len()
            && enqueue_new(all, ns)[all.len() as int] == ns[0],
    decreases ns.len(),
{
    if ns.len() > 0 {
        let t = ns.drop_last();
        lemma_enqueue_new_prefix(all, t);
        if ns.len() == 1 {
            assert(t.len() == 0);
        } else {
            assert(t[0] == ns[0]);
        }
    }
}

/// The search expands neighbours in the fixed order left, up, right, down:
/// when `start` holds no pellet and its first neighbour in that order holds
/// one, that pellet is the answer, whatever the other neighbours hold.
pub proof fn lemma_first_neighbor_wins(wm: WorldModel, start: Position)
    requires
        wm.wf(),
        wm.in_bounds(start),
        wm.pellet_lookup(start).is_none(),
        wm.neighbors_of(start).len() > 0,
        wm.pellet_lookup(wm.neighbors_of(start)[0]).is_some(),
    ensures
        bfs_from(wm, start) == wm.pellet_lookup(wm.neighbors_of(start)[0]),
{
    let ns = wm.neighbors_of(start);
    let first = ns[0];
    let all = seq![start];
    assert(first != start);
    assert(!all.contains(first));
    lemma_enqueue_new_prefix(all, ns);
    wm.lemma_neighbors_valid(start);
    assert(ns.contains(first));
    wm.lemma_flat_in_range(start);
    wm.lemma_flat_in_range(first);
    if wm.flat(start) == wm.flat(first) {
        wm.lemma_flat_injective(start, first);
    }
    let total = wm.grid@.len() as nat;
    assert(total >= 2);
    let next = enqueue_new(all, ns);
    assert(bfs(wm, all, 0, total) == bfs(wm, next, 1, (total - 1) as nat));
    assert(next[1] == first);
}

/// Breadth-first search from `start` over floor cells for the nearest pellet.
/// Positions are dequeued in first-in first-out order, each enqueued at most
/// once, and neighbours are expanded left, up, right, down; the first dequeued
/// position that holds a pellet decides the result.
pub fn nearest_pellet<'a>(wm: &'a WorldModel, start: Position) -> (r: Option<&'a Pellet>)
    requires
        wm.wf(),
        wm.in_bounds(start),
    ensures
        r matches Some(p) ==> bfs_from(*wm, start) == Some(*p),
        r.is_none() ==> bfs_from(*wm, start).is_none(),
        sound_answer(*wm, start, owned(r)),
{
    let total = wm.grid.len();
    proof {
        wm.lemma_flat_all();
    }
    let mut visited: Vec<bool> = Vec::new();
    let mut k: usize = 0;
    while k < total
        invariant
            k <= total,
            visited@.len() == k,
            forall|j: int| 0 <= j < k ==> !visited@[j],
            count_true(visited@) == 0,
        decreases total - k,
    {
        let ghost before = visited@;
        visited.push(false);
        assert(visited@.drop_last() == before);
        k = k + 1;
    }
    let start_index = wm.flat_index(start);
    proof {
        lemma_count_true_set(visited@, start_index as int);
    }
    visited.set(start_index, true);
    let mut queue: Vec<Position> = Vec::new();
    queue.push(start);
    let ghost mut paths: Seq<Seq<Position>> = seq![seq![start]];
    let mut head: usize = 0;
    proof {
        assert forall|j: int|
            0 <= j < visited@.len() && #[trigger] visited@[j] implies exists|i: int|
                0 <= i < queue@.len() && wm.flat(#[trigger] queue@[i]) == j by {
            assert(j == start_index);
            assert(wm.flat(queue@[0]) == j);
        }
        lemma_count_true_bound(visited@);
        assert(is_walk(*wm, seq![start]));
    }
    while head < queue.len()
        invariant
            wm.wf(),
            wm.in_bounds(start),
            total == wm.grid@.len(),
            forall|p: Position| wm.in_bounds(p) ==> 0 <= #[trigger] wm.flat(p) < total,
            visited@.len() == total,
            queue@.len() == count_true(visited@),
            queue@.len() <= total,
            queue@.len() > 0,
            queue@[0] == start,
            head <= queue@.len(),
            bfs(*wm, queue@, head as nat, (total - head) as nat) == bfs_from(*wm, start),
            paths.len() == queue@.len(),
            forall|i: int|
                0 <= i < queue@.len() ==> wm.in_bounds(#[trigger] queue@[i]) && visited@[wm.flat(
                    queue@[i],
                )],
            forall|j: int|
                0 <= j < visited@.len() && #[trigger] visited@[j] ==> exists|i: int|
                    0 <= i < queue@.len() && wm.flat(#[trigger] queue@[i]) == j,
            forall|i: int, c: Position|
                0 <= i < head && #[trigger] wm.neighbors_of(queue@[i]).contains(c) ==> wm.in_bounds(c)
                    && visited@[wm.flat(c)],
            forall|i: int| 0 <= i < head ==> (#[trigger] wm.pellet_lookup(queue@[i])).is_none(),
            forall|i: int|
                    0 <= i < queue@.len() ==> is_walk(*wm, #[trigger] paths[i]) && paths[i][0] == start
                        && paths[i].last() == queue@[i],
            paths[0].len() == 1,
            forall|i: int, k: int|
                0 <= i <= k < queue@.len() ==> (#[trigger] paths[i]).len() <= (#[trigger] paths[k]).len(),
            head < queue@.len() ==> forall|k: int|
                0 <= k < queue@.len() ==> (#[trigger] paths[k]).len() <= paths[head as int].len() + 1,
            forall|i: int, c: Position|
                0 <= i < head && #[trigger] wm.neighbors_of(queue@[i]).contains(c) ==> exists|k: int|
                    0 <= k < queue@.len() && queue@[k] == c && (#[trigger] paths[k]).len() <= paths[i].len() + 1,
        decreases (total - head) + (total - queue@.len()),
    {
        let pos = queue[head];
        if let Some(pellet) = wm.pellet_at(pos) {
            proof {
                lemma_find_pellet(wm.pellets@, pos);
                let wp = paths[head as int];
                assert(is_walk(*wm, wp));
                assert forall|w: Seq<Position>|
                    #[trigger] is_walk(*wm, w) && w[0] == start && wm.pellet_lookup(w.last()).is_some() implies w.len() >= wp.len() by {
                    if w.len() < wp.len() {
                        lemma_short_walks_expanded(*wm, start, queue@, paths, head as int, w);
                        let t = choose|t: int| 0 <= t < head && queue@[t] == w.last() && (#[trigger] paths[t]).len() <= w.len();
                        assert(wm.pellet_lookup(queue@[t]).is_none());
                    }
                }
                assert(no_pellet_within(*wm, start, wp.len()));
            }
            return Some(pellet);
        }
        let neighbors = wm.neighbors(pos);
        proof {
            wm.lemma_neighbors_valid(pos);
            assert forall|m: int| 0 <= m < neighbors@.len() implies wm.in_bounds(#[trigger] neighbors@[m]) by {
                assert(neighbors@.contains(neighbors@[m]));
            }
        }
        let ghost len0 = queue@.len();
        let ghost queue0 = queue@;
        proof {
            assert(neighbors@.subrange(0, 0) == Seq::<Position>::empty());
            lemma_find_pellet(wm.pellets@, pos);
        }
        let mut j: usize = 0;
        while j < neighbors.len()
            invariant
                len0 <= queue@.len(),
                wm.wf(),
                total == wm.grid@.len(),
                forall|p: Position| wm.in_bounds(p) ==> 0 <= #[trigger] wm.flat(p) < total,
                visited@.len() == total,
                queue@.len() == count_true(visited@),
                queue@.len() <= total,
                queue@.len() > 0,
                queue@[0] == start,
                head < queue@.len(),
                queue@[head as int] == pos,
                wm.pellet_lookup(pos).is_none(),
                queue0.len() <= len0,
                queue@ == enqueue_new(queue0, neighbors@.subrange(0, j as int)),
                bfs(*wm, queue0, head as nat, (total - head) as nat) == bfs_from(*wm, start),
                paths.len() == queue@.len(),
                neighbors@ == wm.neighbors_of(pos),
                forall|m: int|
                    0 <= m < neighbors@.len() ==> wm.in_bounds(#[trigger] neighbors@[m]),
                j <= neighbors@.len(),
                forall|m: int| 0 <= m < j ==> visited@[wm.flat(#[trigger] neighbors@[m])],
                forall|i: int|
                    0 <= i < queue@.len() ==> wm.in_bounds(#[trigger] queue@[i]) && visited@[wm.flat(
                        queue@[i],
                    )],
                forall|k: int|
                    0 <= k < visited@.len() && #[trigger] visited@[k] ==> exists|i: int|
                        0 <= i < queue@.len() && wm.flat(#[trigger] queue@[i]) == k,
                forall|i: int, c: Position|
                    0 <= i < head && #[trigger] wm.neighbors_of(queue@[i]).contains(c) ==> wm.in_bounds(c)
                    && visited@[wm.flat(c)],
                forall|i: int| 0 <= i < head ==> (#[trigger] wm.pellet_lookup(queue@[i])).is_none(),
                forall|i: int|
                    0 <= i < queue@.len() ==> is_walk(*wm, #[trigger] paths[i]) && paths[i][0] == start
                        && paths[i].last() == queue@[i],
                paths[0].len() == 1,
                forall|i: int, k: int|
                    0 <= i <= k < queue@.len() ==> (#[trigger] paths[i]).len() <= (#[trigger] paths[k]).len(),
                forall|k: int|
                    0 <= k < queue@.len() ==> (#[trigger] paths[k]).len() <= paths[head as int].len() + 1,
                forall|i: int, c: Position|
                    0 <= i < head && #[trigger] wm.neighbors_of(queue@[i]).contains(c) ==> exists|k: int|
                        0 <= k < queue@.len() && queue@[k] == c && (#[trigger] paths[k]).len() <= paths[i].len() + 1,
                forall|m: int|
                    0 <= m < j ==> exists|k: int|
                        0 <= k < queue@.len() && queue@[k] == #[trigger] neighbors@[m] && paths[k].len() <= paths[head as int].len() + 1,
            decreases neighbors@.len() - j,
        {
            let c = neighbors[j];
            assert(neighbors@.contains(c));
            let ci = wm.flat_index(c);
            proof {
                assert(neighbors@.subrange(0, j as int + 1).drop_last() == neighbors@.subrange(0, j as int));
                if visited@[ci as int] {
                    let t = choose|t: int| 0 <= t < queue@.len() && wm.flat(#[trigger] queue@[t]) == ci;
                    wm.lemma_flat_injective(queue@[t], c);
                    assert(queue@.contains(c));
                } else {
                    assert(!queue@.contains(c)) by {
                        if queue@.contains(c) {
                            let t = choose|t: int| 0 <= t < queue@.len() && queue@[t] == c;
                            assert(visited@[wm.flat(queue@[t])]);
                        }
                    }
                }
            }
            if !visited[ci] {
                proof {
                    lemma_count_true_set(visited@, ci as int);
                    lemma_count_true_bound(visited@.update(ci as int, true));
                    let pp = paths[head as int];
                    let np = pp.push(c);
                    assert(pp.last() == pos);
                    assert forall|i: int| 0 <= i < np.len() - 1 implies #[trigger] wm.neighbors_of(np[i]).contains(np[i + 1]) by {
                        if i < pp.len() - 1 {
                            assert(wm.neighbors_of(pp[i]).contains(pp[i + 1]));
                        }
                    }
                    assert(is_walk(*wm, np));
                }
                let ghost old_visited = visited@;
                let ghost old_queue = queue@;
                visited.set(ci, true);
                queue.push(c);
                let ghost old_paths = paths;
                proof {
                    paths = paths.push(paths[head as int].push(c));
                    assert(paths[queue@.len() - 1].len() == old_paths[head as int].len() + 1);
                    assert forall|i: int, k: int|
                        0 <= i <= k < queue@.len() implies (#[trigger] paths[i]).len() <= (#[trigger] paths[k]).len() by {
                        if k == queue@.len() - 1 && i < k {
                            assert(old_paths[i].len() <= old_paths[head as int].len() + 1);
                        }
                    }
                    assert forall|i: int, cc: Position|
                        0 <= i < head && #[trigger] wm.neighbors_of(queue@[i]).contains(cc) implies exists|k: int|
                            0 <= k < queue@.len() && queue@[k] == cc && (#[trigger] paths[k]).len() <= paths[i].len() + 1 by {
                        assert(wm.neighbors_of(old_queue[i]).contains(cc));
                        let k = choose|k: int| 0 <= k < old_queue.len() && old_queue[k] == cc && (#[trigger] old_paths[k]).len() <= old_paths[i].len() + 1;
                        assert(queue@[k] == cc);
                        assert(paths[k] == old_paths[k]);
                    }
                    assert forall|m: int|
                        0 <= m < j implies exists|k: int|
                            0 <= k < queue@.len() && queue@[k] == #[trigger] neighbors@[m] && paths[k].len() <= paths[head as int].len() + 1 by {
                        let k = choose|k: int| 0 <= k < old_queue.len() && old_queue[k] == #[trigger] neighbors@[m] && old_paths[k].len() <= old_paths[head as int].len() + 1;
                        assert(queue@[k] == old_queue[k]);
                        assert(paths[k] == old_paths[k]);
                    }
                    assert forall|m: int| 0 <= m < j implies visited@[wm.flat(#[trigger] neighbors@[m])] by {
                        assert(old_visited[wm.flat(neighbors@[m])]);
                    }
                    assert forall|k: int|
                        0 <= k < visited@.len() && #[trigger] visited@[k] implies exists|i: int|
                            0 <= i < queue@.len() && wm.flat(#[trigger] queue@[i]) == k by {
                        if k == ci {
                            assert(wm.flat(queue@[old_queue.len() as int]) == k);
                        } else {
                            assert(old_visited[k]);
                            let i = choose|i: int| 0 <= i < old_queue.len() && wm.flat(#[trigger] old_queue[i]) == k;
                            assert(queue@[i] == old_queue[i]);
                        }
                    }
                }
            }
            assert(visited@[ci as int]);
            proof {
                assert(queue@.contains(c));
                let t = choose|t: int| 0 <= t < queue@.len() && queue@[t] == c;
                assert(paths[t].len() <= paths[head as int].len() + 1);
                assert(queue@[t] == neighbors@[j as int]);
            }
            j = j + 1;
        }
        proof {
            assert(neighbors@.subrange(0, neighbors@.len() as int) == neighbors@);
            assert(total - head >= 1);
            assert(bfs(*wm, queue@, (head + 1) as nat, (total - (head + 1)) as nat) == bfs_from(*wm, start));
            assert forall|c: Position| #[trigger] wm.neighbors_of(pos).contains(c) implies wm.in_bounds(c) && visited@[wm.flat(c)] by {
                let m = choose|m: int| 0 <= m < neighbors@.len() && neighbors@[m] == c;
            }
            assert forall|i: int, c: Position|
                0 <= i < head + 1 && #[trigger] wm.neighbors_of(queue@[i]).contains(c) implies exists|k: int|
                    0 <= k < queue@.len() && queue@[k] == c && (#[trigger] paths[k]).len() <= paths[i].len() + 1 by {
                if i == head {
                    let m = choose|m: int| 0 <= m < neighbors@.len() && neighbors@[m] == c;
                    let k = choose|k: int| 0 <= k < queue@.len() && queue@[k] == #[trigger] neighbors@[m] && paths[k].len() <= paths[head as int].len() + 1;
                    assert(queue@[k] == c);
                }
            }
            if head + 1 < queue@.len() {
                assert forall|k: int| 0 <= k < queue@.len() implies (#[trigger] paths[k]).len() <= paths[head + 1].len() + 1 by {
                    assert(paths[head as int].len() <= paths[head + 1].len());
                }
            }
        }
        head = head + 1;
    }
    proof {
        assert forall|q: Position| reachable(*wm, start, q) implies (#[trigger] wm.pellet_lookup(q)).is_none() by {
            let path = choose|path: Seq<Position>| #[trigger] is_walk(*wm, path) && path[0] == start && path.last() == q;
            lemma_closed_queue_covers(*wm, start, queue@, visited@, path);
        }
    }
    None
}

/// A move order: unit `unit_id` heads for `target`.
#[derive(Clone, Copy, Debug, PartialEq, Eq)]
pub struct Directive {
    pub unit_id: i32,
    pub target: Position,
}

/// Where a unit standing at `from` is sent: the position of the pellet that
/// the search finds, or `from` itself when it finds none.
pub open spec fn search_target(wm: WorldModel, from: Position) -> Position {
    match bfs_from(wm, from) {
        Some(p) => p.pos,
        None => from,
    }
}

/// `t` is a fitting target for a unit standing at `from`: a reachable
/// position that holds a pellet, or `from` itself when no pellet is reachable.
pub open spec fn fitting_target(wm: WorldModel, from: Position, t: Position) -> bool {
    if exists|q: Position| reachable(wm, from, q) && (#[trigger] wm.pellet_lookup(q)).is_some() {
        reachable(wm, from, t) && wm.pellet_lookup(t).is_some()
    } else {
        t == from
    }
}

/// The decision-making agent: it owns the world model and turns it into
/// one move order per controlled unit each turn.
pub struct Agent {
    pub wm: WorldModel,
}

impl Agent {
    pub fn new(wm: WorldModel) -> (r: Self)
        ensures
            r.wm == wm,
    {
        Agent { wm }
    }

    /// Mutable access to the world model, for the per-turn update.
    pub fn wm(&mut self) -> (r: &mut WorldModel)
        ensures
            *r == old(self).wm,
            final(self).wm == *final(r),
    {
        &mut self.wm
    }

    /// Every controlled unit stands inside the maze.
    pub open spec fn units_placed(&self) -> bool {
        forall|i: int|
            0 <= i < units_of(self.wm.pacs@, Team::Us).len() ==> self.wm.in_bounds(
                #[trigger] units_of(self.wm.pacs@, Team::Us)[i].prop.pos,
            )
    }

    /// One order per controlled unit, in the order the units were first
    /// seen: head for the pellet that the breadth-first search finds, or stay
    /// in place when no pellet is reachable.
    pub fn decide(&self) -> (r: Vec<Directive>)
        requires
            self.wm.wf(),
            self.units_placed(),
        ensures
            r@.len() == units_of(self.wm.pacs@, Team::Us).len(),
            forall|i: int|
                0 <= i < r@.len() ==> {
                    let u = #[trigger] units_of(self.wm.pacs@, Team::Us)[i];
                    &&& r@[i].unit_id == u.id
                    &&& r@[i].target == search_target(self.wm, u.prop.pos)
                    &&& fitting_target(self.wm, u.prop.pos, r@[i].target)
                },
    {
        let pacs = self.wm.get_team_pacs();
        let mut out: Vec<Directive> = Vec::new();
        let mut i: usize = 0;
        while i < pacs.len()
            invariant
                self.wm.wf(),
                self.units_placed(),
                pacs@.len() == units_of(self.wm.pacs@, Team::Us).len(),
                forall|j: int| 0 <= j < pacs@.len() ==> *pacs@[j] == units_of(self.wm.pacs@, Team::Us)[j],
                0 <= i <= pacs@.len(),
                out@.len() == i,
                forall|j: int|
                    0 <= j < i ==> {
                        let u = #[trigger] units_of(self.wm.pacs@, Team::Us)[j];
                        &&& out@[j].unit_id == u.id
                        &&& out@[j].target == search_target(self.wm, u.prop.pos)
                        &&& fitting_target(self.wm, u.prop.pos, out@[j].target)
                    },
            decreases pacs@.len() - i,
        {
            let pac = pacs[i];
            let from = pac.pos();
            assert(units_of(self.wm.pacs@, Team::Us)[i as int] == *pac);
            let target = match nearest_pellet(&self.wm, from) {
                Some(pellet) => pellet.pos(),
                None => from,
            };
            out.push(Directive { unit_id: pac.id(), target });
            proof {
                let u = units_of(self.wm.pacs@, Team::Us)[i as int];
                assert(out@[i as int].unit_id == u.id);
            }
            i = i + 1;
        }
        out
    }
}

} // verus!
