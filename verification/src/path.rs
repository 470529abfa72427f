//! Shortest paths between cells, by breadth-first search over the adjacency
//! of the grid.

use crate::cell::{cell_views, Cell, CellView};
use std::collections::HashMap;
use vstd::prelude::*;

verus! {

broadcast use vstd::std_specs::hash::group_hash_axioms;

/// The graph has an edge from `a` to `b`: `b` is listed among the neighbours of `a`.
pub open spec fn has_edge(graph: Map<usize, Vec<usize>>, a: usize, b: usize) -> bool {
    graph.contains_key(a) && graph[a]@.contains(b)
}

/// A non-empty sequence of nodes, each joined to the next by an edge.
pub open spec fn is_path(graph: Map<usize, Vec<usize>>, path: Seq<usize>) -> bool {
    &&& path.len() > 0
    &&& forall|k: int| 0 <= k < path.len() - 1 ==> has_edge(graph, #[trigger] path[k], path[k + 1])
}

/// The path leads from `a` to `b`.
pub open spec fn joins(graph: Map<usize, Vec<usize>>, path: Seq<usize>, a: usize, b: usize) -> bool {
    is_path(graph, path) && path[0] == a && path[path.len() - 1] == b
}

/// Some path leads from `a` to `b`.
pub open spec fn reachable(graph: Map<usize, Vec<usize>>, a: usize, b: usize) -> bool {
    exists|path: Seq<usize>| joins(graph, path, a, b)
}

/// The path leads from `a` to `b`, and no path from `a` to `b` has fewer nodes.
pub open spec fn is_shortest(graph: Map<usize, Vec<usize>>, path: Seq<usize>, a: usize, b: usize) -> bool {
    &&& joins(graph, path, a, b)
    &&& forall|other: Seq<usize>| #[trigger] joins(graph, other, a, b) ==> path.len() <= other.len()
}

/// The search after it has looked at the first `count` listed neighbours of
/// `curr`: every neighbour that had not been found is appended to the order
/// of the search and remembers `curr` as the node it was found from.
pub open spec fn take_up(
    order: Seq<usize>,
    pred: Map<usize, usize>,
    curr: usize,
    neighbors: Seq<usize>,
    count: int,
) -> (Seq<usize>, Map<usize, usize>)
    decreases count,
{
    if count <= 0 {
        (order, pred)
    } else {
        let (found, from) = take_up(order, pred, curr, neighbors, count - 1);
        let n = neighbors[count - 1];
        if from.contains_key(n) {
            (found, from)
        } else {
            (found.push(n), from.insert(n, curr))
        }
    }
}

/// The breadth-first search from `start` after `steps` nodes have had their
/// neighbours looked at: the nodes found, in the order in which they were
/// found, and for each the node it was found from.
pub open spec fn search_after(graph: Map<usize, Vec<usize>>, start: usize, steps: int) -> (
    Seq<usize>,
    Map<usize, usize>,
)
    decreases steps,
{
    if steps <= 0 {
        (seq![start], Map::<usize, usize>::empty().insert(start, start))
    } else {
        let (found, from) = search_after(graph, start, steps - 1);
        if steps - 1 < found.len() && graph.contains_key(found[steps - 1]) {
            let curr = found[steps - 1];
            take_up(found, from, curr, graph[curr]@, graph[curr]@.len() as int)
        } else {
            (found, from)
        }
    }
}

/// The way from `start` to `node` on which the search came to `node`, walked
/// back over at most `fuel` nodes.
pub open spec fn way_to(from: Map<usize, usize>, start: usize, node: usize, fuel: nat) -> Seq<usize>
    decreases fuel,
{
    if node == start || fuel == 0 {
        seq![node]
    } else {
        way_to(from, start, from[node], (fuel - 1) as nat).push(node)
    }
}

/// What the breadth-first search from `start` answers when it goes on from
/// its `k`-th node: the way to `end` as soon as `end` is the node whose turn
/// it is, and nothing when no node is left.
pub open spec fn first_found(graph: Map<usize, Vec<usize>>, start: usize, end: usize, k: int) -> Seq<
    usize,
>
    decreases usize::MAX + 1 - k,
{
    let (found, from) = search_after(graph, start, k);
    if k < 0 || k > usize::MAX || k >= found.len() {
        Seq::empty()
    } else if found[k] == end {
        way_to(from, start, end, found.len())
    } else {
        first_found(graph, start, end, k + 1)
    }
}

/// The map lists for every cell, under its id, the neighbours of that cell.
pub open spec fn is_adjacency(cells: Seq<CellView>, graph: Map<usize, Vec<usize>>) -> bool {
    &&& forall|id: usize| #[trigger] graph.contains_key(id) <==> id < cells.len()
    &&& forall|i: int|
        0 <= i < cells.len() ==> (#[trigger] graph[i as usize])@ == cells[i].neighbors
}

/// The state of a search from `start`: the nodes found so far in the order in
/// which they were found, the number of edges on the way to each, the node
/// from which each was found, and the place of each node in the order. The
/// first `head` nodes have had all their neighbours looked at.
#[verifier::opaque]
pub open spec fn search_inv(
    graph: Map<usize, Vec<usize>>,
    start: usize,
    order: Seq<usize>,
    level: Seq<int>,
    pred: Map<usize, usize>,
    pos: Map<usize, int>,
    head: int,
) -> bool {
    &&& order.len() == level.len()
    &&& order.len() >= 1
    &&& order[0] == start
    &&& level[0] == 0
    &&& 0 <= head <= order.len()
    &&& forall|v: usize| #[trigger] pred.contains_key(v) <==> pos.contains_key(v)
    &&& forall|k: int|
        0 <= k < order.len() ==> pos.contains_key(#[trigger] order[k]) && pos[order[k]] == k
    &&& forall|v: usize| #[trigger]
        pos.contains_key(v) ==> 0 <= pos[v] < order.len() && order[pos[v]] == v
    &&& forall|k: int|
        1 <= k < order.len() ==> {
            let p = pred[#[trigger] order[k]];
            &&& pos.contains_key(p)
            &&& pos[p] < k
            &&& has_edge(graph, p, order[k])
            &&& level[k] == level[pos[p]] + 1
        }
    &&& forall|a: int, b: int|
        0 <= a <= b < order.len() ==> #[trigger] level[a] <= #[trigger] level[b]
    &&& forall|k: int| 0 <= k < order.len() ==> 0 <= #[trigger] level[k] <= k
    &&& forall|k: int|
        0 <= k < order.len() && head < order.len() ==> #[trigger] level[k] <= level[head] + 1
    &&& forall|i: int, b: usize|
        0 <= i < head && #[trigger] has_edge(graph, order[i], b) ==> pos.contains_key(b)
            && level[pos[b]] <= level[i] + 1
}

/// A search that has found nothing but its start is in order.
pub proof fn lemma_search_begins(graph: Map<usize, Vec<usize>>, start: usize)
    ensures
        search_inv(
            graph,
            start,
            seq![start],
            seq![0int],
            Map::<usize, usize>::empty().insert(start, start),
            Map::<usize, int>::empty().insert(start, 0int),
            0,
        ),
{
    reveal(search_inv);
}

/// What the search knows of a node `v`: it has a predecessor exactly when it
/// has a place, its place is its index in the order, and it lies at most one
/// edge further from the start than the node at `head`.
pub proof fn lemma_seen(
    graph: Map<usize, Vec<usize>>,
    start: usize,
    order: Seq<usize>,
    level: Seq<int>,
    pred: Map<usize, usize>,
    pos: Map<usize, int>,
    head: int,
    v: usize,
)
    requires
        search_inv(graph, start, order, level, pred, pos, head),
    ensures
        order.len() == level.len(),
        0 <= head <= order.len(),
        order[0] == start,
        pred.contains_key(v) <==> pos.contains_key(v),
        pos.contains_key(v) ==> 0 <= pos[v] < order.len() && order[pos[v]] == v,
        pos.contains_key(v) && head < order.len() ==> level[pos[v]] <= level[head] + 1,
        pos.contains_key(v) ==> 0 <= level[pos[v]] <= pos[v],
        forall|k: int| 0 <= k < order.len() && order[k] == v ==> pos.contains_key(v) && pos[v] == k,
{
    reveal(search_inv);
}

/// The node at a place `k` other than the first was found from a node at an
/// earlier place, over an edge, one edge nearer to the start.
pub proof fn lemma_step_back(
    graph: Map<usize, Vec<usize>>,
    start: usize,
    order: Seq<usize>,
    level: Seq<int>,
    pred: Map<usize, usize>,
    pos: Map<usize, int>,
    head: int,
    k: int,
)
    requires
        search_inv(graph, start, order, level, pred, pos, head),
        1 <= k < order.len(),
    ensures
        pred.contains_key(order[k]),
        pos.contains_key(pred[order[k]]),
        0 <= pos[pred[order[k]]] < k,
        order[pos[pred[order[k]]]] == pred[order[k]],
        has_edge(graph, pred[order[k]], order[k]),
        level[k] == level[pos[pred[order[k]]]] + 1,
        level[0] == 0,
{
    reveal(search_inv);
    assert(pos.contains_key(order[k]));
}

/// Finding a new node `n` next to the node at `head` keeps the search state
/// in order.
pub proof fn lemma_visit(
    graph: Map<usize, Vec<usize>>,
    start: usize,
    order: Seq<usize>,
    level: Seq<int>,
    pred: Map<usize, usize>,
    pos: Map<usize, int>,
    head: int,
    n: usize,
)
    requires
        search_inv(graph, start, order, level, pred, pos, head),
        head < order.len(),
        !pos.contains_key(n),
        has_edge(graph, order[head], n),
    ensures
        search_inv(
            graph,
            start,
            order.push(n),
            level.push(level[head] + 1),
            pred.insert(n, order[head]),
            pos.insert(n, order.len() as int),
            head,
        ),
{
    reveal(search_inv);
    let order2 = order.push(n);
    let level2 = level.push(level[head] + 1);
    let pred2 = pred.insert(n, order[head]);
    let pos2 = pos.insert(n, order.len() as int);
    assert forall|k: int| 0 <= k < order2.len() implies pos2.contains_key(#[trigger] order2[k])
        && pos2[order2[k]] == k by {
        if k < order.len() {
            assert(order2[k] == order[k]);
            assert(pos.contains_key(order[k]));
        }
    }
    assert forall|k: int| 1 <= k < order2.len() implies {
        let p = pred2[#[trigger] order2[k]];
        &&& pos2.contains_key(p)
        &&& pos2[p] < k
        &&& has_edge(graph, p, order2[k])
        &&& level2[k] == level2[pos2[p]] + 1
    } by {
        if k < order.len() {
            assert(order2[k] == order[k]);
            assert(pos.contains_key(order[k]));
            let p = pred[order[k]];
            assert(pos.contains_key(p));
        } else {
            assert(pos.contains_key(order[head]));
        }
    }
    assert forall|a: int, b: int| 0 <= a <= b < order2.len() implies #[trigger] level2[a]
        <= #[trigger] level2[b] by {
        if b < order.len() {
            assert(level[a] <= level[b]);
        } else if a < order.len() {
            assert(level[a] <= level[head] + 1);
        }
    }
    assert forall|k: int| 0 <= k < order2.len() implies 0 <= #[trigger] level2[k] <= k by {
        if k < order.len() {
            assert(0 <= level[k] <= k);
        } else {
            assert(0 <= level[head] <= head);
        }
    }
    assert forall|k: int| 0 <= k < order2.len() && head < order2.len() implies #[trigger] level2[k]
        <= level2[head] + 1 by {
        if k < order.len() {
            assert(level[k] <= level[head] + 1);
        }
    }
    assert forall|i: int, b: usize| 0 <= i < head && #[trigger] has_edge(graph, order2[i], b)
        implies pos2.contains_key(b) && level2[pos2[b]] <= level2[i] + 1 by {
        assert(order2[i] == order[i]);
        assert(has_edge(graph, order[i], b));
    }
}

/// When every neighbour of the node at `head` has been found, the search may
/// move on to the next node.
pub proof fn lemma_advance(
    graph: Map<usize, Vec<usize>>,
    start: usize,
    order: Seq<usize>,
    level: Seq<int>,
    pred: Map<usize, usize>,
    pos: Map<usize, int>,
    head: int,
)
    requires
        search_inv(graph, start, order, level, pred, pos, head),
        head < order.len(),
        forall|b: usize| #[trigger]
            has_edge(graph, order[head], b) ==> pos.contains_key(b) && level[pos[b]] <= level[head]
                + 1,
    ensures
        search_inv(graph, start, order, level, pred, pos, head + 1),
{
    reveal(search_inv);
    assert forall|k: int| 0 <= k < order.len() && head + 1 < order.len() implies #[trigger] level[k]
        <= level[head + 1] + 1 by {
        assert(level[k] <= level[head] + 1);
        assert(level[head] <= level[head + 1]);
    }
}

/// Every node of a path from the start lies at most as many edges from the
/// start as the search says, unless the node at `head` is already that near.
pub proof fn lemma_level_bound(
    graph: Map<usize, Vec<usize>>,
    start: usize,
    order: Seq<usize>,
    level: Seq<int>,
    pred: Map<usize, usize>,
    pos: Map<usize, int>,
    head: int,
    path: Seq<usize>,
    t: int,
)
    requires
        search_inv(graph, start, order, level, pred, pos, head),
        head < order.len(),
        is_path(graph, path),
        path[0] == start,
        0 <= t < path.len(),
    ensures
        level[head] <= t || (pos.contains_key(path[t]) && pos[path[t]] < head && level[pos[path[t]]]
            <= t),
    decreases t,
{
    reveal(search_inv);
    if t == 0 {
        assert(pos.contains_key(order[0]));
    } else {
        lemma_level_bound(graph, start, order, level, pred, pos, head, path, t - 1);
        if level[head] > t - 1 {
            let i = pos[path[t - 1]];
            assert(order[i] == path[t - 1]);
            assert(has_edge(graph, path[t - 1], path[t]));
            assert(has_edge(graph, order[i], path[t]));
            let k = pos[path[t]];
            if k >= head {
                assert(level[head] <= level[k]);
            }
        }
    }
}

/// The way on which the search found the node at `head` is as short as any
/// path from the start to that node.
pub proof fn lemma_found_is_nearest(
    graph: Map<usize, Vec<usize>>,
    start: usize,
    order: Seq<usize>,
    level: Seq<int>,
    pred: Map<usize, usize>,
    pos: Map<usize, int>,
    head: int,
    other: Seq<usize>,
)
    requires
        search_inv(graph, start, order, level, pred, pos, head),
        head < order.len(),
        joins(graph, other, start, order[head]),
    ensures
        level[head] + 1 <= other.len(),
{
    lemma_level_bound(graph, start, order, level, pred, pos, head, other, other.len() - 1);
    lemma_seen(graph, start, order, level, pred, pos, head, order[head]);
}

/// Once every node that was found has had its neighbours looked at, every
/// node of a path from the start has been found.
pub proof fn lemma_closed(
    graph: Map<usize, Vec<usize>>,
    start: usize,
    order: Seq<usize>,
    level: Seq<int>,
    pred: Map<usize, usize>,
    pos: Map<usize, int>,
    path: Seq<usize>,
    t: int,
)
    requires
        search_inv(graph, start, order, level, pred, pos, order.len() as int),
        is_path(graph, path),
        path[0] == start,
        0 <= t < path.len(),
    ensures
        pos.contains_key(path[t]),
        0 <= pos[path[t]] < order.len(),
        order[pos[path[t]]] == path[t],
    decreases t,
{
    reveal(search_inv);
    if t == 0 {
        assert(pos.contains_key(order[0]));
    } else {
        lemma_closed(graph, start, order, level, pred, pos, path, t - 1);
        let i = pos[path[t - 1]];
        assert(order[i] == path[t - 1]);
        assert(has_edge(graph, path[t - 1], path[t]));
        assert(has_edge(graph, order[i], path[t]));
    }
}

/// A copy of a list of ids.
fn copy_ids(ids: &Vec<usize>) -> (out: Vec<usize>)
    ensures
        out@ == ids@,
{
    let mut out: Vec<usize> = Vec::new();
    let mut k: usize = 0;
    while k < ids.len()
        invariant
            k <= ids@.len(),
            out@ == ids@.take(k as int),
        decreases ids.len() - k,
    {
        out.push(ids[k]);
        assert(out@ =~= ids@.take(k + 1));
        k = k + 1;
    }
    assert(ids@.take(k as int) =~= ids@);
    out
}

/// The adjacency of a grid: for every cell, under its id, the ids of its
/// neighbours in their order.
pub fn adjacency(cells: &Vec<Cell>) -> (graph: HashMap<usize, Vec<usize>>)
    requires
        forall|i: int| 0 <= i < cells@.len() ==> (#[trigger] cells@[i]).id == i,
    ensures
        is_adjacency(cell_views(cells@), graph@),
{
    let mut graph: HashMap<usize, Vec<usize>> = HashMap::new();
    let mut i: usize = 0;
    while i < cells.len()
        invariant
            i <= cells@.len(),
            forall|k: int| 0 <= k < cells@.len() ==> (#[trigger] cells@[k]).id == k,
            forall|id: usize| #[trigger] graph@.contains_key(id) <==> id < i,
            forall|k: int| 0 <= k < i ==> (#[trigger] graph@[k as usize])@ == cells@[k].neighbors@,
        decreases cells.len() - i,
    {
        let ids: Vec<usize> = copy_ids(&cells[i].neighbors);
        graph.insert(cells[i].id, ids);
        i = i + 1;
    }
    graph
}

/// The path in reverse.
fn reversed(path: &Vec<usize>) -> (out: Vec<usize>)
    ensures
        out@.len() == path@.len(),
        forall|k: int| 0 <= k < out@.len() ==> out@[k] == path@[path@.len() - 1 - k],
{
    let mut out: Vec<usize> = Vec::new();
    let mut t: usize = path.len();
    while t > 0
        invariant
            t <= path@.len(),
            out@.len() == path@.len() - t,
            forall|k: int| 0 <= k < out@.len() ==> out@[k] == path@[path@.len() - 1 - k],
        decreases t,
    {
        t = t - 1;
        out.push(path[t]);
    }
    out
}

/// Walks back from the node at `head` to the start, over the nodes from which
/// each node was found, and returns the way from the start to that node.
fn trace_back(
    visited: &HashMap<usize, usize>,
    start: usize,
    end: usize,
    Ghost(graph): Ghost<Map<usize, Vec<usize>>>,
    Ghost(order): Ghost<Seq<usize>>,
    Ghost(level): Ghost<Seq<int>>,
    Ghost(pos): Ghost<Map<usize, int>>,
    Ghost(head): Ghost<int>,
) -> (path: Vec<usize>)
    requires
        search_inv(graph, start, order, level, visited@, pos, head),
        0 <= head < order.len(),
        order[head] == end,
    ensures
        joins(graph, path@, start, end),
        path@.len() == level[head] + 1,
        path@ == way_to(visited@, start, end, order.len()),
{
    let mut back: Vec<usize> = Vec::new();
    back.push(end);
    let mut c: usize = end;
    let ghost mut k: int = head;
    let ghost mut tail: Seq<usize> = Seq::empty();
    proof {
        lemma_seen(graph, start, order, level, visited@, pos, head, end);
        assert(way_to(visited@, start, end, order.len()) =~= way_to(
            visited@,
            start,
            end,
            order.len(),
        ) + tail);
    }
    while c != start
        invariant
            search_inv(graph, start, order, level, visited@, pos, head),
            0 <= k <= head < order.len(),
            order.len() == level.len(),
            order[0] == start,
            order[k] == c,
            back@.len() >= 1,
            back@.len() == level[head] - level[k] + 1,
            back@[0] == end,
            back@[back@.len() - 1] == c,
            forall|t: int|
                0 <= t < back@.len() - 1 ==> has_edge(graph, #[trigger] back@[t + 1], back@[t]),
            0 <= level[head] <= head,
            0 <= level[k],
            tail.len() == back@.len() - 1,
            forall|j: int| 0 <= j < tail.len() ==> tail[j] == back@[back@.len() - 2 - j],
            way_to(visited@, start, end, order.len()) == way_to(
                visited@,
                start,
                c,
                (order.len() - tail.len()) as nat,
            ) + tail,
        decreases k,
    {
        proof {
            lemma_step_back(graph, start, order, level, visited@, pos, head, k);
        }
        let ghost before = back@;
        let ghost fuel = (order.len() - tail.len()) as nat;
        let p: usize = match visited.get(&c) {
            Some(p) => *p,
            None => {
                assert(false);
                start
            },
        };
        back.push(p);
        proof {
            assert forall|t: int| 0 <= t < back@.len() - 1 implies has_edge(
                graph,
                #[trigger] back@[t + 1],
                back@[t],
            ) by {
                if t < before.len() - 1 {
                    assert(back@[t + 1] == before[t + 1]);
                    assert(back@[t] == before[t]);
                }
            }
            lemma_seen(graph, start, order, level, visited@, pos, head, p);
            assert(fuel > 0);
            assert(way_to(visited@, start, c, fuel) == way_to(
                visited@,
                start,
                p,
                (fuel - 1) as nat,
            ).push(c));
            let longer = seq![c] + tail;
            assert(way_to(visited@, start, p, (fuel - 1) as nat).push(c) + tail =~= way_to(
                visited@,
                start,
                p,
                (fuel - 1) as nat,
            ) + longer);
            assert forall|j: int| 0 <= j < longer.len() implies longer[j] == back@[back@.len() - 2
                - j] by {
                if j > 0 {
                    assert(longer[j] == tail[j - 1]);
                    assert(tail[j - 1] == before[before.len() - 2 - (j - 1)]);
                }
            }
            tail = longer;
            k = pos[p];
        }
        c = p;
    }
    let path: Vec<usize> = reversed(&back);
    proof {
        lemma_seen(graph, start, order, level, visited@, pos, head, start);
        assert(k == 0);
        if head >= 1 {
            lemma_step_back(graph, start, order, level, visited@, pos, head, head);
        }
        assert(level[0] == 0) by {
            reveal(search_inv);
        }
        assert forall|t: int| 0 <= t < path@.len() - 1 implies has_edge(
            graph,
            #[trigger] path@[t],
            path@[t + 1],
        ) by {
            let s = path@.len() - 2 - t;
            assert(has_edge(graph, back@[s + 1], back@[s]));
        }
        assert(path@ =~= seq![start] + tail);
    }
    path
}

/// Looks at all neighbours of the node at `head` and takes up those that the
/// search has not found yet, in the order in which they are listed.
fn expand(
    neighbors: &Vec<usize>,
    curr: usize,
    order: &mut Vec<usize>,
    visited: &mut HashMap<usize, usize>,
    Ghost(graph): Ghost<Map<usize, Vec<usize>>>,
    Ghost(start): Ghost<usize>,
    Ghost(level): Ghost<Seq<int>>,
    Ghost(pos): Ghost<Map<usize, int>>,
    Ghost(head): Ghost<int>,
) -> (found: (Ghost<Seq<int>>, Ghost<Map<usize, int>>))
    requires
        search_inv(graph, start, old(order)@, level, old(visited)@, pos, head),
        0 <= head < old(order)@.len(),
        curr == old(order)@[head],
        graph.contains_key(curr),
        graph[curr] == *neighbors,
    ensures
        search_inv(graph, start, final(order)@, found.0@, final(visited)@, found.1@, head + 1),
        final(order)@.len() >= old(order)@.len(),
        forall|k: int| 0 <= k < old(order)@.len() ==> final(order)@[k] == old(order)@[k],
        (final(order)@, final(visited)@) == take_up(
            old(order)@,
            old(visited)@,
            curr,
            neighbors@,
            neighbors@.len() as int,
        ),
{
    let ghost mut level = level;
    let ghost mut pos = pos;
    let ghost first = order@;
    let ghost first_from = visited@;
    let mut s: usize = 0;
    proof {
        lemma_seen(graph, start, order@, level, visited@, pos, head, curr);
    }
    while s < neighbors.len()
        invariant
            s <= neighbors@.len(),
            graph.contains_key(curr),
            graph[curr] == *neighbors,
            0 <= head < order@.len(),
            order@.len() == level.len(),
            curr == order@[head],
            search_inv(graph, start, order@, level, visited@, pos, head),
            order@.len() >= first.len(),
            forall|k: int| 0 <= k < first.len() ==> order@[k] == first[k],
            (order@, visited@) == take_up(first, first_from, curr, neighbors@, s as int),
            forall|t: int|
                0 <= t < s ==> pos.contains_key(#[trigger] neighbors@[t]) && 0 <= pos[neighbors@[t]]
                    < level.len() && level[pos[neighbors@[t]]] <= level[head] + 1,
        decreases neighbors.len() - s,
    {
        let n: usize = neighbors[s];
        proof {
            assert(neighbors@[s as int] == n);
            assert(has_edge(graph, curr, n));
            lemma_seen(graph, start, order@, level, visited@, pos, head, n);
        }
        if !visited.contains_key(&n) {
            proof {
                lemma_visit(graph, start, order@, level, visited@, pos, head, n);
                pos = pos.insert(n, order@.len() as int);
                level = level.push(level[head] + 1);
            }
            visited.insert(n, curr);
            order.push(n);
        }
        s = s + 1;
    }
    proof {
        assert forall|b: usize| #[trigger] has_edge(graph, order@[head], b) implies pos.contains_key(
            b,
        ) && level[pos[b]] <= level[head] + 1 by {
            let t = choose|t: int| 0 <= t < neighbors@.len() && neighbors@[t] == b;
            assert(pos.contains_key(neighbors@[t]));
        }
        lemma_advance(graph, start, order@, level, visited@, pos, head);
    }
    (Ghost(level), Ghost(pos))
}

/// The shortest path from `start` to `end`, both included, found by
/// breadth-first search; empty when `end` cannot be reached. A path from a
/// node to itself is that node alone.
pub fn find_path(neighbors_map: &HashMap<usize, Vec<usize>>, start: usize, end: usize) -> (path:
    Vec<usize>)
    ensures
        path@ == first_found(neighbors_map@, start, end, 0),
        start == end ==> path@ == seq![start],
        reachable(neighbors_map@, start, end) ==> is_shortest(
            neighbors_map@,
            path@,
            start,
            end,
        ),
        !reachable(neighbors_map@, start, end) ==> path@.len() == 0,
{
    let ghost graph = neighbors_map@;
    if start == end {
        let mut path: Vec<usize> = Vec::new();
        path.push(start);
        proof {
            assert(path@ =~= seq![start]);
            lemma_trivial_path(graph, start);
            assert(way_to(search_after(graph, start, 0).1, start, end, 1) =~= seq![start]);
        }
        return path;
    }
    let mut order: Vec<usize> = Vec::new();
    order.push(start);
    let mut visited: HashMap<usize, usize> = HashMap::new();
    visited.insert(start, start);
    let ghost mut level: Seq<int> = seq![0int];
    let ghost mut pos: Map<usize, int> = Map::empty().insert(start, 0int);
    proof {
        lemma_search_begins(graph, start);
        assert(order@ =~= seq![start]);
        assert(visited@ =~= Map::<usize, usize>::empty().insert(start, start));
    }
    let mut head: usize = 0;
    while head < order.len()
        invariant
            graph == neighbors_map@,
            start != end,
            head <= order@.len(),
            search_inv(graph, start, order@, level, visited@, pos, head as int),
            forall|k: int| 0 <= k < head ==> order@[k] != end,
            (order@, visited@) == search_after(graph, start, head as int),
            first_found(graph, start, end, 0) == first_found(graph, start, end, head as int),
        decreases usize::MAX - head,
    {
        let curr: usize = order[head];
        if curr == end {
            let path: Vec<usize> = trace_back(
                &visited,
                start,
                end,
                Ghost(graph),
                Ghost(order@),
                Ghost(level),
                Ghost(pos),
                Ghost(head as int),
            );
            proof {
                assert forall|other: Seq<usize>| #[trigger]
                    joins(graph, other, start, end) implies path@.len() <= other.len() by {
                    lemma_found_is_nearest(
                        graph,
                        start,
                        order@,
                        level,
                        visited@,
                        pos,
                        head as int,
                        other,
                    );
                }
            }
            return path;
        }
        match neighbors_map.get(&curr) {
            Some(neighbors) => {
                let found = expand(
                    neighbors,
                    curr,
                    &mut order,
                    &mut visited,
                    Ghost(graph),
                    Ghost(start),
                    Ghost(level),
                    Ghost(pos),
                    Ghost(head as int),
                );
                proof {
                    level = found.0@;
                    pos = found.1@;
                }
            },
            None => {
                proof {
                    lemma_advance(graph, start, order@, level, visited@, pos, head as int);
                }
            },
        }
        assert((order@, visited@) == search_after(graph, start, head + 1));
        head = head + 1;
    }
    proof {
        if reachable(graph, start, end) {
            let other = choose|other: Seq<usize>| joins(graph, other, start, end);
            lemma_closed(graph, start, order@, level, visited@, pos, other, other.len() - 1);
            assert(false);
        }
    }
    Vec::new()
}

/// A path from a node to itself is that node alone.
pub proof fn lemma_trivial_path(graph: Map<usize, Vec<usize>>, node: usize)
    ensures
        is_shortest(graph, seq![node], node, node),
{
    assert(joins(graph, seq![node], node, node));
}

} // verus!
