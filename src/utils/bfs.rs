use std::collections::{HashMap, HashSet, VecDeque};
use std::hash::Hash;
use vstd::prelude::*;
use vstd::std_specs::hash::obeys_key_model;

verus! {

broadcast use vstd::std_specs::hash::group_hash_axioms;

/// An implicit graph: a callable that lists the successors of a node.
pub trait Graph {
    type Node: Copy + Eq + Hash;

    /// The successors of `n`, in the order `neighbors` yields them.
    spec fn successors(&self, n: Self::Node) -> Seq<Self::Node>;

    /// The nodes the graph may ever reach from one of its nodes; finite and closed under
    /// successors for a searchable graph.
    spec fn nodes(&self) -> Set<Self::Node>;

    fn neighbors(&self, n: &Self::Node) -> (r: Vec<Self::Node>)
        ensures
            r@ == self.successors(*n),
    ;
}

/// A graph with weighted edges.
pub trait DirectedGraph {
    type Node: Copy + Eq + Hash;

    type Distance: Copy + Eq + Hash;

    fn neighbors_with_distance(&self, n: &Self::Node) -> Vec<(Self::Node, Self::Distance)>;
}

/// `p` is a walk along edges of `g`.
pub open spec fn is_path<G: Graph>(g: &G, p: Seq<G::Node>) -> bool {
    &&& p.len() >= 1
    &&& forall|i: int| 0 <= i < p.len() - 1 ==> g.successors(#[trigger] p[i]).contains(p[i + 1])
}

/// `p` is a walk along edges of `g` from `s` to `t`.
pub open spec fn is_path_between<G: Graph>(g: &G, p: Seq<G::Node>, s: G::Node, t: G::Node) -> bool {
    is_path(g, p) && p[0] == s && p.last() == t
}

/// `g` may be searched: finitely many nodes, and successors of a node are nodes.
pub open spec fn searchable<G: Graph>(g: &G) -> bool {
    &&& g.nodes().finite()
    &&& forall|n: G::Node, i: int|
        g.nodes().contains(n) && 0 <= i < g.successors(n).len() ==> g.nodes().contains(
            #[trigger] g.successors(n)[i],
        )
}

/// The search's bookkeeping, for the proof: nodes seen with their hop counts, the nodes
/// whose successors have all been seen, the frontier, and the precursor table.
pub open spec fn search_inv<G: Graph>(
    g: &G,
    start: G::Node,
    goal: G::Node,
    visited: Set<G::Node>,
    dist: Map<G::Node, nat>,
    processed: Set<G::Node>,
    q: Seq<G::Node>,
    prec: Map<G::Node, G::Node>,
) -> bool {
    &&& visited == dist.dom()
    &&& visited.subset_of(g.nodes())
    &&& visited.contains(start)
    &&& dist[start] == 0
    &&& !prec.contains_key(start)
    &&& forall|v: G::Node| #[trigger] prec.contains_key(v) ==> visited.contains(v)
    &&& forall|v: G::Node|
        visited.contains(v) && v != start ==> #[trigger] prec.contains_key(v) && visited.contains(
            prec[v],
        ) && dist[v] == dist[prec[v]] + 1 && g.successors(prec[v]).contains(v)
    &&& forall|i: int| 0 <= i < q.len() ==> visited.contains(#[trigger] q[i])
    &&& forall|i: int| 0 <= i < q.len() ==> !processed.contains(#[trigger] q[i])
    &&& forall|i: int, j: int| 0 <= i < j < q.len() ==> #[trigger] q[i] != #[trigger] q[j]
    &&& forall|v: G::Node| #[trigger] visited.contains(v) ==> processed.contains(v) || q.contains(v)
    &&& processed.subset_of(visited)
    &&& forall|i: int, j: int| 0 <= i < j < q.len() ==> dist[#[trigger] q[i]] <= dist[#[trigger] q[j]]
    &&& q.len() > 0 ==> dist[q.last()] <= dist[q[0]] + 1
    &&& forall|p: G::Node| #[trigger] processed.contains(p) ==> q.len() == 0 || dist[p] <= dist[q[0]]
    &&& forall|p: G::Node, i: int|
        processed.contains(p) && 0 <= i < g.successors(p).len() ==> visited.contains(
            #[trigger] g.successors(p)[i],
        ) && dist[g.successors(p)[i]] <= dist[p] + 1
    &&& !processed.contains(goal)
}

proof fn lemma_path_prefix_bound<G: Graph>(
    g: &G,
    start: G::Node,
    goal: G::Node,
    visited: Set<G::Node>,
    dist: Map<G::Node, nat>,
    processed: Set<G::Node>,
    q: Seq<G::Node>,
    prec: Map<G::Node, G::Node>,
    p: Seq<G::Node>,
    k: int,
)
    requires
        search_inv(g, start, goal, visited, dist, processed, q, prec),
        q.len() > 0,
        is_path(g, p),
        p[0] == start,
        0 <= k < p.len(),
    ensures
        visited.contains(p[k]) ==> dist[p[k]] <= k,
        !visited.contains(p[k]) ==> k > dist[q[0]],
    decreases k,
{
    let d = dist[q[0]];
    if k > 0 {
        lemma_path_prefix_bound(g, start, goal, visited, dist, processed, q, prec, p, k - 1);
        let u = p[k - 1];
        let w = p[k];
        assert(g.successors(u).contains(w));
        let ix = choose|ix: int| 0 <= ix < g.successors(u).len() && #[trigger] g.successors(u)[ix] == w;
        // every seen node is at most one hop beyond the front of the frontier
        if visited.contains(w) {
            if processed.contains(w) {
            } else {
                assert(q.contains(w));
                let jw = choose|jw: int| 0 <= jw < q.len() && #[trigger] q[jw] == w;
                if jw > 0 {
                    assert(dist[q[jw]] <= dist[q[q.len() - 1]]);
                }
            }
        }
        if visited.contains(u) {
            if processed.contains(u) {
                assert(visited.contains(g.successors(u)[ix]));
            } else {
                assert(q.contains(u));
                let ju = choose|ju: int| 0 <= ju < q.len() && #[trigger] q[ju] == u;
                if ju > 0 {
                    assert(dist[q[0]] <= dist[q[ju]]);
                }
            }
        }
    }
}

/// Walks the precursor table from `goal` back to `start` and returns the path in order.
fn build_path_from_precursors<N: Copy + Eq + Hash, G: Graph<Node = N>>(
    goal_node: &N,
    precursors: &HashMap<N, N>,
    Ghost(g): Ghost<&G>,
    Ghost(start): Ghost<N>,
    Ghost(visited): Ghost<Set<N>>,
    Ghost(dist): Ghost<Map<N, nat>>,
) -> (r: Vec<N>)
    requires
        obeys_key_model::<N>(),
        visited.contains(*goal_node),
        visited == dist.dom(),
        visited.contains(start),
        dist[start] == 0,
        !precursors@.contains_key(start),
        forall|v: N|
            visited.contains(v) && v != start ==> #[trigger] precursors@.contains_key(v)
                && visited.contains(precursors@[v]) && dist[v] == dist[precursors@[v]] + 1
                && g.successors(precursors@[v]).contains(v),
    ensures
        is_path_between(g, r@, start, *goal_node),
        r@.len() == dist[*goal_node] + 1,
{
    let mut back: Vec<N> = vec![*goal_node];
    let mut current: N = *goal_node;
    loop
        invariant
            obeys_key_model::<N>(),
            visited == dist.dom(),
            visited.contains(start),
            dist[start] == 0,
            !precursors@.contains_key(start),
            forall|v: N|
                visited.contains(v) && v != start ==> #[trigger] precursors@.contains_key(v)
                    && visited.contains(precursors@[v]) && dist[v] == dist[precursors@[v]] + 1
                    && g.successors(precursors@[v]).contains(v),
            visited.contains(current),
            back@.len() >= 1,
            back@[0] == *goal_node,
            back@.last() == current,
            back@.len() + dist[current] == dist[*goal_node] + 1,
            forall|i: int| 0 <= i < back@.len() - 1 ==> g.successors(#[trigger] back@[i + 1]).contains(back@[i]),
        ensures
            current == start,
            back@.len() == dist[*goal_node] + 1,
            back@[0] == *goal_node,
            back@.last() == start,
            forall|i: int| 0 <= i < back@.len() - 1 ==> g.successors(#[trigger] back@[i + 1]).contains(back@[i]),
        decreases dist[current],
    {
        match precursors.get(&current) {
            Some(node) => {
                let node = *node;
                back.push(node);
                current = node;
            },
            None => {
                break;
            },
        }
    }
    let mut path: Vec<N> = Vec::new();
    let mut k: usize = back.len();
    while k > 0
        invariant
            k <= back@.len(),
            path@.len() == back@.len() - k,
            forall|i: int| 0 <= i < path@.len() ==> #[trigger] path@[i] == back@[back@.len() - 1 - i],
        decreases k,
    {
        k = k - 1;
        path.push(back[k]);
    }
    assert forall|i: int| 0 <= i < path@.len() - 1 implies g.successors(#[trigger] path@[i]).contains(
        path@[i + 1],
    ) by {
        let j = back@.len() - 2 - i;
        assert(g.successors(back@[j + 1]).contains(back@[j]));
    }
    path
}

/// Breadth-first search from `start_node` to `goal_node`: a path with the fewest hops, or
/// `None` when the goal cannot be reached.
pub fn bfs<G: Graph>(graph: &G, start_node: G::Node, goal_node: G::Node) -> (r: Option<Vec<G::Node>>)
    requires
        obeys_key_model::<G::Node>(),
        vstd::laws_eq::obeys_concrete_eq::<G::Node>(),
        searchable(graph),
        graph.nodes().contains(start_node),
    ensures
        match r {
            Some(path) => is_path_between(graph, path@, start_node, goal_node) && forall|p: Seq<
                G::Node,
            >| #[trigger] is_path_between(graph, p, start_node, goal_node) ==> p.len() >= path@.len(),
            None => forall|p: Seq<G::Node>| !#[trigger] is_path_between(graph, p, start_node, goal_node),
        },
{
    proof {
        reveal(vstd::laws_eq::obeys_concrete_eq);
    }
    let mut queue: VecDeque<G::Node> = VecDeque::new();
    queue.push_back(start_node);
    let mut visited: HashSet<G::Node> = HashSet::new();
    visited.insert(start_node);
    let mut precursors: HashMap<G::Node, G::Node> = HashMap::new();
    let ghost mut dist: Map<G::Node, nat> = map![start_node => 0nat];
    let ghost mut processed: Set<G::Node> = Set::empty();
    assert(visited@ =~= dist.dom());
    assert(queue@[0] == start_node);
    while queue.len() > 0
        invariant
            obeys_key_model::<G::Node>(),
            vstd::laws_eq::obeys_concrete_eq::<G::Node>(),
            searchable(graph),
            search_inv(graph, start_node, goal_node, visited@, dist, processed, queue@, precursors@),
        decreases 2 * (graph.nodes().len() - visited@.len()) + queue@.len(),
    {
        proof {
            reveal(vstd::laws_eq::obeys_concrete_eq);
            vstd::set_lib::lemma_len_subset(visited@, graph.nodes());
        }
        let ghost q0 = queue@;
        assert(q0.len() > 0);
        let node = match queue.pop_front() {
            Some(n) => n,
            None => {
                return None;
            },
        };
        if node == goal_node {
            let path = build_path_from_precursors::<G::Node, G>(
                &goal_node,
                &precursors,
                Ghost(graph),
                Ghost(start_node),
                Ghost(visited@),
                Ghost(dist),
            );
            proof {
                assert forall|p: Seq<G::Node>| #[trigger]
                    is_path_between(graph, p, start_node, goal_node) implies p.len() >= path@.len() by {
                    lemma_path_prefix_bound(
                        graph,
                        start_node,
                        goal_node,
                        visited@,
                        dist,
                        processed,
                        q0,
                        precursors@,
                        p,
                        p.len() - 1,
                    );
                }
            }
            return Some(path);
        }
        let ghost d = dist[node];
        let ghost visited0 = visited@;
        proof {
            assert(node == q0[0]);
            assert(queue@ == q0.drop_first());
            assert forall|v: G::Node| #[trigger] visited@.contains(v) implies processed.contains(v)
                || queue@.contains(v) || v == node by {
                if q0.contains(v) && v != node {
                    let i = choose|i: int| 0 <= i < q0.len() && #[trigger] q0[i] == v;
                    assert(queue@[i - 1] == v);
                }
            }
            assert forall|i: int| 0 <= i < queue@.len() implies #[trigger] queue@[i] != node by {
                assert(q0[i + 1] != q0[0]);
            }
        }
        let succ = graph.neighbors(&node);
        let mut j: usize = 0;
        while j < succ.len()
            invariant
                obeys_key_model::<G::Node>(),
                searchable(graph),
                succ@ == graph.successors(node),
                j <= succ@.len(),
                graph.nodes().contains(node),
                node != goal_node,
                visited@ == dist.dom(),
                visited@.subset_of(graph.nodes()),
                visited@.contains(start_node),
                visited@.contains(node),
                dist[start_node] == 0,
                dist[node] == d,
                !precursors@.contains_key(start_node),
                forall|v: G::Node| #[trigger] precursors@.contains_key(v) ==> visited@.contains(v),
                forall|v: G::Node|
                    visited@.contains(v) && v != start_node ==> #[trigger] precursors@.contains_key(v)
                        && visited@.contains(precursors@[v]) && dist[v] == dist[precursors@[v]] + 1
                        && graph.successors(precursors@[v]).contains(v),
                forall|i: int| 0 <= i < queue@.len() ==> visited@.contains(#[trigger] queue@[i]),
                forall|i: int| 0 <= i < queue@.len() ==> !processed.contains(#[trigger] queue@[i]),
                forall|i: int| 0 <= i < queue@.len() ==> #[trigger] queue@[i] != node,
                forall|i: int, k: int| 0 <= i < k < queue@.len() ==> #[trigger] queue@[i] != #[trigger] queue@[k],
                forall|v: G::Node| #[trigger] visited@.contains(v) ==> processed.contains(v)
                    || queue@.contains(v) || v == node,
                processed.subset_of(visited@),
                !processed.contains(node),
                forall|i: int, k: int|
                    0 <= i < k < queue@.len() ==> dist[#[trigger] queue@[i]] <= dist[#[trigger] queue@[k]],
                forall|i: int| 0 <= i < queue@.len() ==> d <= dist[#[trigger] queue@[i]] <= d + 1,
                forall|p: G::Node| #[trigger] processed.contains(p) ==> dist[p] <= d,
                forall|p: G::Node, i: int|
                    processed.contains(p) && 0 <= i < graph.successors(p).len() ==> visited@.contains(
                        #[trigger] graph.successors(p)[i],
                    ) && dist[graph.successors(p)[i]] <= dist[p] + 1,
                forall|i: int| 0 <= i < j ==> visited@.contains(#[trigger] succ@[i]) && dist[succ@[i]] <= d + 1,
                !processed.contains(goal_node),
                queue@.len() + visited0.len() == q0.len() - 1 + visited@.len(),
                visited0.subset_of(visited@),
                graph.nodes().finite(),
            decreases succ.len() - j,
        {
            let neighbor = succ[j];
            assert(graph.nodes().contains(graph.successors(node)[j as int]));
            proof {
                vstd::set_lib::lemma_len_subset(visited@, graph.nodes());
            }
            if !visited.contains(&neighbor) {
                let ghost qb = queue@;
                queue.push_back(neighbor);
                proof {
                    assert forall|v: G::Node| qb.contains(v) implies #[trigger] queue@.contains(v) by {
                        let i = choose|i: int| 0 <= i < qb.len() && #[trigger] qb[i] == v;
                        assert(queue@[i] == v);
                    }
                    assert(queue@[queue@.len() - 1] == neighbor);
                }
                precursors.insert(neighbor, node);
                visited.insert(neighbor);
                proof {
                    dist = dist.insert(neighbor, d + 1);
                    assert(graph.successors(node)[j as int] == neighbor);
                    assert(graph.successors(node).contains(neighbor));
                }
            }
            j = j + 1;
        }
        proof {
            processed = processed.insert(node);
            vstd::set_lib::lemma_len_subset(visited@, graph.nodes());
            vstd::set_lib::lemma_len_subset(visited0, visited@);
        }
    }
    proof {
        assert(processed =~= visited@);
        assert forall|p: Seq<G::Node>| !#[trigger] is_path_between(graph, p, start_node, goal_node) by {
            if is_path_between(graph, p, start_node, goal_node) {
                lemma_closed_path(graph, start_node, goal_node, visited@, processed, p, p.len() - 1);
            }
        }
    }
    None
}

proof fn lemma_closed_path<G: Graph>(
    g: &G,
    start: G::Node,
    goal: G::Node,
    visited: Set<G::Node>,
    processed: Set<G::Node>,
    p: Seq<G::Node>,
    k: int,
)
    requires
        processed == visited,
        visited.contains(start),
        forall|v: G::Node, i: int|
            processed.contains(v) && 0 <= i < g.successors(v).len() ==> visited.contains(
                #[trigger] g.successors(v)[i],
            ),
        is_path(g, p),
        p[0] == start,
        0 <= k < p.len(),
    ensures
        visited.contains(p[k]),
    decreases k,
{
    if k > 0 {
        lemma_closed_path(g, start, goal, visited, processed, p, k - 1);
        assert(g.successors(p[k - 1]).contains(p[k]));
        let ix = choose|ix: int| 0 <= ix < g.successors(p[k - 1]).len() && #[trigger] g.successors(p[k - 1])[ix] == p[k];
        assert(visited.contains(g.successors(p[k - 1])[ix]));
    }
}

/// Searching from a node to itself gives the one-node path.
pub proof fn lemma_search_to_self<G: Graph>(g: &G, s: G::Node, path: Seq<G::Node>)
    requires
        is_path_between(g, path, s, s),
        forall|p: Seq<G::Node>| #[trigger] is_path_between(g, p, s, s) ==> p.len() >= path.len(),
    ensures
        path == seq![s],
{
    assert(is_path_between(g, seq![s], s, s));
    assert(path.len() == 1);
    assert(path =~= seq![s]);
}

/// A graph given by its adjacency lists: node `i` has the successors `adj[i]`, in order.
pub struct AdjacencyGraph {
    pub adj: Vec<Vec<usize>>,
}

impl Graph for AdjacencyGraph {
    type Node = usize;

    open spec fn successors(&self, n: usize) -> Seq<usize> {
        if n < self.adj@.len() {
            self.adj@[n as int]@
        } else {
            Seq::empty()
        }
    }

    open spec fn nodes(&self) -> Set<usize> {
        Seq::new(self.adj@.len(), |i: int| i as usize).to_set()
    }

    fn neighbors(&self, n: &usize) -> (r: Vec<usize>) {
        if *n < self.adj.len() {
            self.adj[*n].clone()
        } else {
            Vec::new()
        }
    }
}

} // verus!
