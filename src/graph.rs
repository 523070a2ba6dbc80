use vstd::prelude::*;
use crate::coord::{Coord, Pos, pos_neg, left_of, right_of};
use crate::level::{DescriptionView, LevelDescription, valid_description};
use crate::sausage::{burnt, counters_at_most};
use crate::state::{StateView, LevelState, LevelStatus, status, terminal, next_state, movable};
use crate::bounds::{in_box, lemma_successor_in_box, lemma_count, universe_size};

verus! {

/// A level graph as the mathematics sees it: the nodes in discovery order,
/// the edges as pairs of node indices, and the index of the start node.
pub struct GraphView {
    pub nodes: Seq<StateView>,
    pub edges: Seq<(int, int)>,
    pub initial: int,
}

/// The start state of level `d`.
pub open spec fn initial_view(d: DescriptionView) -> StateView {
    StateView { player_pos: d.start_pos, player_dir: d.start_dir, sausages: d.sausages }
}

/// `m` is one of the four moves of a player facing `f`: forward, backward,
/// a left turn or a right turn.
pub open spec fn is_move(f: Pos, m: Pos) -> bool {
    m == f || m == pos_neg(f) || m == left_of(f) || m == right_of(f)
}

/// State `t` is one move away from the non-terminal state `s`.
pub open spec fn leads_to(d: DescriptionView, s: StateView, t: StateView) -> bool {
    !terminal(d, s) && exists|m: Pos| is_move(s.player_dir, m) && next_state(d, s, m) == t
}

/// The edges that expanding `s` adds, as (source, target) states, in the
/// order forward, backward, left, right; none for a terminal state.
pub open spec fn out_edges(d: DescriptionView, s: StateView) -> Seq<(StateView, StateView)> {
    if terminal(d, s) {
        seq![]
    } else {
        let f = s.player_dir;
        seq![
            (s, next_state(d, s, f)),
            (s, next_state(d, s, pos_neg(f))),
            (s, next_state(d, s, left_of(f))),
            (s, next_state(d, s, right_of(f))),
        ]
    }
}

/// The edges that expanding the first `i` nodes adds, in order.
pub open spec fn expected_edges(d: DescriptionView, nodes: Seq<StateView>, i: nat) -> Seq<
    (StateView, StateView),
>
    decreases i,
{
    if i == 0 || i > nodes.len() {
        seq![]
    } else {
        expected_edges(d, nodes, (i - 1) as nat) + out_edges(d, nodes[i - 1])
    }
}

/// Each edge joins two nodes, and joins the states that `want` lists at
/// its position.
#[verifier::opaque]
pub open spec fn edges_match(
    nodes: Seq<StateView>,
    edges: Seq<(int, int)>,
    want: Seq<(StateView, StateView)>,
) -> bool {
    &&& edges.len() == want.len()
    &&& forall|e: int|
        0 <= e < edges.len() ==> 0 <= (#[trigger] edges[e]).0 < nodes.len() && 0 <= edges[e].1
            < nodes.len() && (nodes[edges[e].0], nodes[edges[e].1]) == want[e]
}

/// Every non-terminal node before index `i` has all four of its successors
/// among the nodes.
#[verifier::opaque]
pub open spec fn closed_below(d: DescriptionView, nodes: Seq<StateView>, i: int) -> bool {
    forall|a: int, m: Pos|
        0 <= a < i && a < nodes.len() && !terminal(d, nodes[a]) && #[trigger] is_move(
            nodes[a].player_dir,
            m,
        ) ==> nodes.contains(next_state(d, nodes[a], m))
}

/// Every node but the first is one move away from an earlier node, and from
/// one before index `i`.
#[verifier::opaque]
pub open spec fn discovered_by(d: DescriptionView, nodes: Seq<StateView>, i: int) -> bool {
    forall|k: int|
        #![trigger nodes[k]]
        1 <= k < nodes.len() ==> exists|a: int|
            #![trigger nodes[a]]
            0 <= a < k && a < i && leads_to(d, nodes[a], nodes[k])
}

/// The node list after inserting `v`, and the index that stands for `v`:
/// an equal node already present is kept and its index reused; otherwise
/// `v` is appended.
pub open spec fn inserted(nodes: Seq<StateView>, v: StateView) -> (Seq<StateView>, int) {
    if nodes.contains(v) {
        (nodes, nodes.index_of(v))
    } else {
        (nodes.push(v), nodes.len() as int)
    }
}

/// The explored graph of a level: each distinct state once, the moves
/// between them, and the start state.
#[derive(Debug)]
pub struct LevelGraph {
    states: Vec<LevelState>,
    edges: Vec<(usize, usize)>,
    initial_state: usize,
    level_description: LevelDescription,
}

impl View for LevelGraph {
    type V = GraphView;

    closed spec fn view(&self) -> GraphView {
        GraphView {
            nodes: self.states@.map_values(|s: LevelState| s@),
            edges: self.edges@.map_values(|e: (usize, usize)| (e.0 as int, e.1 as int)),
            initial: self.initial_state as int,
        }
    }
}

/// Where `v` stands in a list without duplicates that holds it.
pub proof fn lemma_index_of(nodes: Seq<StateView>, v: StateView, k: int)
    requires
        nodes.no_duplicates(),
        0 <= k < nodes.len(),
        nodes[k] == v,
    ensures
        nodes.index_of(v) == k,
{
    assert(nodes.contains(v));
    let j = nodes.index_of(v);
    assert(0 <= j < nodes.len() && nodes[j] == v);
}

/// The edges listed for the first `i` nodes depend on those nodes alone.
pub proof fn lemma_expected_prefix(
    d: DescriptionView,
    n1: Seq<StateView>,
    n2: Seq<StateView>,
    i: nat,
)
    requires
        i <= n1.len() <= n2.len(),
        forall|j: int| 0 <= j < n1.len() ==> n1[j] == n2[j],
    ensures
        expected_edges(d, n1, i) == expected_edges(d, n2, i),
    decreases i,
{
    if i > 0 {
        lemma_expected_prefix(d, n1, n2, (i - 1) as nat);
    }
}

/// Inserting keeps the earlier nodes in place, appends at most `v`, and
/// yields an index that holds `v`.
pub proof fn lemma_inserted(nodes: Seq<StateView>, v: StateView)
    requires
        nodes.no_duplicates(),
    ensures
        0 <= inserted(nodes, v).1 < inserted(nodes, v).0.len(),
        inserted(nodes, v).0[inserted(nodes, v).1] == v,
        nodes.len() <= inserted(nodes, v).0.len() <= nodes.len() + 1,
        forall|j: int| 0 <= j < nodes.len() ==> inserted(nodes, v).0[j] == nodes[j],
        forall|j: int| nodes.len() <= j < inserted(nodes, v).0.len() ==> inserted(nodes, v).0[j] == v,
{
    if nodes.contains(v) {
        let w = nodes.index_of(v);
        assert(0 <= w < nodes.len() && nodes[w] == v);
    }
}

/// `n2` keeps every node of `n1` at its index.
pub open spec fn keeps(n1: Seq<StateView>, n2: Seq<StateView>) -> bool {
    n1.len() <= n2.len() && forall|j: int| 0 <= j < n1.len() ==> n2[j] == n1[j]
}

/// The four successors of `s`, in the order forward, backward, left, right.
pub open spec fn successors(d: DescriptionView, s: StateView) -> Seq<StateView> {
    let f = s.player_dir;
    seq![
        next_state(d, s, f),
        next_state(d, s, pos_neg(f)),
        next_state(d, s, left_of(f)),
        next_state(d, s, right_of(f)),
    ]
}

/// What the four inserts of one expansion leave: the old nodes in place,
/// each successor at its returned index, nothing new but successors, and
/// four more edges.
pub proof fn lemma_four_inserts(
    d: DescriptionView,
    g0: GraphView,
    g1: GraphView,
    g2: GraphView,
    g3: GraphView,
    g4: GraphView,
    i: int,
    ks: Seq<int>,
)
    requires
        0 <= i < g0.nodes.len(),
        ks.len() == 4,
        g0.nodes.no_duplicates(),
        g1.nodes.no_duplicates(),
        g2.nodes.no_duplicates(),
        g3.nodes.no_duplicates(),
        (g1.nodes, ks[0]) == inserted(g0.nodes, next_state(d, g0.nodes[i], g0.nodes[i].player_dir)),
        g1.edges == g0.edges.push((i, ks[0])),
        (g2.nodes, ks[1]) == inserted(
            g1.nodes,
            next_state(d, g1.nodes[i], pos_neg(g0.nodes[i].player_dir)),
        ),
        g2.edges == g1.edges.push((i, ks[1])),
        (g3.nodes, ks[2]) == inserted(
            g2.nodes,
            next_state(d, g2.nodes[i], left_of(g0.nodes[i].player_dir)),
        ),
        g3.edges == g2.edges.push((i, ks[2])),
        (g4.nodes, ks[3]) == inserted(
            g3.nodes,
            next_state(d, g3.nodes[i], pos_neg(left_of(g0.nodes[i].player_dir))),
        ),
        g4.edges == g3.edges.push((i, ks[3])),
    ensures
        keeps(g0.nodes, g4.nodes),
        forall|q: int|
            0 <= q < 4 ==> 0 <= #[trigger] ks[q] < g4.nodes.len() && g4.nodes[ks[q]] == successors(
                d,
                g0.nodes[i],
            )[q],
        forall|k: int|
            #![trigger g4.nodes[k]]
            g0.nodes.len() <= k < g4.nodes.len() ==> exists|q: int|
                0 <= q < 4 && #[trigger] successors(d, g0.nodes[i])[q] == g4.nodes[k],
        g4.edges == g0.edges + seq![(i, ks[0]), (i, ks[1]), (i, ks[2]), (i, ks[3])],
{
    let s = g0.nodes[i];
    let f = s.player_dir;
    let sc = successors(d, s);
    assert(pos_neg(left_of(f)) == right_of(f));
    lemma_inserted(g0.nodes, sc[0]);
    lemma_inserted(g1.nodes, sc[1]);
    lemma_inserted(g2.nodes, sc[2]);
    lemma_inserted(g3.nodes, sc[3]);
    assert(g4.nodes[ks[0]] == sc[0]);
    assert(g4.nodes[ks[1]] == sc[1]);
    assert(g4.nodes[ks[2]] == sc[2]);
    assert(g4.nodes[ks[3]] == sc[3]);
    assert forall|k: int| #![trigger g4.nodes[k]] g0.nodes.len() <= k < g4.nodes.len() implies exists|q: int|
        0 <= q < 4 && #[trigger] sc[q] == g4.nodes[k] by {
        if k < g1.nodes.len() {
            assert(sc[0] == g4.nodes[k]);
        } else if k < g2.nodes.len() {
            assert(sc[1] == g4.nodes[k]);
        } else if k < g3.nodes.len() {
            assert(sc[2] == g4.nodes[k]);
        } else {
            assert(sc[3] == g4.nodes[k]);
        }
    }
    assert(g4.edges =~= g0.edges + seq![(i, ks[0]), (i, ks[1]), (i, ks[2]), (i, ks[3])]);
}

/// After expanding node `i`, the first `i + 1` nodes have their successors
/// among the nodes.
pub proof fn lemma_step_closed(
    d: DescriptionView,
    n0: Seq<StateView>,
    n4: Seq<StateView>,
    i: int,
    ks: Seq<int>,
)
    requires
        0 <= i < n0.len(),
        ks.len() == 4,
        !terminal(d, n0[i]),
        closed_below(d, n0, i),
        keeps(n0, n4),
        forall|q: int|
            0 <= q < 4 ==> 0 <= #[trigger] ks[q] < n4.len() && n4[ks[q]] == successors(d, n0[i])[q],
    ensures
        closed_below(d, n4, i + 1),
{
    reveal(closed_below);
    let s = n0[i];
    let f = s.player_dir;
    assert forall|a: int, m: Pos|
        0 <= a < i + 1 && a < n4.len() && !terminal(d, n4[a]) && #[trigger] is_move(
            n4[a].player_dir,
            m,
        ) implies n4.contains(next_state(d, n4[a], m)) by {
        if a < i {
            assert(n4[a] == n0[a]);
            assert(is_move(n0[a].player_dir, m));
            assert(n0.contains(next_state(d, n0[a], m)));
            let w = choose|w: int| 0 <= w < n0.len() && n0[w] == next_state(d, n0[a], m);
            assert(n4[w] == n0[w]);
        } else {
            assert(n4[a] == s);
            let q = if m == f {
                0int
            } else if m == pos_neg(f) {
                1int
            } else if m == left_of(f) {
                2int
            } else {
                3int
            };
            assert(n4[ks[q]] == next_state(d, n4[a], m));
        }
    }
}

/// After expanding node `i`, every node is one move from an earlier node
/// before index `i + 1`.
pub proof fn lemma_step_discovered(
    d: DescriptionView,
    n0: Seq<StateView>,
    n4: Seq<StateView>,
    i: int,
)
    requires
        0 <= i < n0.len(),
        !terminal(d, n0[i]),
        discovered_by(d, n0, i),
        keeps(n0, n4),
        forall|k: int|
            #![trigger n4[k]]
            n0.len() <= k < n4.len() ==> exists|q: int|
                0 <= q < 4 && #[trigger] successors(d, n0[i])[q] == n4[k],
    ensures
        discovered_by(d, n4, i + 1),
{
    reveal(discovered_by);
    let s = n0[i];
    let f = s.player_dir;
    assert forall|k: int| #![trigger n4[k]] 1 <= k < n4.len() implies exists|a: int|
        #![trigger n4[a]]
        0 <= a < k && a < i + 1 && leads_to(d, n4[a], n4[k]) by {
        if k < n0.len() {
            assert(n0[k] == n0[k]);
            let a = choose|a: int| #![trigger n0[a]] 0 <= a < k && a < i && leads_to(d, n0[a], n0[k]);
            assert(n4[a] == n0[a] && n4[k] == n0[k]);
            assert(leads_to(d, n4[a], n4[k]));
        } else {
            let q = choose|q: int| 0 <= q < 4 && #[trigger] successors(d, s)[q] == n4[k];
            assert(is_move(f, f) && is_move(f, pos_neg(f)) && is_move(f, left_of(f)) && is_move(
                f,
                right_of(f),
            ));
            assert(n4[i] == s);
            if q == 0 {
                assert(next_state(d, s, f) == n4[k]);
            } else if q == 1 {
                assert(next_state(d, s, pos_neg(f)) == n4[k]);
            } else if q == 2 {
                assert(next_state(d, s, left_of(f)) == n4[k]);
            } else {
                assert(next_state(d, s, right_of(f)) == n4[k]);
            }
            assert(leads_to(d, n4[i], n4[k]));
        }
    }
}

/// After expanding node `i`, the edges are those listed for the first
/// `i + 1` nodes.
pub proof fn lemma_step_edges(
    d: DescriptionView,
    n0: Seq<StateView>,
    n4: Seq<StateView>,
    e0: Seq<(int, int)>,
    e4: Seq<(int, int)>,
    i: int,
    ks: Seq<int>,
)
    requires
        0 <= i < n0.len(),
        ks.len() == 4,
        !terminal(d, n0[i]),
        edges_match(n0, e0, expected_edges(d, n0, i as nat)),
        keeps(n0, n4),
        forall|q: int|
            0 <= q < 4 ==> 0 <= #[trigger] ks[q] < n4.len() && n4[ks[q]] == successors(d, n0[i])[q],
        e4 == e0 + seq![(i, ks[0]), (i, ks[1]), (i, ks[2]), (i, ks[3])],
    ensures
        edges_match(n4, e4, expected_edges(d, n4, (i + 1) as nat)),
{
    reveal(edges_match);
    let s = n0[i];
    lemma_expected_prefix(d, n0, n4, i as nat);
    let want = expected_edges(d, n4, (i + 1) as nat);
    assert(n4[i] == s);
    assert(want == expected_edges(d, n0, i as nat) + out_edges(d, s));
    let len0 = e0.len();
    assert forall|e: int| 0 <= e < e4.len() implies 0 <= (#[trigger] e4[e]).0 < n4.len() && 0
        <= e4[e].1 < n4.len() && (n4[e4[e].0], n4[e4[e].1]) == want[e] by {
        if e < len0 {
            assert(e4[e] == e0[e]);
            assert(0 <= e0[e].0 < n0.len() && 0 <= e0[e].1 < n0.len());
            assert(n4[e0[e].0] == n0[e0[e].0]);
            assert(n4[e0[e].1] == n0[e0[e].1]);
        } else {
            let q = e - len0;
            assert(e4[e] == (i, ks[q]));
            assert(0 <= ks[q] < n4.len());
        }
    }
}

/// Each node contributes at most four edges.
pub proof fn lemma_expected_len(d: DescriptionView, n: Seq<StateView>, i: nat)
    ensures
        expected_edges(d, n, i).len() <= 4 * i,
    decreases i,
{
    if i > 0 {
        lemma_expected_len(d, n, (i - 1) as nat);
    }
}

/// A finished search holds at most four edges per node.
pub proof fn lemma_edge_count(d: DescriptionView, n: Seq<StateView>, e: Seq<(int, int)>)
    requires
        edges_match(n, e, expected_edges(d, n, n.len())),
    ensures
        e.len() <= 4 * n.len(),
{
    reveal(edges_match);
    lemma_expected_len(d, n, n.len());
}

/// Inserting two equal states in a row keeps one node for both: the
/// second insert changes nothing and returns the index that the first
/// returned, and that node is the only one equal to them.
pub proof fn lemma_insert_idempotent(nodes: Seq<StateView>, a: StateView, b: StateView)
    requires
        nodes.no_duplicates(),
        a == b,
    ensures
        inserted(inserted(nodes, a).0, b).0 == inserted(nodes, a).0,
        inserted(inserted(nodes, a).0, b).1 == inserted(nodes, a).1,
        inserted(nodes, a).0.len() <= nodes.len() + 1,
        forall|j: int|
            0 <= j < inserted(nodes, a).0.len() && inserted(nodes, a).0[j] == b ==> j
                == inserted(nodes, a).1,
{
    lemma_inserted(nodes, a);
    let (n1, i1) = inserted(nodes, a);
    assert(n1.no_duplicates()) by {
        assert forall|x: int, y: int| 0 <= x < n1.len() && 0 <= y < n1.len() && x != y implies n1[x]
            != n1[y] by {
            if x < nodes.len() && y < nodes.len() {
                assert(nodes[x] != nodes[y]);
            } else if x >= nodes.len() && y < nodes.len() {
                assert(!nodes.contains(a));
                assert(nodes[y] != a);
            } else if y >= nodes.len() && x < nodes.len() {
                assert(!nodes.contains(a));
                assert(nodes[x] != a);
            }
        }
    }
    assert(n1.contains(b));
    lemma_index_of(n1, b, i1);
}

/// The search's invariants hold before any node is expanded.
pub proof fn lemma_search_start(d: DescriptionView, n: Seq<StateView>, e: Seq<(int, int)>)
    requires
        n.len() == 1,
        e.len() == 0,
    ensures
        closed_below(d, n, 0),
        discovered_by(d, n, 0),
        edges_match(n, e, expected_edges(d, n, 0)),
{
    reveal(closed_below);
    reveal(discovered_by);
    reveal(edges_match);
}

/// Passing over a terminal node adds no edge.
pub proof fn lemma_terminal_edges(
    d: DescriptionView,
    n: Seq<StateView>,
    e: Seq<(int, int)>,
    i: int,
)
    requires
        0 <= i < n.len(),
        terminal(d, n[i]),
        edges_match(n, e, expected_edges(d, n, i as nat)),
    ensures
        edges_match(n, e, expected_edges(d, n, (i + 1) as nat)),
{
    assert(out_edges(d, n[i]) == Seq::<(StateView, StateView)>::empty());
    assert(expected_edges(d, n, (i + 1) as nat) =~= expected_edges(d, n, i as nat));
}

/// Passing over a terminal node keeps the search's invariants.
pub proof fn lemma_terminal_step(
    d: DescriptionView,
    n: Seq<StateView>,
    e: Seq<(int, int)>,
    i: int,
)
    requires
        0 <= i < n.len(),
        terminal(d, n[i]),
        closed_below(d, n, i),
        discovered_by(d, n, i),
        edges_match(n, e, expected_edges(d, n, i as nat)),
    ensures
        closed_below(d, n, i + 1),
        discovered_by(d, n, i + 1),
        edges_match(n, e, expected_edges(d, n, (i + 1) as nat)),
{
    lemma_terminal_edges(d, n, e, i);
    reveal(closed_below);
    reveal(discovered_by);
    assert forall|k: int| #![trigger n[k]] 1 <= k < n.len() implies exists|a: int|
        #![trigger n[a]]
        0 <= a < k && a < i + 1 && leads_to(d, n[a], n[k]) by {
        assert(n[k] == n[k]);
        let a = choose|a: int| #![trigger n[a]] 0 <= a < k && a < i && leads_to(d, n[a], n[k]);
    }
}

impl LevelGraph {
    /// The level the graph explores.
    pub closed spec fn level(&self) -> DescriptionView {
        self.level_description@
    }

    /// The nodes are distinct states of the graph's level, and every edge
    /// and the start index point at nodes.
    pub closed spec fn wf(&self) -> bool {
        &&& self@.nodes.no_duplicates()
        &&& forall|k: int| 0 <= k < self.states@.len() ==> (#[trigger] self.states@[k]).level() == self.level()
        &&& valid_description(self.level())
        &&& 0 <= self@.initial < self@.nodes.len()
        &&& forall|e: int|
            0 <= e < self@.edges.len() ==> 0 <= (#[trigger] self@.edges[e]).0 < self@.nodes.len()
                && 0 <= self@.edges[e].1 < self@.nodes.len()
    }

    /// A graph that holds only the start state of the level.
    pub fn new(level_description: &LevelDescription) -> (r: LevelGraph)
        ensures
            r.wf(),
            r.level() == level_description@,
            r@.nodes == seq![initial_view(level_description@)],
            r@.edges == Seq::<(int, int)>::empty(),
            r@.initial == 0,
    {
        let initial = LevelState::from(level_description);
        let mut states: Vec<LevelState> = Vec::new();
        states.push(initial);
        let r = LevelGraph {
            states,
            edges: Vec::new(),
            initial_state: 0,
            level_description: level_description.clone(),
        };
        assert(r@.nodes =~= seq![initial_view(level_description@)]);
        assert(r@.edges =~= Seq::<(int, int)>::empty());
        r
    }

    /// Adds `state` unless an equal node is present, and returns the index
    /// of the node that stands for it.
    pub fn insert(&mut self, state: LevelState) -> (r: usize)
        requires
            old(self).wf(),
            state.level() == old(self).level(),
        ensures
            final(self).wf(),
            final(self).level() == old(self).level(),
            (final(self)@.nodes, r as int) == inserted(old(self)@.nodes, state@),
            final(self)@.edges == old(self)@.edges,
            final(self)@.initial == old(self)@.initial,
    {
        let ghost nodes = self@.nodes;
        let n = self.states.len();
        let mut k: usize = 0;
        while k < n
            invariant
                k <= n,
                n == self.states@.len(),
                nodes == self@.nodes,
                self.wf(),
                *self == *old(self),
                state.level() == self.level(),
                forall|j: int| 0 <= j < k ==> nodes[j] != state@,
            decreases n - k,
        {
            assert(nodes[k as int] == self.states@[k as int]@);
            if self.states[k] == state {
                proof {
                    assert(nodes.contains(state@));
                    lemma_index_of(nodes, state@, k as int);
                }
                return k;
            }
            k += 1;
        }
        self.states.push(state);
        proof {
            assert(self@.nodes =~= nodes.push(state@));
            assert forall|i: int, j: int|
                0 <= i < self@.nodes.len() && 0 <= j < self@.nodes.len() && i != j implies self@.nodes[i]
                != self@.nodes[j] by {
                if i < n && j < n {
                    assert(nodes[i] != nodes[j]);
                }
            }
            assert(self@.edges =~= old(self)@.edges);
            assert forall|j: int| 0 <= j < self.states@.len() implies (#[trigger] self.states@[j]).level()
                == self.level() by {
                if j < n {
                    assert(old(self).states@[j] == self.states@[j]);
                }
            }
        }
        n
    }

    /// The number of nodes.
    pub fn node_count(&self) -> (r: usize)
        ensures
            r == self@.nodes.len(),
    {
        self.states.len()
    }

    /// The node at index `k`.
    pub fn state(&self, k: usize) -> (r: &LevelState)
        requires
            k < self@.nodes.len(),
        ensures
            r@ == self@.nodes[k as int],
            self.wf() ==> r.level() == self.level(),
    {
        &self.states[k]
    }

    /// The number of edges.
    pub fn edge_count(&self) -> (r: usize)
        ensures
            r == self@.edges.len(),
    {
        self.edges.len()
    }

    /// The edge at position `e`, as (source index, target index).
    pub fn edge(&self, e: usize) -> (r: (usize, usize))
        requires
            e < self@.edges.len(),
        ensures
            (r.0 as int, r.1 as int) == self@.edges[e as int],
    {
        self.edges[e]
    }

    /// The index of the start node.
    pub fn initial_state(&self) -> (r: usize)
        ensures
            r == self@.initial,
    {
        self.initial_state
    }

    /// The level the graph explores.
    pub fn level_description(&self) -> (r: &LevelDescription)
        ensures
            r@ == self.level(),
    {
        &self.level_description
    }
}

impl LevelGraph {
    /// Applies move `m` to node `i`, inserts the resulting state and
    /// records the edge to it; returns the index of the target node.
    fn expand(&mut self, i: usize, m: Coord) -> (k: usize)
        requires
            old(self).wf(),
            i < old(self)@.nodes.len(),
            status(old(self).level(), old(self)@.nodes[i as int]) == LevelStatus::Unsolved,
            is_move(old(self)@.nodes[i as int].player_dir, m@),
            forall|j: int|
                0 <= j < old(self)@.nodes.len() ==> in_box(
                    old(self).level(),
                    #[trigger] old(self)@.nodes[j],
                ),
        ensures
            final(self).wf(),
            final(self).level() == old(self).level(),
            final(self)@.initial == old(self)@.initial,
            (final(self)@.nodes, k as int) == inserted(
                old(self)@.nodes,
                next_state(old(self).level(), old(self)@.nodes[i as int], m@),
            ),
            final(self)@.edges == old(self)@.edges.push((i as int, k as int)),
            forall|j: int|
                0 <= j < final(self)@.nodes.len() ==> in_box(
                    old(self).level(),
                    #[trigger] final(self)@.nodes[j],
                ),
            final(self)@.nodes.len() <= universe_size(old(self).level()),
    {
        let ghost d = self.level();
        let ghost nodes = self@.nodes;
        let ghost s = nodes[i as int];
        proof {
            assert(in_box(d, s));
            lemma_successor_in_box(d, s, m@);
            assert(self.states@[i as int]@ == s);
            assert(self.states@[i as int].level() == d);
            assert forall|j: int| 0 <= j < s.sausages.len() implies counters_at_most(
                #[trigger] s.sausages[j],
                253,
            ) by {
                assert(!burnt(s.sausages[j]));
            }
            assert(movable(s));
        }
        let next = self.states[i].get_next_state(m);
        let ghost v = next@;
        let k = self.insert(next);
        let ghost mid = self@;
        self.edges.push((i, k));
        proof {
            let n2 = self@.nodes;
            assert(self@.edges =~= mid.edges.push((i as int, k as int)));
            if nodes.contains(v) {
                assert(n2 == nodes);
            } else {
                assert(n2 == nodes.push(v));
            }
            assert forall|j: int| 0 <= j < n2.len() implies in_box(d, #[trigger] n2[j]) by {
                if j < nodes.len() {
                    assert(n2[j] == nodes[j]);
                }
            }
            assert(n2[k as int] == v) by {
                if nodes.contains(v) {
                    let w = nodes.index_of(v);
                    assert(0 <= w < nodes.len() && nodes[w] == v);
                }
            }
            lemma_count(d, n2);
            assert forall|e: int| 0 <= e < self@.edges.len() implies 0 <= (#[trigger] self@.edges[e]).0
                < self@.nodes.len() && 0 <= self@.edges[e].1 < self@.nodes.len() by {
                if e < self@.edges.len() - 1 {
                    assert(self@.edges[e] == mid.edges[e]);
                }
            }
        }
        k
    }
}

/// Explores every state reachable from the start of the level,
/// breadth first. Terminal states (lost, burnt, solved) are kept as nodes
/// but not expanded; every other node is expanded by the four moves
/// (forward, backward, left, right), each result is inserted unless an
/// equal node is present, and an edge to the node that stands for it is
/// recorded.
pub fn generate_graph(level_description: &LevelDescription) -> (r: LevelGraph)
    ensures
        r.wf(),
        r.level() == level_description@,
        r@.initial == 0,
        r@.nodes.len() >= 1,
        r@.nodes[0] == initial_view(level_description@),
        r@.nodes.no_duplicates(),
        closed_below(level_description@, r@.nodes, r@.nodes.len() as int),
        discovered_by(level_description@, r@.nodes, r@.nodes.len() as int),
        edges_match(
            r@.nodes,
            r@.edges,
            expected_edges(level_description@, r@.nodes, r@.nodes.len()),
        ),
        r@.nodes.len() <= universe_size(level_description@),
        r@.edges.len() <= 4 * r@.nodes.len(),
{
    let ghost d = level_description@;
    let mut graph = LevelGraph::new(level_description);
    proof {
        let s0 = graph@.nodes[0];
        assert(valid_description(d));
        assert(graph.states@[0]@ == s0);
        assert forall|j: int| 0 <= j < s0.sausages.len() implies crate::sausage::counters_in_byte(
            #[trigger] s0.sausages[j],
        ) by {
            graph.states@[0].lemma_sausage_counters(j);
        }
        assert(in_box(d, s0));
        lemma_count(d, graph@.nodes);
        lemma_search_start(d, graph@.nodes, graph@.edges);
    }
    let mut i: usize = 0;
    while i < graph.node_count()
        invariant
            graph.wf(),
            graph.level() == d,
            valid_description(d),
            graph@.initial == 0,
            graph@.nodes.len() >= 1,
            graph@.nodes[0] == initial_view(d),
            i <= graph@.nodes.len() <= universe_size(d),
            forall|j: int| 0 <= j < graph@.nodes.len() ==> in_box(d, #[trigger] graph@.nodes[j]),
            closed_below(d, graph@.nodes, i as int),
            discovered_by(d, graph@.nodes, i as int),
            edges_match(graph@.nodes, graph@.edges, expected_edges(d, graph@.nodes, i as nat)),
        decreases universe_size(d) - i,
    {
        let ghost g0 = graph@;
        let status = graph.state(i).get_status();
        if status == LevelStatus::Unsolved {
            let f = graph.state(i).player_dir();
            let k1 = graph.expand(i, f);
            let ghost g1 = graph@;
            let k2 = graph.expand(i, f.negated());
            let ghost g2 = graph@;
            let k3 = graph.expand(i, f.cross_z());
            let ghost g3 = graph@;
            let k4 = graph.expand(i, f.cross_z().negated());
            proof {
                let ks = seq![k1 as int, k2 as int, k3 as int, k4 as int];
                lemma_four_inserts(d, g0, g1, g2, g3, graph@, i as int, ks);
                lemma_step_closed(d, g0.nodes, graph@.nodes, i as int, ks);
                lemma_step_discovered(d, g0.nodes, graph@.nodes, i as int);
                lemma_step_edges(d, g0.nodes, graph@.nodes, g0.edges, graph@.edges, i as int, ks);
            }
        } else {
            proof {
                lemma_terminal_step(d, g0.nodes, g0.edges, i as int);
            }
        }
        i += 1;
    }
    proof {
        lemma_edge_count(d, graph@.nodes, graph@.edges);
    }
    graph
}

} // verus!
