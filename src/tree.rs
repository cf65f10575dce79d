//! The search tree: an arena of nodes addressed by `NodeId`, and the
//! mathematical model of the four search phases over it.
use vstd::prelude::*;
use crate::game::{Game, first_playout, is_over};
use crate::ucb::{ONE, exploration_term, own_rate_num, parent_rate_fixed, parent_rate_num, rate_den};

verus! {

/// The index of a node in the arena of one search.
#[derive(Debug, Clone, Copy, PartialEq, Eq, Hash, Structural)]
pub struct NodeId(pub usize);

impl NodeId {
    pub fn new(index: usize) -> (r: NodeId)
        ensures
            r.0 == index,
    {
        NodeId(index)
    }
}

/// One game state's search statistics and its links in the tree.
pub struct Node<A, P> {
    /// The number of simulations that passed through this node.
    pub visits: u64,
    /// Wins minus losses of those simulations for `to_play`.
    pub score: i64,
    /// The player who chooses the next action at this state.
    pub to_play: P,
    pub parent: Option<NodeId>,
    /// The expanded actions and the nodes they lead to, in expansion order.
    pub children: Vec<(A, NodeId)>,
    /// The legal actions not yet expanded.
    pub untried_actions: Vec<A>,
    /// Whether the state is over.
    pub terminal: bool,
}

pub struct NodeView<A, P> {
    pub visits: nat,
    pub score: int,
    pub to_play: P,
    pub parent: Option<NodeId>,
    pub children: Seq<(A, NodeId)>,
    pub untried: Seq<A>,
    pub terminal: bool,
}

impl<A, P: Copy> View for Node<A, P> {
    type V = NodeView<A, P>;

    open spec fn view(&self) -> NodeView<A, P> {
        NodeView {
            visits: self.visits as nat,
            score: self.score as int,
            to_play: self.to_play,
            parent: self.parent,
            children: self.children@,
            untried: self.untried_actions@,
            terminal: self.terminal,
        }
    }
}

pub open spec fn child_node<A>(ch: (A, NodeId)) -> int {
    ch.1.0 as int
}

/// The node made for state `g`, before any simulation.
pub open spec fn fresh_node<G: Game>(g: G, parent: Option<NodeId>) -> NodeView<
    G::Action,
    G::Player,
> {
    NodeView {
        visits: 0,
        score: 0,
        to_play: g.mover(),
        parent,
        children: seq![],
        untried: g.legal_actions(),
        terminal: is_over(&g),
    }
}

/// Some child of `children` is reached by `a`.
pub open spec fn has_child_by<A>(children: Seq<(A, NodeId)>, a: A) -> bool {
    exists|k: int| 0 <= k < children.len() && #[trigger] children[k].0 == a
}

/// The well-formedness of node `j`, whose game state is `states[j]`.
pub open spec fn node_wf<G: Game>(
    t: Seq<NodeView<G::Action, G::Player>>,
    states: Seq<G>,
    j: int,
) -> bool {
    let n = t[j];
    let g = states[j];
    &&& n.to_play == g.mover()
    &&& n.terminal == is_over(&g)
    &&& n.terminal ==> n.children.len() == 0
    &&& -n.visits <= n.score <= n.visits
    &&& (j == 0 <==> n.parent is None)
    &&& (n.parent matches Some(p) ==> p.0 < j)
    &&& n.untried.no_duplicates()
    &&& forall|a: G::Action| #[trigger]
        n.untried.contains(a) ==> g.legal_actions().contains(a)
    &&& forall|a: G::Action| #[trigger]
        g.legal_actions().contains(a) ==> n.untried.contains(a) || has_child_by(n.children, a)
    &&& forall|k: int|
        0 <= k < n.children.len() ==> !n.untried.contains(#[trigger] n.children[k].0)
    &&& forall|k: int|
        0 <= k < n.children.len() ==> {
            let c = child_node(#[trigger] n.children[k]);
            &&& j < c < t.len()
            &&& t[c].parent == Some(NodeId(j as usize))
            &&& g.legal_actions().contains(n.children[k].0)
            &&& states[c] == g.after(n.children[k].0)
        }
}

/// The tree is well formed: node 0 is the root, every other node has an
/// earlier parent, and every node agrees with its game state.
pub open spec fn tree_wf<G: Game>(t: Seq<NodeView<G::Action, G::Player>>, states: Seq<G>) -> bool {
    &&& t.len() >= 1
    &&& t.len() == states.len()
    &&& forall|j: int| 0 <= j < t.len() ==> #[trigger] node_wf(t, states, j)
}

/// Ranks compare as `Some(x) > Some(y)` when `x > y`, and `Some(_) > None`.
pub open spec fn outranks(a: Option<int>, b: Option<int>) -> bool {
    match (a, b) {
        (Some(x), Some(y)) => x > y,
        (Some(_), None) => true,
        _ => false,
    }
}

/// How children are ranked: by UCB1 during selection (`ucb`), with
/// exploration constant `c` under a parent of `parent_visits` visits; by
/// parent-perspective win rate for the final choice.
pub open spec fn rank<A, P>(ucb: bool, c: nat, parent_visits: nat, n: NodeView<A, P>) -> Option<
    int,
> {
    if ucb {
        ucb_rank(c, parent_visits, n)
    } else {
        rate_rank(n)
    }
}

/// The position of the best-ranked among the first `k` of `children`; of
/// several equally ranked, the earliest.
pub open spec fn best_among<A, P>(
    t: Seq<NodeView<A, P>>,
    children: Seq<(A, NodeId)>,
    ucb: bool,
    c: nat,
    parent_visits: nat,
    k: nat,
) -> Option<int>
    decreases k,
{
    if k == 0 {
        None
    } else {
        match best_among(t, children, ucb, c, parent_visits, (k - 1) as nat) {
            None => Some(k - 1),
            Some(b) => if outranks(
                rank(ucb, c, parent_visits, t[child_node(children[k - 1])]),
                rank(ucb, c, parent_visits, t[child_node(children[b])]),
            ) {
                Some(k - 1)
            } else {
                Some(b)
            },
        }
    }
}

/// The UCB1 rank of a child of a node with `parent_visits` visits: its
/// parent-perspective win rate plus the exploration term; none for an
/// unvisited child.
pub open spec fn ucb_rank<A, P>(c: nat, parent_visits: nat, n: NodeView<A, P>) -> Option<int> {
    if n.visits == 0 {
        None
    } else {
        Some(parent_rate_fixed(n.score, n.visits) + exploration_term(c, parent_visits, n.visits))
    }
}

/// The rank of a child for the final choice: its parent-perspective win rate.
pub open spec fn rate_rank<A, P>(n: NodeView<A, P>) -> Option<int> {
    if n.visits == 0 {
        None
    } else {
        Some(parent_rate_fixed(n.score, n.visits))
    }
}

/// The position, among the children of node `j`, that UCB1 selects.
pub open spec fn ucb_choice<A, P>(t: Seq<NodeView<A, P>>, c: nat, j: int) -> Option<int> {
    best_among(t, t[j].children, true, c, t[j].visits, t[j].children.len())
}

/// Selection: the actions taken and the leaf reached when descending from
/// node `j` by UCB1 while the node is not terminal and has no untried action.
pub open spec fn descend<A, P>(t: Seq<NodeView<A, P>>, c: nat, j: int) -> (Seq<A>, int)
    decreases t.len() - j,
{
    if 0 <= j < t.len() && !t[j].terminal && t[j].untried.len() == 0 {
        match ucb_choice(t, c, j) {
            Some(b) => {
                let next = child_node(t[j].children[b]);
                if j < next < t.len() {
                    let (path, leaf) = descend(t, c, next);
                    (seq![t[j].children[b].0] + path, leaf)
                } else {
                    (seq![], j)
                }
            },
            None => (seq![], j),
        }
    } else {
        (seq![], j)
    }
}

/// Expansion of node `j`: its last untried action moves to a new child.
/// Returns the tree, the states and the expanded node.
pub open spec fn expand<G: Game>(
    t: Seq<NodeView<G::Action, G::Player>>,
    states: Seq<G>,
    j: int,
) -> (Seq<NodeView<G::Action, G::Player>>, Seq<G>, int) {
    let n = t[j];
    if n.terminal || n.untried.len() == 0 {
        (t, states, j)
    } else {
        let a = n.untried.last();
        let g = states[j].after(a);
        let id = t.len();
        let updated = NodeView {
            untried: n.untried.drop_last(),
            children: n.children.push((a, NodeId(id as usize))),
            ..n
        };
        (
            t.update(j, updated).push(fresh_node(g, Some(NodeId(j as usize)))),
            states.push(g),
            id as int,
        )
    }
}

/// What a simulation that ended with `winner` adds to the score of a node
/// where `to_play` moves.
pub open spec fn outcome_value<P>(winner: Option<P>, to_play: P) -> int {
    match winner {
        Some(w) => if w == to_play {
            1
        } else {
            -1
        },
        None => 0,
    }
}

pub open spec fn credit<A, P>(n: NodeView<A, P>, winner: Option<P>) -> NodeView<A, P> {
    NodeView { visits: n.visits + 1, score: n.score + outcome_value(winner, n.to_play), ..n }
}

/// Backpropagation: node `e` and each of its ancestors are credited once.
pub open spec fn backprop<A, P>(t: Seq<NodeView<A, P>>, e: int, winner: Option<P>) -> Seq<
    NodeView<A, P>,
>
    decreases e,
{
    if 0 <= e < t.len() {
        let t1 = t.update(e, credit(t[e], winner));
        match t[e].parent {
            Some(p) => if (p.0 as int) < e {
                backprop(t1, p.0 as int, winner)
            } else {
                t1
            },
            None => t1,
        }
    } else {
        t
    }
}

/// One search iteration whose simulation ended with `winner`.
pub open spec fn iterate<G: Game>(
    t: Seq<NodeView<G::Action, G::Player>>,
    states: Seq<G>,
    c: nat,
    winner: Option<G::Player>,
) -> (Seq<NodeView<G::Action, G::Player>>, Seq<G>) {
    let leaf = descend(t, c, 0).1;
    let (t1, s1, e) = expand(t, states, leaf);
    (backprop(t1, e, winner), s1)
}

/// The game state of the node that the next iteration expands, from which
/// its simulation starts.
pub open spec fn expanded_state<G: Game>(
    t: Seq<NodeView<G::Action, G::Player>>,
    states: Seq<G>,
    c: nat,
) -> G {
    let (t1, s1, e) = expand(t, states, descend(t, c, 0).1);
    s1[e]
}

/// The tree grown from `g` by `n` iterations whose simulations always play
/// the first legal action.
pub open spec fn first_grown<G: Game>(g: G, c: nat, n: nat) -> (
    Seq<NodeView<G::Action, G::Player>>,
    Seq<G>,
)
    decreases n,
{
    if n == 0 {
        (seq![fresh_node(g, None)], seq![g])
    } else {
        let (t, s) = first_grown(g, c, (n - 1) as nat);
        iterate(t, s, c, first_playout(expanded_state(t, s, c)).winner())
    }
}

/// The tree grown from `g` by one iteration for each simulation outcome of
/// `winners`, in order.
pub open spec fn grown<G: Game>(g: G, c: nat, winners: Seq<Option<G::Player>>) -> (
    Seq<NodeView<G::Action, G::Player>>,
    Seq<G>,
)
    decreases winners.len(),
{
    if winners.len() == 0 {
        (seq![fresh_node(g, None)], seq![g])
    } else {
        let (t, s) = grown(g, c, winners.drop_last());
        iterate(t, s, c, winners.last())
    }
}

/// The action recommended from the root: the one whose child has the best
/// parent-perspective win rate.
pub open spec fn recommended<A, P>(t: Seq<NodeView<A, P>>) -> Option<A> {
    match best_among(t, t[0].children, false, 0, 0, t[0].children.len()) {
        Some(b) => Some(t[0].children[b].0),
        None => None,
    }
}

pub proof fn lemma_best_among_bound<A, P>(
    t: Seq<NodeView<A, P>>,
    children: Seq<(A, NodeId)>,
    ucb: bool,
    c: nat,
    parent_visits: nat,
    k: nat,
)
    ensures
        best_among(t, children, ucb, c, parent_visits, k) is Some <==> k > 0,
        best_among(t, children, ucb, c, parent_visits, k) matches Some(b) ==> 0 <= b < k,
    decreases k,
{
    if k > 0 {
        lemma_best_among_bound(t, children, ucb, c, parent_visits, (k - 1) as nat);
    }
}

/// Every node but the root has an earlier parent, and the root has none.
pub open spec fn parents_precede<A, P>(t: Seq<NodeView<A, P>>) -> bool {
    &&& t.len() >= 1
    &&& t[0].parent is None
    &&& forall|j: int|
        0 < j < t.len() ==> (#[trigger] t[j].parent matches Some(p) && (p.0 as int) < j)
}

/// `m` bounds the visits of every node.
pub open spec fn visits_at_most<A, P>(t: Seq<NodeView<A, P>>, m: nat) -> bool {
    forall|j: int| 0 <= j < t.len() ==> #[trigger] t[j].visits <= m
}

/// Backpropagation credits node `e`, leaves every later node alone, and
/// credits every other node at most once.
pub proof fn lemma_backprop_shape<A, P>(t: Seq<NodeView<A, P>>, e: int, winner: Option<P>)
    requires
        0 <= e < t.len(),
    ensures
        backprop(t, e, winner).len() == t.len(),
        backprop(t, e, winner)[e] == credit(t[e], winner),
        forall|j: int| e < j < t.len() ==> #[trigger] backprop(t, e, winner)[j] == t[j],
        forall|j: int|
            0 <= j < t.len() ==> #[trigger] backprop(t, e, winner)[j] == t[j]
                || backprop(t, e, winner)[j] == credit(t[j], winner),
    decreases e,
{
    let t1 = t.update(e, credit(t[e], winner));
    if let Some(p) = t[e].parent {
        if (p.0 as int) < e {
            lemma_backprop_shape(t1, p.0 as int, winner);
        }
    }
}

/// Backpropagation from any node credits the root exactly once.
pub proof fn lemma_backprop_credits_root<A, P>(t: Seq<NodeView<A, P>>, e: int, winner: Option<P>)
    requires
        0 <= e < t.len(),
        parents_precede(t),
    ensures
        backprop(t, e, winner)[0] == credit(t[0], winner),
    decreases e,
{
    let t1 = t.update(e, credit(t[e], winner));
    if e > 0 {
        let p = t[e].parent.unwrap();
        assert(parents_precede(t1)) by {
            assert forall|j: int| 0 < j < t1.len() implies (#[trigger] t1[j].parent matches Some(
                q,
            ) && (q.0 as int) < j) by {
                assert(t[j].parent matches Some(q) && (q.0 as int) < j);
            }
        }
        lemma_backprop_credits_root(t1, p.0 as int, winner);
    } else {
        lemma_backprop_shape(t, e, winner);
    }
}

pub proof fn lemma_wf_parents<G: Game>(t: Seq<NodeView<G::Action, G::Player>>, states: Seq<G>)
    requires
        tree_wf(t, states),
    ensures
        parents_precede(t),
{
    assert(node_wf(t, states, 0));
    assert forall|j: int| 0 < j < t.len() implies (#[trigger] t[j].parent matches Some(p) && (
    p.0 as int) < j) by {
        assert(node_wf(t, states, j));
    }
}

/// Backpropagation keeps the tree well formed and raises the visit bound
/// by one.
pub proof fn lemma_backprop_wf<G: Game>(
    t: Seq<NodeView<G::Action, G::Player>>,
    states: Seq<G>,
    e: int,
    winner: Option<G::Player>,
    m: nat,
)
    requires
        tree_wf(t, states),
        visits_at_most(t, m),
        0 <= e < t.len(),
    ensures
        tree_wf(backprop(t, e, winner), states),
        visits_at_most(backprop(t, e, winner), m + 1),
        backprop(t, e, winner)[0].visits == t[0].visits + 1,
{
    let b = backprop(t, e, winner);
    lemma_backprop_shape(t, e, winner);
    lemma_wf_parents(t, states);
    lemma_backprop_credits_root(t, e, winner);
    assert forall|j: int| 0 <= j < b.len() implies #[trigger] node_wf(b, states, j) by {
        assert(node_wf(t, states, j));
        assert(b[j] == t[j] || b[j] == credit(t[j], winner));
        let n = t[j];
        assert forall|k: int| 0 <= k < b[j].children.len() implies {
            let c = child_node(#[trigger] b[j].children[k]);
            &&& j < c < b.len()
            &&& b[c].parent == Some(NodeId(j as usize))
            &&& states[j].legal_actions().contains(b[j].children[k].0)
            &&& states[c] == states[j].after(b[j].children[k].0)
        } by {
            let c = child_node(n.children[k]);
            assert(j < c < t.len());
            assert(b[c] == t[c] || b[c] == credit(t[c], winner));
        }
    }
    assert forall|j: int| 0 <= j < b.len() implies #[trigger] b[j].visits <= m + 1 by {
        assert(b[j] == t[j] || b[j] == credit(t[j], winner));
        assert(t[j].visits <= m);
    }
}

/// Expansion keeps the tree well formed and returns a node of it.
pub proof fn lemma_expand_wf<G: Game>(
    t: Seq<NodeView<G::Action, G::Player>>,
    states: Seq<G>,
    j: int,
    m: nat,
)
    requires
        tree_wf(t, states),
        visits_at_most(t, m),
        0 <= j < t.len(),
        t.len() < usize::MAX,
    ensures
        ({
            let (t1, s1, e) = expand(t, states, j);
            &&& tree_wf(t1, s1)
            &&& visits_at_most(t1, m)
            &&& 0 <= e < t1.len()
            &&& t1[0].visits == t[0].visits
            &&& t1.len() <= t.len() + 1
            &&& forall|k: int| 0 <= k < t[0].children.len() ==> #[trigger] t1[0].children[k] == t[0].children[k]
            &&& t1[0].children.len() >= t[0].children.len()
        }),
{
    let (t1, s1, e) = expand(t, states, j);
    let n = t[j];
    if !(n.terminal || n.untried.len() == 0) {
        let a = n.untried.last();
        let g = states[j].after(a);
        let id = t.len() as int;
        assert(node_wf(t, states, j));
        assert(n.untried.contains(a));
        assert forall|i: int| 0 <= i < t1.len() implies #[trigger] node_wf(t1, s1, i) by {
            if i == id {
                g.lemma_actions_distinct();
                assert forall|x: G::Action| #[trigger] g.legal_actions().contains(x) implies t1[i].untried.contains(x) || has_child_by(t1[i].children, x) by {}
            } else if i == j {
                let u = t1[j];
                assert forall|x: G::Action| #[trigger] u.untried.contains(x) implies states[j].legal_actions().contains(x) by {
                    let q = choose|q: int| 0 <= q < u.untried.len() && u.untried[q] == x;
                    assert(n.untried[q] == x);
                    assert(n.untried.contains(x));
                }
                assert forall|k: int| 0 <= k < u.children.len() implies !u.untried.contains(#[trigger] u.children[k].0) by {
                    if k < n.children.len() {
                        assert(u.children[k] == n.children[k]);
                        if u.untried.contains(u.children[k].0) {
                            let q = choose|q: int| 0 <= q < u.untried.len() && u.untried[q] == u.children[k].0;
                            assert(n.untried[q] == u.children[k].0);
                            assert(n.untried.contains(n.children[k].0));
                        }
                    } else {
                        assert(u.children[k].0 == a);
                        if u.untried.contains(a) {
                            let q = choose|q: int| 0 <= q < u.untried.len() && u.untried[q] == a;
                            assert(n.untried[q] == a);
                            assert(n.untried[n.untried.len() - 1] == a);
                        }
                    }
                }
                assert forall|k: int| 0 <= k < u.children.len() implies {
                    let c = child_node(#[trigger] u.children[k]);
                    &&& i < c < t1.len()
                    &&& t1[c].parent == Some(NodeId(i as usize))
                    &&& s1[i].legal_actions().contains(u.children[k].0)
                    &&& s1[c] == s1[i].after(u.children[k].0)
                } by {
                    if k < n.children.len() {
                        assert(u.children[k] == n.children[k]);
                        let c = child_node(n.children[k]);
                        assert(c != j);
                    }
                }
                assert(u.untried.no_duplicates());
                assert forall|x: G::Action| #[trigger] states[j].legal_actions().contains(x) implies u.untried.contains(x) || has_child_by(u.children, x) by {
                    if n.untried.contains(x) {
                        let q = choose|q: int| 0 <= q < n.untried.len() && n.untried[q] == x;
                        if q == n.untried.len() - 1 {
                            assert(u.children[n.children.len() as int].0 == x);
                        } else {
                            assert(u.untried[q] == x);
                        }
                    } else {
                        assert(has_child_by(n.children, x));
                        let k = choose|k: int| 0 <= k < n.children.len() && #[trigger] n.children[k].0 == x;
                        assert(u.children[k].0 == x);
                    }
                }
            } else {
                assert(node_wf(t, states, i));
                assert(t1[i] == t[i]);
                let ni = t[i];
                assert forall|k: int| 0 <= k < ni.children.len() implies {
                    let c = child_node(#[trigger] ni.children[k]);
                    &&& i < c < t1.len()
                    &&& t1[c].parent == Some(NodeId(i as usize))
                    &&& s1[i].legal_actions().contains(ni.children[k].0)
                    &&& s1[c] == s1[i].after(ni.children[k].0)
                } by {
                    let c = child_node(ni.children[k]);
                    assert(i < c < t.len());
                    if c == j {
                        assert(t1[c].parent == t[c].parent);
                    }
                }
            }
        }
        assert forall|i: int| 0 <= i < t1.len() implies #[trigger] t1[i].visits <= m by {
            if i < t.len() {
                assert(t[i].visits <= m);
            }
        }
    }
}

/// Selection ends at a node of the tree.
pub proof fn lemma_descend_in_tree<A, P>(t: Seq<NodeView<A, P>>, c: nat, j: int)
    requires
        0 <= j < t.len(),
    ensures
        j <= descend(t, c, j).1 < t.len(),
    decreases t.len() - j,
{
    if !t[j].terminal && t[j].untried.len() == 0 {
        if let Some(b) = ucb_choice(t, c, j) {
            let next = child_node(t[j].children[b]);
            if j < next < t.len() {
                lemma_descend_in_tree(t, c, next);
            }
        }
    }
}

/// Whatever the simulation outcomes, the grown tree is well formed — in
/// particular, at every node the expanded actions and the untried ones are
/// disjoint and together make up the legal actions of the node's state —
/// and the root has been visited once per iteration.
pub proof fn lemma_grown_wf<G: Game>(g: G, c: nat, winners: Seq<Option<G::Player>>)
    requires
        winners.len() < usize::MAX,
    ensures
        tree_wf(grown(g, c, winners).0, grown(g, c, winners).1),
        grown(g, c, winners).0[0].visits == winners.len(),
        grown(g, c, winners).0.len() <= winners.len() + 1,
        visits_at_most(grown(g, c, winners).0, winners.len()),
    decreases winners.len(),
{
    if winners.len() == 0 {
        let t = grown(g, c, winners).0;
        let st = grown(g, c, winners).1;
        g.lemma_actions_distinct();
        assert(node_wf(t, st, 0));
    } else {
        let prev = winners.drop_last();
        lemma_grown_wf(g, c, prev);
        let (t, st) = grown(g, c, prev);
        let m = prev.len();
        lemma_descend_in_tree(t, c, 0);
        let leaf = descend(t, c, 0).1;
        lemma_expand_wf(t, st, leaf, m);
        let (t1, s1, e) = expand(t, st, leaf);
        lemma_backprop_wf(t1, s1, e, winners.last(), m);
    }
}

/// One iteration only takes untried actions away (from the end) and only
/// adds children (at the end), at every node that was already there.
pub proof fn lemma_iteration_monotone<G: Game>(
    t: Seq<NodeView<G::Action, G::Player>>,
    states: Seq<G>,
    c: nat,
    winner: Option<G::Player>,
)
    requires
        tree_wf(t, states),
        t.len() < usize::MAX,
    ensures
        ({
            let next = iterate(t, states, c, winner).0;
            &&& next.len() >= t.len()
            &&& forall|j: int|
                0 <= j < t.len() ==> {
                    &&& #[trigger] next[j].untried.len() <= t[j].untried.len()
                    &&& next[j].untried == t[j].untried.take(next[j].untried.len() as int)
                    &&& next[j].children.len() >= t[j].children.len()
                    &&& t[j].children == next[j].children.take(t[j].children.len() as int)
                }
        }),
{
    lemma_descend_in_tree(t, c, 0);
    let leaf = descend(t, c, 0).1;
    lemma_wf_parents(t, states);
    let (t1, s1, e) = expand(t, states, leaf);
    assert forall|j: int| 0 <= j < t.len() implies #[trigger] t1[j].untried.len() <= t[j].untried.len()
        && t1[j].untried == t[j].untried.take(t1[j].untried.len() as int) && t1[j].children.len()
        >= t[j].children.len() && t[j].children == t1[j].children.take(
        t[j].children.len() as int,
    ) by {
        assert(t[j].untried =~= t[j].untried.take(t[j].untried.len() as int));
        assert(t[j].children =~= t[j].children.take(t[j].children.len() as int));
        if j == leaf && !(t[j].terminal || t[j].untried.len() == 0) {
            assert(t1[j].untried =~= t[j].untried.take(t1[j].untried.len() as int));
            assert(t[j].children =~= t1[j].children.take(t[j].children.len() as int));
        }
    }
    lemma_backprop_shape(t1, e, winner);
    let next = backprop(t1, e, winner);
    assert forall|j: int| 0 <= j < t.len() implies #[trigger] next[j].untried.len()
        <= t[j].untried.len() && next[j].untried == t[j].untried.take(
        next[j].untried.len() as int,
    ) && next[j].children.len() >= t[j].children.len() && t[j].children
        == next[j].children.take(t[j].children.len() as int) by {
        assert(t1[j].untried.len() <= t[j].untried.len());
        assert(next[j] == t1[j] || next[j] == credit(t1[j], winner));
    }
}

/// How many entries of `children` lead to node `x`.
pub open spec fn occurrences<A>(children: Seq<(A, NodeId)>, x: int) -> nat
    decreases children.len(),
{
    if children.len() == 0 {
        0
    } else {
        occurrences(children.drop_last(), x) + if child_node(children.last()) == x {
            1nat
        } else {
            0nat
        }
    }
}

/// The visits of the nodes that `children` lead to, added up.
pub open spec fn children_visits<A, P>(t: Seq<NodeView<A, P>>, children: Seq<(A, NodeId)>) -> int
    decreases children.len(),
{
    if children.len() == 0 {
        0
    } else {
        children_visits(t, children.drop_last()) + t[child_node(children.last())].visits
    }
}

/// Parent and child links agree: each child names its parent, and each
/// node but the root is listed exactly once among its parent's children.
pub open spec fn links_agree<A, P>(t: Seq<NodeView<A, P>>) -> bool {
    &&& parents_precede(t)
    &&& forall|i: int, k: int|
        0 <= i < t.len() && 0 <= k < t[i].children.len() ==> {
            let c = child_node(#[trigger] t[i].children[k]);
            &&& i < c < t.len()
            &&& t[c].parent == Some(NodeId(i as usize))
        }
    &&& forall|j: int|
        0 < j < t.len() ==> occurrences(t[(#[trigger] t[j].parent).unwrap().0 as int].children, j)
            == 1
}

/// `u` has the links of `t`.
pub open spec fn same_links<A, P>(t: Seq<NodeView<A, P>>, u: Seq<NodeView<A, P>>) -> bool {
    &&& u.len() == t.len()
    &&& forall|j: int|
        0 <= j < t.len() ==> (#[trigger] u[j]).parent == t[j].parent && u[j].children
            == t[j].children
}

proof fn lemma_same_links<A, P>(t: Seq<NodeView<A, P>>, u: Seq<NodeView<A, P>>)
    requires
        links_agree(t),
        same_links(t, u),
    ensures
        links_agree(u),
{
    assert(u[0].parent == t[0].parent);
    assert forall|j: int| 0 < j < u.len() implies (#[trigger] u[j].parent matches Some(p) && (
    p.0 as int) < j) by {
        assert(u[j].parent == t[j].parent);
    }
    assert forall|i: int, k: int| 0 <= i < u.len() && 0 <= k < u[i].children.len() implies {
        let c = child_node(#[trigger] u[i].children[k]);
        &&& i < c < u.len()
        &&& u[c].parent == Some(NodeId(i as usize))
    } by {
        assert(u[i].children == t[i].children);
        let c = child_node(t[i].children[k]);
        assert(u[c].parent == t[c].parent);
    }
    assert forall|j: int| 0 < j < u.len() implies occurrences(
        u[(#[trigger] u[j].parent).unwrap().0 as int].children,
        j,
    ) == 1 by {
        assert(u[j].parent == t[j].parent);
        assert(t[j].parent matches Some(p) && (p.0 as int) < j);
        let p = t[j].parent.unwrap().0 as int;
        assert(u[p].children == t[p].children);
    }
}

proof fn lemma_occurrence_listed<A>(children: Seq<(A, NodeId)>, x: int)
    requires
        occurrences(children, x) > 0,
    ensures
        exists|k: int| 0 <= k < children.len() && child_node(#[trigger] children[k]) == x,
    decreases children.len(),
{
    if child_node(children.last()) == x {
        assert(child_node(children[children.len() - 1]) == x);
    } else {
        lemma_occurrence_listed(children.drop_last(), x);
        let k = choose|k: int|
            0 <= k < children.drop_last().len() && child_node(
                #[trigger] children.drop_last()[k],
            ) == x;
        assert(children[k] == children.drop_last()[k]);
    }
}

proof fn lemma_children_visits_update<A, P>(
    t: Seq<NodeView<A, P>>,
    children: Seq<(A, NodeId)>,
    x: int,
    n: NodeView<A, P>,
)
    requires
        0 <= x < t.len(),
        n.visits == t[x].visits + 1,
        forall|k: int| 0 <= k < children.len() ==> 0 <= child_node(#[trigger] children[k]) < t.len(),
    ensures
        children_visits(t.update(x, n), children) == children_visits(t, children) + occurrences(
            children,
            x,
        ),
    decreases children.len(),
{
    if children.len() > 0 {
        let rest = children.drop_last();
        assert forall|k: int| 0 <= k < rest.len() implies 0 <= child_node(#[trigger] rest[k])
            < t.len() by {
            assert(rest[k] == children[k]);
        }
        assert(0 <= child_node(children[children.len() - 1]) < t.len());
        lemma_children_visits_update(t, rest, x, n);
    }
}

proof fn lemma_children_visits_same<A, P>(
    t: Seq<NodeView<A, P>>,
    u: Seq<NodeView<A, P>>,
    children: Seq<(A, NodeId)>,
)
    requires
        forall|k: int|
            0 <= k < children.len() ==> u[child_node(#[trigger] children[k])].visits == t[child_node(
                children[k],
            )].visits,
    ensures
        children_visits(u, children) == children_visits(t, children),
    decreases children.len(),
{
    if children.len() > 0 {
        let rest = children.drop_last();
        assert forall|k: int| 0 <= k < rest.len() implies u[child_node(#[trigger] rest[k])].visits
            == t[child_node(rest[k])].visits by {
            assert(rest[k] == children[k]);
        }
        assert(u[child_node(children[children.len() - 1])].visits == t[child_node(
            children[children.len() - 1],
        )].visits);
        lemma_children_visits_same(t, u, rest);
    }
}

/// Backpropagation from a node other than the root credits exactly one
/// child of the root.
proof fn lemma_backprop_one_root_child<A, P>(t: Seq<NodeView<A, P>>, e: int, winner: Option<P>)
    requires
        links_agree(t),
        0 < e < t.len(),
    ensures
        children_visits(backprop(t, e, winner), t[0].children) == children_visits(
            t,
            t[0].children,
        ) + 1,
        same_links(t, backprop(t, e, winner)),
    decreases e,
{
    let ch0 = t[0].children;
    let t1 = t.update(e, credit(t[e], winner));
    assert(t[e].parent matches Some(p) && (p.0 as int) < e);
    let p = t[e].parent.unwrap().0 as int;
    assert forall|k: int| 0 <= k < ch0.len() implies 0 <= child_node(#[trigger] ch0[k]) < t.len() by {
        assert(0 < child_node(t[0].children[k]) < t.len());
    }
    lemma_children_visits_update(t, ch0, e, credit(t[e], winner));
    assert(same_links(t, t1));
    lemma_same_links(t, t1);
    if p == 0 {
        assert(occurrences(ch0, e) == 1);
        let t2 = t1.update(0, credit(t1[0], winner));
        assert(backprop(t, e, winner) == backprop(t1, 0, winner));
        assert(backprop(t1, 0, winner) == t2);
        if occurrences(ch0, 0) > 0 {
            lemma_occurrence_listed(ch0, 0);
            let k = choose|k: int| 0 <= k < ch0.len() && child_node(#[trigger] ch0[k]) == 0;
            assert(0 < child_node(t[0].children[k]));
        }
        lemma_children_visits_update(t1, ch0, 0, credit(t1[0], winner));
        assert(same_links(t, t2));
    } else {
        if occurrences(ch0, e) > 0 {
            lemma_occurrence_listed(ch0, e);
            let k = choose|k: int| 0 <= k < ch0.len() && child_node(#[trigger] ch0[k]) == e;
            assert(t[child_node(t[0].children[k])].parent == Some(NodeId(0usize)));
        }
        assert(backprop(t, e, winner) == backprop(t1, p, winner));
        lemma_backprop_one_root_child(t1, p, winner);
        assert(t1[0].children == ch0);
        let b = backprop(t1, p, winner);
        assert forall|j: int| 0 <= j < t.len() implies (#[trigger] b[j]).parent == t[j].parent
            && b[j].children == t[j].children by {
            assert(t1[j].parent == t[j].parent);
        }
    }
}

proof fn lemma_occurrences_push<A>(children: Seq<(A, NodeId)>, e: (A, NodeId), x: int)
    ensures
        occurrences(children.push(e), x) == occurrences(children, x) + if child_node(e) == x {
            1nat
        } else {
            0nat
        },
{
    assert(children.push(e).drop_last() =~= children);
}

proof fn lemma_expand_links<G: Game>(t: Seq<NodeView<G::Action, G::Player>>, states: Seq<G>, j: int)
    requires
        tree_wf(t, states),
        links_agree(t),
        0 <= j < t.len(),
        t.len() < usize::MAX,
    ensures
        links_agree(expand(t, states, j).0),
        expand(t, states, j).0[0].visits == t[0].visits,
        children_visits(expand(t, states, j).0, expand(t, states, j).0[0].children)
            == children_visits(t, t[0].children),
{
    let (t1, s1, e) = expand(t, states, j);
    let n = t[j];
    if !(n.terminal || n.untried.len() == 0) {
        let a = n.untried.last();
        let id = t.len() as int;
        let u = t1[j];
        assert(u.children == n.children.push((a, NodeId(id as usize))));
        assert(t1[0].parent == t[0].parent);
        assert forall|x: int| 0 < x < t1.len() implies (#[trigger] t1[x].parent matches Some(p)
            && (p.0 as int) < x) by {
            if x < id {
                assert(t1[x].parent == t[x].parent);
                assert(t[x].parent matches Some(p) && (p.0 as int) < x);
            }
        }
        assert forall|i: int, k: int| 0 <= i < t1.len() && 0 <= k < t1[i].children.len() implies {
            let c = child_node(#[trigger] t1[i].children[k]);
            &&& i < c < t1.len()
            &&& t1[c].parent == Some(NodeId(i as usize))
        } by {
            if i == j && k == n.children.len() {
            } else if i < id {
                assert(t1[i].children[k] == t[i].children[k]);
                let c = child_node(t[i].children[k]);
                assert(i < c < t.len());
                assert(t1[c].parent == t[c].parent);
            }
        }
        assert forall|x: int| 0 < x < t1.len() implies occurrences(
            t1[(#[trigger] t1[x].parent).unwrap().0 as int].children,
            x,
        ) == 1 by {
            lemma_occurrences_push(n.children, (a, NodeId(id as usize)), x);
            if x == id {
                if occurrences(n.children, x) > 0 {
                    lemma_occurrence_listed(n.children, x);
                    let k = choose|k: int|
                        0 <= k < n.children.len() && child_node(#[trigger] n.children[k]) == x;
                    assert(child_node(t[j].children[k]) < t.len());
                }
            } else {
                assert(t1[x].parent == t[x].parent);
                assert(t[x].parent matches Some(p) && (p.0 as int) < x);
                let p = t[x].parent.unwrap().0 as int;
                if p != j {
                    assert(t1[p] == t[p]);
                }
            }
        }
        let ch0 = t[0].children;
        assert forall|k: int| 0 <= k < ch0.len() implies t1[child_node(#[trigger] ch0[k])].visits
            == t[child_node(ch0[k])].visits by {
            assert(0 < child_node(t[0].children[k]) < t.len());
        }
        lemma_children_visits_same(t, t1, ch0);
        if j == 0 {
            assert(t1[0].children.drop_last() =~= ch0);
            assert(t1[child_node(t1[0].children.last())].visits == 0);
        }
    }
}

/// When the root is not terminal, an iteration never expands the root
/// itself: it leaves it through one of its children.
proof fn lemma_expanded_below_root<G: Game>(
    t: Seq<NodeView<G::Action, G::Player>>,
    states: Seq<G>,
    c: nat,
)
    requires
        tree_wf(t, states),
        !t[0].terminal,
        t.len() < usize::MAX,
    ensures
        expand(t, states, descend(t, c, 0).1).2 != 0,
{
    lemma_descend_in_tree(t, c, 0);
    assert(node_wf(t, states, 0));
    if t[0].untried.len() == 0 {
        let g = states[0];
        let a = g.legal_actions()[0];
        assert(g.legal_actions().contains(a));
        assert(has_child_by(t[0].children, a));
        lemma_best_among_bound(t, t[0].children, true, c, t[0].visits, t[0].children.len());
        let b = ucb_choice(t, c, 0).unwrap();
        let next = child_node(t[0].children[b]);
        assert(0 < next < t.len());
        lemma_descend_in_tree(t, c, next);
    }
}

/// Once the tree has been grown from a state that is not over, the root's
/// visits are exactly the visits of its children added up: every iteration
/// leaves the root through one child.
pub proof fn lemma_root_visits_split<G: Game>(g: G, c: nat, winners: Seq<Option<G::Player>>)
    requires
        winners.len() < usize::MAX,
    ensures
        links_agree(grown(g, c, winners).0),
        grown(g, c, winners).1[0] == g,
        !is_over(&g) ==> grown(g, c, winners).0[0].visits == children_visits(
            grown(g, c, winners).0,
            grown(g, c, winners).0[0].children,
        ),
    decreases winners.len(),
{
    lemma_grown_wf(g, c, winners);
    if winners.len() > 0 {
        let prev = winners.drop_last();
        lemma_root_visits_split(g, c, prev);
        lemma_grown_wf(g, c, prev);
        let (t, st) = grown(g, c, prev);
        let m = prev.len();
        lemma_descend_in_tree(t, c, 0);
        let leaf = descend(t, c, 0).1;
        lemma_expand_wf(t, st, leaf, m);
        lemma_expand_links(t, st, leaf);
        let (t1, s1, e) = expand(t, st, leaf);
        lemma_backprop_wf(t1, s1, e, winners.last(), m);
        lemma_backprop_shape(t1, e, winners.last());
        let b = backprop(t1, e, winners.last());
        assert(node_wf(t, st, 0));
        if !is_over(&g) {
            lemma_expanded_below_root(t, st, c);
            lemma_backprop_one_root_child(t1, e, winners.last());
            assert(b[0].children == t1[0].children);
        } else {
            assert(same_links(t1, b)) by {
                assert forall|j: int| 0 <= j < t1.len() implies (#[trigger] b[j]).parent
                    == t1[j].parent && b[j].children == t1[j].children by {
                    assert(b[j] == t1[j] || b[j] == credit(t1[j], winners.last()));
                }
            }
        }
        lemma_same_links(t1, b);
    }
}

/// A child's value for its parent's mover is one minus the child's own
/// win rate: with `r = own_rate_num / rate_den`, in `[0, 1]`, the final
/// choice ranks a child by `1 - r` and selection by `1 - r` plus the
/// exploration term, both in fixed point.
pub proof fn lemma_perspective_inversion<A, P>(c: nat, parent_visits: nat, n: NodeView<A, P>)
    requires
        n.visits > 0,
        -n.visits <= n.score <= n.visits,
    ensures
        0 <= own_rate_num(n.score, n.visits) <= rate_den(n.visits),
        parent_rate_num(n.score, n.visits) == rate_den(n.visits) - own_rate_num(n.score, n.visits),
        rate_rank(n) == Some(
            (rate_den(n.visits) - own_rate_num(n.score, n.visits)) * ONE / rate_den(n.visits),
        ),
        ucb_rank(c, parent_visits, n) == Some(
            (rate_den(n.visits) - own_rate_num(n.score, n.visits)) * ONE / rate_den(n.visits)
                + exploration_term(c, parent_visits, n.visits),
        ),
{
}

/// The arena of nodes of one search, with the game state of each node kept
/// as ghost data.
pub struct SearchTree<G: Game> {
    nodes: Vec<Node<G::Action, G::Player>>,
    states: Ghost<Seq<G>>,
}

impl<G: Game> SearchTree<G> {
    pub closed spec fn view(&self) -> Seq<NodeView<G::Action, G::Player>> {
        self.nodes@.map_values(|n: Node<G::Action, G::Player>| n@)
    }

    /// The game state of each node.
    pub closed spec fn states(&self) -> Seq<G> {
        self.states@
    }

    pub open spec fn wf(&self) -> bool {
        tree_wf(self.view(), self.states())
    }

    /// A tree that holds the root alone, made from `game`.
    pub fn new(game: &G) -> (r: SearchTree<G>)
        ensures
            r.view() == seq![fresh_node(*game, None)],
            r.states() == seq![*game],
            r.wf(),
    {
        let mut tree = SearchTree { nodes: Vec::new(), states: Ghost(Seq::empty()) };
        tree.create(game, None);
        proof {
            assert(tree.view() =~= seq![fresh_node(*game, None)]);
            game.lemma_actions_distinct();
            assert(node_wf(tree.view(), tree.states(), 0));
        }
        tree
    }

    /// The number of nodes.
    pub fn len(&self) -> (r: usize)
        ensures
            r == self.view().len(),
    {
        self.nodes.len()
    }

    /// The node with identifier `id`.
    pub fn node(&self, id: NodeId) -> (r: &Node<G::Action, G::Player>)
        requires
            id.0 < self.view().len(),
        ensures
            r@ == self.view()[id.0 as int],
    {
        &self.nodes[id.0]
    }

    /// Adds the node made from `game` under `parent` and returns its
    /// identifier, the next unused index.
    pub fn create(&mut self, game: &G, parent: Option<NodeId>) -> (r: NodeId)
        ensures
            final(self).view() == old(self).view().push(fresh_node(*game, parent)),
            final(self).states() == old(self).states().push(*game),
            r.0 == old(self).view().len(),
    {
        let available_moves = game.get_available_moves();
        let node = Node {
            visits: 0,
            score: 0,
            to_play: game.current_player(),
            parent,
            children: Vec::new(),
            untried_actions: available_moves,
            terminal: game.done(),
        };
        let node_id = NodeId::new(self.nodes.len());
        self.nodes.push(node);
        self.states = Ghost(self.states@.push(*game));
        proof {
            assert(self.view() =~= old(self).view().push(fresh_node(*game, parent)));
        }
        node_id
    }

    /// Removes and returns the last untried action of node `id`.
    pub fn take_untried(&mut self, id: NodeId) -> (r: Option<G::Action>)
        requires
            id.0 < old(self).view().len(),
        ensures
            final(self).states() == old(self).states(),
            ({
                let n = old(self).view()[id.0 as int];
                if n.untried.len() == 0 {
                    r is None && final(self).view() == old(self).view()
                } else {
                    r == Some(n.untried.last()) && final(self).view() == old(self).view().update(
                        id.0 as int,
                        NodeView { untried: n.untried.drop_last(), ..n },
                    )
                }
            }),
    {
        let r = self.nodes[id.0].untried_actions.pop();
        proof {
            let n = old(self).view()[id.0 as int];
            if n.untried.len() > 0 {
                assert(self.view() =~= old(self).view().update(
                    id.0 as int,
                    NodeView { untried: n.untried.drop_last(), ..n },
                ));
            } else {
                assert(self.view() =~= old(self).view());
            }
        }
        r
    }

    /// Records `child` as the node reached from node `id` by `action`.
    pub fn link_child(&mut self, id: NodeId, action: G::Action, child: NodeId)
        requires
            id.0 < old(self).view().len(),
        ensures
            final(self).states() == old(self).states(),
            final(self).view() == old(self).view().update(
                id.0 as int,
                NodeView {
                    children: old(self).view()[id.0 as int].children.push((action, child)),
                    ..old(self).view()[id.0 as int]
                },
            ),
    {
        self.nodes[id.0].children.push((action, child));
        proof {
            let n = old(self).view()[id.0 as int];
            assert(self.view() =~= old(self).view().update(
                id.0 as int,
                NodeView { children: n.children.push((action, child)), ..n },
            ));
        }
    }

    /// Adds one simulation that ended with `winner` to the statistics of
    /// node `id`.
    pub fn credit(&mut self, id: NodeId, winner: Option<G::Player>)
        requires
            id.0 < old(self).view().len(),
            old(self).view()[id.0 as int].visits < i64::MAX,
            -old(self).view()[id.0 as int].visits <= old(self).view()[id.0 as int].score
                <= old(self).view()[id.0 as int].visits,
        ensures
            final(self).states() == old(self).states(),
            final(self).view() == old(self).view().update(
                id.0 as int,
                credit(old(self).view()[id.0 as int], winner),
            ),
    {
        let node = &mut self.nodes[id.0];
        node.visits = node.visits + 1;
        if let Some(w) = winner {
            if G::same_player(w, node.to_play) {
                node.score = node.score + 1;
            } else {
                node.score = node.score - 1;
            }
        }
        proof {
            let n = old(self).view()[id.0 as int];
            assert(self.view() =~= old(self).view().update(id.0 as int, credit(n, winner)));
        }
    }
}

} // verus!
