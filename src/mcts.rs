//! The search engine: selection, expansion, simulation and backpropagation
//! over a `SearchTree`, and the choice of the recommended action.
use vstd::prelude::*;
use crate::game::{Game, first_playout, is_over, legal_path, playout, replay};
use crate::tree::{
    NodeId, NodeView, SearchTree, backprop, best_among, child_node, children_visits, credit,
    descend, expand, expanded_state, first_grown, fresh_node, grown, iterate, node_wf, outranks,
    rate_rank, recommended, tree_wf, ucb_choice, ucb_rank, visits_at_most,
};
use crate::ucb::{SQRT_2, exploration_term_of, parent_rate_fixed_of};

verus! {

/// A source of choices for the simulation phase.
pub trait Chooser {
    /// The position that `pick` returns among `len` candidates, where the
    /// chooser fixes it; none where it is left to chance.
    spec fn rule(&self, len: nat) -> Option<nat>;

    /// A position in `0..len`.
    fn pick(&mut self, len: usize) -> (r: usize)
        requires
            len > 0,
        ensures
            r < len,
            old(self).rule(len as nat) matches Some(p) ==> r == p,
            forall|l: nat| #[trigger] final(self).rule(l) == old(self).rule(l),
    ;
}

/// The chooser always picks the first candidate.
pub open spec fn always_first<C: Chooser>(ch: C) -> bool {
    forall|l: nat| #[trigger] ch.rule(l) == Some(0nat)
}

/// `picks` is a playout from `g` that `ch` could make: each pick is taken in
/// a state that is not over, is a position among its legal actions, and is
/// the one that `ch` fixes, if it fixes one.
pub open spec fn is_rollout<G: Game, C: Chooser>(ch: C, g: G, picks: Seq<int>) -> bool
    decreases picks.len(),
{
    if picks.len() == 0 {
        true
    } else {
        let n = g.legal_actions().len();
        &&& !is_over(&g)
        &&& 0 <= picks[0] < n
        &&& (ch.rule(n) matches Some(p) ==> picks[0] == p)
        &&& is_rollout(ch, g.after(g.legal_actions()[picks[0]]), picks.drop_first())
    }
}

/// `w` is the winner of a complete playout from `g` that `ch` could make.
pub open spec fn rollout_outcome<G: Game, C: Chooser>(ch: C, g: G, w: Option<G::Player>) -> bool {
    exists|picks: Seq<int>|
        #[trigger] is_rollout(ch, g, picks) && is_over(&playout(g, picks)) && w == playout(
            g,
            picks,
        ).winner()
}

proof fn lemma_rollout_extend<G: Game, C: Chooser>(ch: C, g: G, picks: Seq<int>, p: int)
    requires
        is_rollout(ch, g, picks),
        !is_over(&playout(g, picks)),
        0 <= p < playout(g, picks).legal_actions().len(),
        ch.rule(playout(g, picks).legal_actions().len()) matches Some(q) ==> p == q,
    ensures
        is_rollout(ch, g, picks.push(p)),
        playout(g, picks.push(p)) == playout(g, picks).after(
            playout(g, picks).legal_actions()[p],
        ),
    decreases picks.len(),
{
    let ext = picks.push(p);
    if picks.len() == 0 {
        assert(ext.drop_first() =~= Seq::<int>::empty());
        assert(ext[0] == p);
        let next = g.after(g.legal_actions()[p]);
        assert(playout(next, ext.drop_first()) == next);
        assert(is_rollout(ch, next, ext.drop_first()));
    } else {
        let next = g.after(g.legal_actions()[picks[0]]);
        assert(ext.drop_first() =~= picks.drop_first().push(p));
        assert(ext[0] == picks[0]);
        lemma_rollout_extend(ch, next, picks.drop_first(), p);
    }
}

/// Whether a sequence of picks is a rollout depends on the chooser's rule
/// alone.
proof fn lemma_rollout_same_rule<G: Game, C: Chooser>(a: C, b: C, g: G, picks: Seq<int>)
    requires
        forall|l: nat| #[trigger] a.rule(l) == b.rule(l),
    ensures
        is_rollout(a, g, picks) == is_rollout(b, g, picks),
    decreases picks.len(),
{
    if picks.len() > 0 {
        assert(a.rule(g.legal_actions().len()) == b.rule(g.legal_actions().len()));
        lemma_rollout_same_rule(a, b, g.after(g.legal_actions()[picks[0]]), picks.drop_first());
    }
}

/// Each of `winners` is the outcome of a complete rollout of `ch` from the
/// state that its iteration expanded, when growing the tree from `g`.
pub open spec fn outcomes_fit<G: Game, C: Chooser>(
    ch: C,
    g: G,
    c: nat,
    winners: Seq<Option<G::Player>>,
) -> bool
    decreases winners.len(),
{
    if winners.len() == 0 {
        true
    } else {
        let (t, s) = grown(g, c, winners.drop_last());
        &&& outcomes_fit(ch, g, c, winners.drop_last())
        &&& rollout_outcome(ch, expanded_state(t, s, c), winners.last())
    }
}

/// A complete rollout of a chooser that always picks the first candidate
/// ends where the first-action playout ends.
proof fn lemma_first_rollout<G: Game, C: Chooser>(ch: C, g: G, picks: Seq<int>)
    requires
        always_first(ch),
        is_rollout(ch, g, picks),
        is_over(&playout(g, picks)),
    ensures
        playout(g, picks) == first_playout(g),
    decreases picks.len(),
{
    if picks.len() > 0 {
        assert(ch.rule(g.legal_actions().len()) == Some(0nat));
        let next = g.after(g.legal_actions()[0]);
        g.lemma_after_shrinks(g.legal_actions()[0]);
        lemma_first_rollout(ch, next, picks.drop_first());
    }
}

/// Relies on rand's `IteratorRandom::choose` over the range `0..len`, fed by
/// `rand::thread_rng()`: for a range of exact size it yields `None` when the
/// range is empty and otherwise the element at a uniformly drawn position.
/// (`thread_rng` panics only if the operating system cannot seed it.)
#[verifier::external_body]
fn random_index(len: usize) -> (r: Option<usize>)
    ensures
        r is None <==> len == 0,
        r matches Some(i) ==> i < len,
{
    rand::seq::IteratorRandom::choose(0..len, &mut rand::thread_rng())
}

/// Picks uniformly at random.
pub struct RandomChooser;

impl Chooser for RandomChooser {
    open spec fn rule(&self, len: nat) -> Option<nat> {
        None
    }

    fn pick(&mut self, len: usize) -> (r: usize) {
        match random_index(len) {
            Some(i) => i,
            None => 0,
        }
    }
}

/// Always picks the first candidate, which makes a search reproducible.
pub struct FirstChooser;

impl Chooser for FirstChooser {
    open spec fn rule(&self, len: nat) -> Option<nat> {
        Some(0)
    }

    fn pick(&mut self, len: usize) -> (r: usize) {
        0
    }
}

/// Why a search returned no action.
#[derive(Debug, Clone, Copy, PartialEq, Eq, Structural)]
pub enum SearchError {
    /// The game was already over: it has a winner or no legal action.
    GameOver,
}

/// What a search returns when `recommended` is `best`.
pub open spec fn outcome_of<A>(best: Option<A>) -> Result<A, SearchError> {
    match best {
        Some(a) => Ok(a),
        None => Err(SearchError::GameOver),
    }
}

/// A Monte Carlo tree search engine.
pub struct Mcts {
    /// The UCB1 exploration constant in fixed point (see `ucb::ONE`).
    pub exploration: u64,
}

pub open spec fn rank_value(v: Option<u128>) -> Option<int> {
    match v {
        Some(x) => Some(x as int),
        None => None,
    }
}

pub open spec fn position(v: Option<usize>) -> Option<int> {
    match v {
        Some(x) => Some(x as int),
        None => None,
    }
}

fn outranks_value(a: Option<u128>, b: Option<u128>) -> (r: bool)
    ensures
        r == outranks(rank_value(a), rank_value(b)),
{
    match (a, b) {
        (Some(x), Some(y)) => x > y,
        (Some(_), None) => true,
        _ => false,
    }
}

impl Mcts {
    /// An engine with exploration constant sqrt 2.
    pub fn new() -> (r: Mcts)
        ensures
            r.exploration == SQRT_2,
    {
        Mcts { exploration: SQRT_2 }
    }

    /// The position among the children of node `id` that UCB1 selects.
    fn best_child<G: Game>(&self, tree: &SearchTree<G>, id: NodeId) -> (r: Option<usize>)
        requires
            tree.wf(),
            id.0 < tree.view().len(),
        ensures
            position(r) == ucb_choice(tree.view(), self.exploration as nat, id.0 as int),
    {
        let ghost t = tree.view();
        let ghost j = id.0 as int;
        let ghost c = self.exploration as nat;
        proof {
            assert(crate::tree::node_wf(t, tree.states(), j));
        }
        let node = tree.node(id);
        let mut best: Option<usize> = None;
        let mut best_value: Option<u128> = None;
        let mut k: usize = 0;
        while k < node.children.len()
            invariant
                tree.wf(),
                t == tree.view(),
                0 <= j < t.len(),
                node@ == t[j],
                crate::tree::node_wf(t, tree.states(), j),
                k <= node.children.len(),
                c == self.exploration as nat,
                position(best) == best_among(t, t[j].children, true, c, t[j].visits, k as nat),
                best matches Some(b) ==> rank_value(best_value) == ucb_rank(
                    c,
                    t[j].visits,
                    t[child_node(t[j].children[b as int])],
                ),
            decreases node.children.len() - k,
        {
            let child_id = node.children[k].1;
            proof {
                assert(j < child_node(t[j].children[k as int]) < t.len());
                assert(crate::tree::node_wf(t, tree.states(), child_id.0 as int));
            }
            let child = tree.node(child_id);
            let value: Option<u128> = if child.visits == 0 {
                None
            } else {
                Some(
                    parent_rate_fixed_of(child.score, child.visits) as u128 + exploration_term_of(
                        self.exploration,
                        node.visits,
                        child.visits,
                    ),
                )
            };
            proof {
                assert(child@ == t[child_node(t[j].children[k as int])]);
                assert(rank_value(value) == ucb_rank(
                    c,
                    t[j].visits,
                    t[child_node(t[j].children[k as int])],
                ));
            }
            let replace = match best {
                None => true,
                Some(_) => outranks_value(value, best_value),
            };
            if replace {
                best = Some(k);
                best_value = value;
            }
            k = k + 1;
        }
        best
    }

    /// Selection: descends from the root by UCB1 while the node is not
    /// terminal and has no untried action; returns the actions taken and the
    /// node reached.
    pub fn selection<G: Game>(&self, tree: &SearchTree<G>) -> (r: (Vec<G::Action>, NodeId))
        requires
            tree.wf(),
        ensures
            r.0@ == descend(tree.view(), self.exploration as nat, 0).0,
            r.1.0 == descend(tree.view(), self.exploration as nat, 0).1,
            r.1.0 < tree.view().len(),
            legal_path(tree.states()[0], r.0@),
            tree.states()[r.1.0 as int] == replay(tree.states()[0], r.0@),
    {
        let ghost t = tree.view();
        let ghost c = self.exploration as nat;
        let ghost g0 = tree.states()[0];
        let mut node_id = NodeId::new(0);
        let mut path: Vec<G::Action> = Vec::new();
        proof {
            assert(path@ + descend(t, c, 0).0 =~= descend(t, c, 0).0);
            assert(replay(g0, path@) == g0);
        }
        loop
            invariant
                tree.wf(),
                t == tree.view(),
                c == self.exploration as nat,
                g0 == tree.states()[0],
                node_id.0 < t.len(),
                descend(t, c, 0) == (path@ + descend(t, c, node_id.0 as int).0, descend(
                    t,
                    c,
                    node_id.0 as int,
                ).1),
                legal_path(g0, path@),
                tree.states()[node_id.0 as int] == replay(g0, path@),
            decreases t.len() - node_id.0,
        {
            let ghost j = node_id.0 as int;
            let node = tree.node(node_id);
            proof {
                assert(node@ == t[j]);
            }
            if node.terminal || node.untried_actions.len() > 0 {
                proof {
                    assert(descend(t, c, j) == (Seq::<G::Action>::empty(), j));
                    assert(path@ + seq![] =~= path@);
                }
                return (path, node_id);
            }
            let choice = self.best_child(tree, node_id);
            proof {
                crate::tree::lemma_best_among_bound(
                    t,
                    t[j].children,
                    true,
                    c,
                    t[j].visits,
                    t[j].children.len(),
                );
            }
            match choice {
                Some(b) => {
                    proof {
                        assert(crate::tree::node_wf(t, tree.states(), j));
                    }
                    let action = G::copy_action(&node.children[b].0);
                    let next = node.children[b].1;
                    proof {
                        assert(ucb_choice(t, c, j) == Some(b as int));
                        assert(j < next.0 < t.len());
                        assert(descend(t, c, j) == (seq![action] + descend(t, c, next.0 as int).0,
                            descend(t, c, next.0 as int).1));
                        let rest = descend(t, c, next.0 as int);
                        assert(path@.push(action) + rest.0 =~= path@ + (seq![action] + rest.0));
                        assert(path@.push(action).drop_last() =~= path@);
                        let extended = path@.push(action);
                        assert forall|i: int| 0 <= i < extended.len() implies #[trigger] replay(
                            g0,
                            extended.take(i),
                        ).legal_actions().contains(extended[i]) by {
                            if i < path@.len() {
                                assert(extended.take(i) =~= path@.take(i));
                                assert(replay(g0, path@.take(i)).legal_actions().contains(
                                    path@[i],
                                ));
                            } else {
                                assert(extended.take(i) =~= path@);
                            }
                        }
                    }
                    path.push(action);
                    node_id = next;
                },
                None => {
                    proof {
                        assert(ucb_choice(t, c, j) is None);
                        assert(descend(t, c, j) == (Seq::<G::Action>::empty(), j));
                        assert(path@ + seq![] =~= path@);
                    }
                    return (path, node_id);
                },
            }
        }
    }

    /// Plays `actions` on `game`, one after another.
    pub fn apply_actions<G: Game>(&self, game: &mut G, actions: Vec<G::Action>)
        requires
            legal_path(*old(game), actions@),
        ensures
            *final(game) == replay(*old(game), actions@),
    {
        let ghost g0 = *game;
        let mut i: usize = 0;
        proof {
            assert(actions@.take(0) =~= Seq::<G::Action>::empty());
        }
        while i < actions.len()
            invariant
                i <= actions@.len(),
                legal_path(g0, actions@),
                *game == replay(g0, actions@.take(i as int)),
            decreases actions.len() - i,
        {
            let action = G::copy_action(&actions[i]);
            proof {
                assert(replay(g0, actions@.take(i as int)).legal_actions().contains(actions@[i as int]));
            }
            let outcome = game.step(action);
            assert(outcome is Ok);
            proof {
                assert(actions@.take(i + 1).drop_last() =~= actions@.take(i as int));
            }
            i = i + 1;
        }
        proof {
            assert(actions@.take(i as int) =~= actions@);
        }
    }

    /// Expansion: unless node `id` is terminal or has no untried action, its
    /// last untried action is played on `game`, the state of that node, and
    /// the node reached is added as its child.  Returns the expanded node,
    /// whose state `game` then is.
    pub fn expansion<G: Game>(&self, tree: &mut SearchTree<G>, id: NodeId, game: &mut G) -> (r: NodeId)
        requires
            old(tree).wf(),
            id.0 < old(tree).view().len(),
            old(tree).view().len() < usize::MAX,
            *old(game) == old(tree).states()[id.0 as int],
        ensures
            (final(tree).view(), final(tree).states(), r.0 as int) == expand(
                old(tree).view(),
                old(tree).states(),
                id.0 as int,
            ),
            *final(game) == final(tree).states()[r.0 as int],
    {
        let ghost t = tree.view();
        let ghost s0 = tree.states();
        proof {
            assert(node_wf(t, s0, id.0 as int));
        }
        if tree.node(id).terminal {
            return id;
        }
        match tree.take_untried(id) {
            None => id,
            Some(action) => {
                proof {
                    assert(t[id.0 as int].untried.contains(action));
                }
                let outcome = game.step(G::copy_action(&action));
                assert(outcome is Ok);
                let child = tree.create(game, Some(id));
                tree.link_child(id, action, child);
                proof {
                    let n = t[id.0 as int];
                    let updated = NodeView {
                        untried: n.untried.drop_last(),
                        children: n.children.push((action, NodeId(t.len() as usize))),
                        ..n
                    };
                    assert(tree.view() =~= t.update(id.0 as int, updated).push(
                        fresh_node(s0[id.0 as int].after(action), Some(NodeId(id.0))),
                    ));
                }
                child
            },
        }
    }

    /// Simulation: from `game`, plays the action at the position `chooser`
    /// picks among the legal ones until the game is over, and returns the
    /// winner.  A game that is already over is returned as it is.
    pub fn simulation<G: Game, C: Chooser>(&self, game: &mut G, chooser: &mut C) -> (r: Option<
        G::Player,
    >)
        ensures
            exists|picks: Seq<int>|
                {
                    &&& #[trigger] is_rollout(*old(chooser), *old(game), picks)
                    &&& playout(*old(game), picks) == *final(game)
                },
            is_over(final(game)),
            r == final(game).winner(),
            always_first(*old(chooser)) ==> *final(game) == first_playout(*old(game)),
            forall|l: nat| #[trigger] final(chooser).rule(l) == old(chooser).rule(l),
    {
        let ghost g0 = *game;
        let ghost mut picks: Seq<int> = Seq::empty();
        loop
            invariant
                g0 == *old(game),
                forall|l: nat| #[trigger] chooser.rule(l) == old(chooser).rule(l),
                is_rollout(*old(chooser), g0, picks),
                playout(g0, picks) == *game,
            decreases game.horizon(),
        {
            if let Some(winner) = game.check_winner() {
                proof {
                    if always_first(*old(chooser)) {
                        lemma_first_rollout(*old(chooser), g0, picks);
                    }
                }
                return Some(winner);
            }
            let available_moves = game.get_available_moves();
            if available_moves.len() == 0 {
                proof {
                    if always_first(*old(chooser)) {
                        lemma_first_rollout(*old(chooser), g0, picks);
                    }
                }
                return None;
            }
            let ghost before = *chooser;
            let i = chooser.pick(available_moves.len());
            let action = G::copy_action(&available_moves[i]);
            proof {
                assert(before.rule(available_moves@.len()) == old(chooser).rule(
                    available_moves@.len(),
                ));
                lemma_rollout_extend(*old(chooser), g0, picks, i as int);
                picks = picks.push(i as int);
                assert(game.legal_actions().contains(action));
                game.lemma_after_shrinks(action);
            }
            let outcome = game.step(action);
            assert(outcome is Ok);
        }
    }

    /// Backpropagation: node `id` and each of its ancestors record one more
    /// simulation, which ended with `winner`.
    fn backpropagation<G: Game>(
        &self,
        tree: &mut SearchTree<G>,
        id: NodeId,
        winner: Option<G::Player>,
        Ghost(bound): Ghost<nat>,
    )
        requires
            old(tree).wf(),
            id.0 < old(tree).view().len(),
            visits_at_most(old(tree).view(), bound),
            bound < i64::MAX,
        ensures
            final(tree).view() == backprop(old(tree).view(), id.0 as int, winner),
            final(tree).states() == old(tree).states(),
    {
        let ghost t = tree.view();
        let ghost s0 = tree.states();
        let mut current = id;
        loop
            invariant
                t == old(tree).view(),
                s0 == old(tree).states(),
                tree.states() == s0,
                tree.view().len() == t.len(),
                tree_wf(t, s0),
                visits_at_most(t, bound),
                bound < i64::MAX,
                current.0 < t.len(),
                forall|j: int| 0 <= j <= current.0 ==> #[trigger] tree.view()[j] == t[j],
                backprop(t, id.0 as int, winner) == backprop(tree.view(), current.0 as int, winner),
            decreases current.0,
        {
            let ghost before = tree.view();
            let ghost k = current.0 as int;
            proof {
                assert(node_wf(t, s0, k));
                assert(t[k].visits <= bound);
                assert(before[k] == t[k]);
            }
            tree.credit(current, winner);
            match tree.node(current).parent {
                Some(p) => {
                    proof {
                        assert(before[k] == t[k]);
                    }
                    current = p;
                },
                None => {
                    return;
                },
            }
        }
    }

    /// The action recommended from the root: the one whose child has the
    /// best parent-perspective win rate, the earliest among equals; a
    /// visited child is always preferred to an unvisited one.
    pub fn best_action<G: Game>(&self, tree: &SearchTree<G>) -> (r: Option<G::Action>)
        requires
            tree.wf(),
        ensures
            r == recommended(tree.view()),
    {
        let ghost t = tree.view();
        let root = tree.node(NodeId::new(0));
        let mut best: Option<usize> = None;
        let mut best_value: Option<u128> = None;
        let mut k: usize = 0;
        proof {
            assert(node_wf(t, tree.states(), 0));
        }
        while k < root.children.len()
            invariant
                tree.wf(),
                t == tree.view(),
                root@ == t[0],
                node_wf(t, tree.states(), 0),
                k <= root.children.len(),
                position(best) == best_among(t, t[0].children, false, 0, 0, k as nat),
                best matches Some(b) ==> rank_value(best_value) == rate_rank(
                    t[child_node(t[0].children[b as int])],
                ),
            decreases root.children.len() - k,
        {
            let child_id = root.children[k].1;
            proof {
                assert(0 < child_node(t[0].children[k as int]) < t.len());
                assert(node_wf(t, tree.states(), child_id.0 as int));
            }
            let child = tree.node(child_id);
            let value: Option<u128> = if child.visits == 0 {
                None
            } else {
                Some(parent_rate_fixed_of(child.score, child.visits) as u128)
            };
            proof {
                assert(child@ == t[child_node(t[0].children[k as int])]);
            }
            let replace = match best {
                None => true,
                Some(_) => outranks_value(value, best_value),
            };
            if replace {
                best = Some(k);
                best_value = value;
            }
            k = k + 1;
        }
        proof {
            crate::tree::lemma_best_among_bound(t, t[0].children, false, 0, 0, t[0].children.len());
        }
        match best {
            Some(b) => Some(G::copy_action(&root.children[b].0)),
            None => None,
        }
    }

    /// Runs `iterations` search iterations from `game` and returns the tree
    /// they grew: the one grown by the simulation outcomes that came up, one
    /// per iteration, each the winner of a complete rollout by `chooser` from
    /// the state that its iteration expanded.  With a chooser that always
    /// picks the first candidate the tree is fixed by `game` and
    /// `iterations` alone.
    pub fn grow_tree<G: Game, C: Chooser>(
        &self,
        game: &G,
        iterations: usize,
        chooser: &mut C,
    ) -> (r: SearchTree<G>)
        requires
            iterations <= i64::MAX,
            iterations < usize::MAX,
        ensures
            r.wf(),
            r.view()[0].visits == iterations,
            r.states()[0] == *game,
            exists|winners: Seq<Option<G::Player>>|
                winners.len() == iterations && #[trigger] grown(
                    *game,
                    self.exploration as nat,
                    winners,
                ) == (r.view(), r.states()) && outcomes_fit(
                    *old(chooser),
                    *game,
                    self.exploration as nat,
                    winners,
                ),
            always_first(*old(chooser)) ==> (r.view(), r.states()) == first_grown(
                *game,
                self.exploration as nat,
                iterations as nat,
            ),
            is_over(game) ==> r.view()[0].children.len() == 0,
            iterations > 0 && !is_over(game) ==> r.view()[0].children.len() > 0,
            !is_over(game) ==> r.view()[0].visits == children_visits(
                r.view(),
                r.view()[0].children,
            ),
    {
        let ghost c = self.exploration as nat;
        let mut tree = SearchTree::new(game);
        let ghost mut winners: Seq<Option<G::Player>> = Seq::empty();
        let mut i: usize = 0;
        while i < iterations
            invariant
                c == self.exploration as nat,
                iterations <= i64::MAX,
                iterations < usize::MAX,
                i <= iterations,
                tree.wf(),
                tree.states()[0] == *game,
                tree.view()[0].visits == i,
                visits_at_most(tree.view(), i as nat),
                tree.view().len() <= i + 1,
                winners.len() == i,
                grown(*game, c, winners) == (tree.view(), tree.states()),
                forall|l: nat| #[trigger] chooser.rule(l) == old(chooser).rule(l),
                outcomes_fit(*old(chooser), *game, c, winners),
                always_first(*old(chooser)) ==> first_grown(*game, c, i as nat) == grown(
                    *game,
                    c,
                    winners,
                ),
                i == 0 ==> tree.view() == seq![fresh_node(*game, None)],
                i > 0 && !is_over(game) ==> tree.view()[0].children.len() > 0,
            decreases iterations - i,
        {
            let ghost t0 = tree.view();
            let ghost s0 = tree.states();
            let (path, leaf) = self.selection(&tree);
            let mut state = game.duplicate();
            self.apply_actions(&mut state, path);
            proof {
                crate::tree::lemma_expand_wf(t0, s0, leaf.0 as int, i as nat);
            }
            let expanded = self.expansion(&mut tree, leaf, &mut state);
            let ghost t1 = tree.view();
            let ghost start = state;
            let ghost ch_before = *chooser;
            let winner = self.simulation(&mut state, chooser);
            proof {
                assert(start == expanded_state(t0, s0, c));
                let picks = choose|picks: Seq<int>|
                    #[trigger] is_rollout(ch_before, start, picks) && playout(start, picks)
                        == state;
                lemma_rollout_same_rule(ch_before, *old(chooser), start, picks);
                assert(is_rollout(*old(chooser), start, picks));
                assert(rollout_outcome(*old(chooser), start, winner));
                if always_first(*old(chooser)) {
                    lemma_first_rollout(*old(chooser), start, picks);
                }
                crate::tree::lemma_backprop_wf(t1, tree.states(), expanded.0 as int, winner, i as nat);
                crate::tree::lemma_backprop_shape(t1, expanded.0 as int, winner);
            }
            self.backpropagation(&mut tree, expanded, winner, Ghost(i as nat));
            proof {
                let w2 = winners.push(winner);
                assert(w2.drop_last() =~= winners);
                assert(grown(*game, c, w2) == iterate(t0, s0, c, winner));
                assert(outcomes_fit(*old(chooser), *game, c, w2));
                if i == 0 && !is_over(game) {
                    assert(node_wf(t0, s0, 0));
                    assert(t0[0].untried.len() > 0);
                    assert(descend(t0, c, 0).1 == 0);
                    assert(t1[0].children.len() > 0);
                }
                assert(tree.view()[0] == t1[0] || tree.view()[0] == credit(t1[0], winner));
                winners = w2;
            }
            i = i + 1;
        }
        proof {
            assert(node_wf(tree.view(), tree.states(), 0));
            crate::tree::lemma_root_visits_split(*game, c, winners);
        }
        tree
    }

    /// The action recommended after `iterations` search iterations from
    /// `game`, the simulations playing the positions that `chooser` picks.
    pub fn search_with<G: Game, C: Chooser>(
        &self,
        game: &G,
        iterations: usize,
        chooser: &mut C,
    ) -> (r: Result<G::Action, SearchError>)
        requires
            iterations >= 1,
            iterations <= i64::MAX,
            iterations < usize::MAX,
        ensures
            r is Err <==> is_over(game),
            r matches Ok(a) ==> game.legal_actions().contains(a),
            exists|winners: Seq<Option<G::Player>>|
                winners.len() == iterations && outcomes_fit(
                    *old(chooser),
                    *game,
                    self.exploration as nat,
                    winners,
                ) && r == outcome_of(
                    #[trigger] recommended(grown(*game, self.exploration as nat, winners).0),
                ),
            always_first(*old(chooser)) ==> r == outcome_of(
                recommended(first_grown(*game, self.exploration as nat, iterations as nat).0),
            ),
    {
        let tree = self.grow_tree(game, iterations, chooser);
        let best = self.best_action(&tree);
        proof {
            let t = tree.view();
            crate::tree::lemma_best_among_bound(t, t[0].children, false, 0, 0, t[0].children.len());
            assert(node_wf(t, tree.states(), 0));
            if let Some(b) = best_among(t, t[0].children, false, 0, 0, t[0].children.len()) {
                assert(game.legal_actions().contains(t[0].children[b].0));
            }
            let winners = choose|winners: Seq<Option<G::Player>>|
                winners.len() == iterations && #[trigger] grown(
                    *game,
                    self.exploration as nat,
                    winners,
                ) == (tree.view(), tree.states()) && outcomes_fit(
                    *old(chooser),
                    *game,
                    self.exploration as nat,
                    winners,
                );
            assert(recommended(grown(*game, self.exploration as nat, winners).0) == best);
        }
        match best {
            Some(action) => Ok(action),
            None => Err(SearchError::GameOver),
        }
    }

    /// The action recommended after `iterations` search iterations from
    /// `game`, with simulations that play uniformly at random.
    pub fn search<G: Game>(&self, game: &G, iterations: usize) -> (r: Result<G::Action, SearchError>)
        requires
            iterations >= 1,
            iterations <= i64::MAX,
            iterations < usize::MAX,
        ensures
            r is Err <==> is_over(game),
            r matches Ok(a) ==> game.legal_actions().contains(a),
            exists|winners: Seq<Option<G::Player>>|
                winners.len() == iterations && outcomes_fit(
                    RandomChooser,
                    *game,
                    self.exploration as nat,
                    winners,
                ) && r == outcome_of(
                    #[trigger] recommended(grown(*game, self.exploration as nat, winners).0),
                ),
    {
        let mut chooser = RandomChooser;
        self.search_with(game, iterations, &mut chooser)
    }
}

} // verus!
