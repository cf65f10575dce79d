use vstd::prelude::*;

verus! {

/// The error a game reports when asked to play a move that is not legal in
/// its current state.
#[derive(Debug, Clone, Copy, PartialEq, Eq, Structural)]
pub enum GameError {
    IllegalMove,
}

/// A deterministic, perfect-information, turn-based game, as seen by the
/// search engine.
///
/// The spec functions describe a state mathematically; the exec methods are
/// tied to them by their contracts.
pub trait Game: Sized {
    type Action;

    type Player: Copy;

    /// The legal actions of this state, in the order `get_available_moves`
    /// lists them.
    spec fn legal_actions(&self) -> Seq<Self::Action>;

    /// The player who chooses the next action.
    spec fn mover(&self) -> Self::Player;

    /// The winner, if the game has been decided.
    spec fn winner(&self) -> Option<Self::Player>;

    /// The state reached by playing `action`.
    spec fn after(&self, action: Self::Action) -> Self;

    /// An upper bound on the number of moves that remain to be played.
    spec fn horizon(&self) -> nat;

    /// The reward that `step` reports for playing `action`.
    spec fn reward(&self, action: Self::Action) -> u32;

    /// A legal action brings the end of the game closer.
    proof fn lemma_after_shrinks(&self, action: Self::Action)
        requires
            self.legal_actions().contains(action),
        ensures
            self.after(action).horizon() < self.horizon(),
    ;

    /// Applies `action` in place; fails, leaving the state as it was, exactly
    /// when the action is not legal.  On success the reward is returned.
    fn step(&mut self, action: Self::Action) -> (r: Result<u32, GameError>)
        ensures
            r is Ok <==> old(self).legal_actions().contains(action),
            r is Ok ==> *final(self) == old(self).after(action),
            r is Err ==> *final(self) == *old(self),
            r matches Ok(x) ==> x == old(self).reward(action),
    ;

    fn get_available_moves(&self) -> (r: Vec<Self::Action>)
        ensures
            r@ == self.legal_actions(),
    ;

    /// No action is listed twice.
    proof fn lemma_actions_distinct(&self)
        ensures
            self.legal_actions().no_duplicates(),
    ;

    fn current_player(&self) -> (r: Self::Player)
        ensures
            r == self.mover(),
    ;

    fn done(&self) -> (r: bool)
        ensures
            r == (self.winner() is Some || self.legal_actions().len() == 0),
    ;

    fn check_winner(&self) -> (r: Option<Self::Player>)
        ensures
            r == self.winner(),
    ;

    /// A copy of this state.
    fn duplicate(&self) -> (r: Self)
        ensures
            r == *self,
    ;

    /// A copy of an action.
    fn copy_action(a: &Self::Action) -> (r: Self::Action)
        ensures
            r == *a,
    ;

    /// Whether two players are the same one.
    fn same_player(a: Self::Player, b: Self::Player) -> (r: bool)
        ensures
            r == (a == b),
    ;
}

/// A state is over when it has a winner or no legal action is left.
pub open spec fn is_over<G: Game>(g: &G) -> bool {
    g.winner() is Some || g.legal_actions().len() == 0
}

/// The state reached by playing `path` from `g`, one action after another.
pub open spec fn replay<G: Game>(g: G, path: Seq<G::Action>) -> G
    decreases path.len(),
{
    if path.len() == 0 {
        g
    } else {
        replay(g, path.drop_last()).after(path.last())
    }
}

/// Every action of `path` is legal in the state where it is played.
pub open spec fn legal_path<G: Game>(g: G, path: Seq<G::Action>) -> bool {
    forall|i: int|
        0 <= i < path.len() ==> #[trigger] replay(g, path.take(i)).legal_actions().contains(
            path[i],
        )
}

/// The state reached from `g` by playing, at each step, the action at
/// position `picks[i]` of the legal actions of the state then reached.
pub open spec fn playout<G: Game>(g: G, picks: Seq<int>) -> G
    decreases picks.len(),
{
    if picks.len() == 0 {
        g
    } else {
        playout(g.after(g.legal_actions()[picks[0]]), picks.drop_first())
    }
}

/// The state where the playout from `g` that always plays the first legal
/// action ends: the first state that is over.
pub open spec fn first_playout<G: Game>(g: G) -> G
    decreases g.horizon(),
{
    if is_over(&g) {
        g
    } else {
        let next = g.after(g.legal_actions()[0]);
        if next.horizon() < g.horizon() {
            first_playout(next)
        } else {
            g
        }
    }
}

} // verus!
