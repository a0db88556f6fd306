use vstd::prelude::*;

verus! {

/// The result of a finished game: who won, or that nobody did.
pub trait EndStatus {

}

/// A move. Two moves are the same move when `==` says so.
pub trait Action: Eq + Clone {

}

/// A participant, who values every way a game can end. A value is a whole
/// number of units; what one unit is worth is up to the game.
pub trait Player<E: EndStatus> {
    /// The value this player assigns to `outcome`.
    ///
    /// The body given here leaves the value unspecified; an implementation
    /// that is verified replaces it with its own rule.
    open spec fn spec_reward(&self, outcome: &E) -> i64 {
        arbitrary()
    }

    /// Computes the value this player assigns to `outcome`. The same player
    /// and outcome always give the same value.
    fn reward_when_outcome_is(&self, outcome: &E) -> (reward: i64)
        ensures
            reward == self.spec_reward(outcome),
    ;
}

/// A position of a turn-based game with full information.
///
/// The four `spec_` functions are the rules of the game as mathematics; the
/// four executable methods compute them. The bodies given here leave the
/// rules unspecified; an implementation that is verified replaces them.
pub trait GameState<P, E, A>: Sized where P: Player<E>, E: EndStatus, A: Action {
    /// The player who moves next.
    open spec fn spec_player(&self) -> P {
        arbitrary()
    }

    /// How the game ended, or `None` while it is still running.
    open spec fn spec_end_status(&self) -> Option<E> {
        arbitrary()
    }

    /// The moves open to the player to move, in a fixed order.
    open spec fn spec_possible_actions(&self) -> Seq<A> {
        arbitrary()
    }

    /// The position reached by playing `action` here.
    open spec fn spec_act(&self, action: &A) -> Self {
        arbitrary()
    }

    /// Returns the player who moves next.
    fn player(&self) -> (mover: P)
        ensures
            mover == self.spec_player(),
    ;

    /// Returns how the game ended, or `None` while it is still running.
    fn end_status(&self) -> (outcome: Option<E>)
        ensures
            outcome == self.spec_end_status(),
    ;

    /// Returns the moves open to the player to move, always in the same order.
    fn possible_actions(&self) -> (moves: Vec<A>)
        ensures
            moves@ == self.spec_possible_actions(),
    ;

    /// Returns the position reached by playing `action`, leaving `self` as it is.
    fn act(&self, action: &A) -> (next: Self)
        requires
            self.spec_possible_actions().contains(*action),
        ensures
            next == self.spec_act(action),
    ;
}

/// Scores a child from its statistics; the search descends into the child
/// with the highest score.
pub trait TreePolicy {
    /// The score of a child with win total `wi` over `ni` visits, below a
    /// parent with `np` visits.
    ///
    /// The body given here leaves the score unspecified; an implementation
    /// that is verified replaces it with its own formula.
    open spec fn spec_score(&self, wi: int, ni: nat, np: nat) -> i64 {
        arbitrary()
    }

    /// Computes the score. It is only ever asked about a child that has been
    /// visited, and whose parent has been visited at least as often.
    fn score(&self, wi: i128, ni: u64, np: u64) -> (score: i64)
        requires
            0 < ni <= np,
            ni * i64::MIN <= wi <= ni * i64::MAX,
        ensures
            score == self.spec_score(wi as int, ni as nat, np as nat),
    ;
}

/// Every line of play from `state` reaches an end after at most `depth`
/// moves, and along the way a position offers moves exactly when it is not
/// an end.
pub open spec fn ends_within<P, G, E, A>(state: G, depth: nat) -> bool where
    P: Player<E>,
    G: GameState<P, E, A>,
    E: EndStatus,
    A: Action,

    decreases depth,
{
    let moves = state.spec_possible_actions();
    match state.spec_end_status() {
        Some(_) => moves.len() == 0,
        None => {
            &&& depth > 0
            &&& moves.len() > 0
            &&& forall|i: int|
                0 <= i < moves.len() ==> ends_within::<P, G, E, A>(
                    #[trigger] state.spec_act(&moves[i]),
                    (depth - 1) as nat,
                )
        },
    }
}

/// The game is finite from `state` on: some number of moves bounds every line
/// of play.
pub open spec fn game_ends<P, G, E, A>(state: G) -> bool where
    P: Player<E>,
    G: GameState<P, E, A>,
    E: EndStatus,
    A: Action,
 {
    exists|depth: nat| ends_within::<P, G, E, A>(state, depth)
}

/// The length of the longest line of play from `state`: the least bound on
/// the moves still to come.
pub closed spec fn plies_left<P, G, E, A>(state: G) -> nat where
    P: Player<E>,
    G: GameState<P, E, A>,
    E: EndStatus,
    A: Action,
 {
    choose|depth: nat|
        ends_within::<P, G, E, A>(state, depth) && forall|k: nat|
            k < depth ==> !ends_within::<P, G, E, A>(state, k)
}

proof fn lemma_least_bound<P, G, E, A>(state: G, depth: nat) -> (least: nat) where
    P: Player<E>,
    G: GameState<P, E, A>,
    E: EndStatus,
    A: Action,

    requires
        ends_within::<P, G, E, A>(state, depth),
    ensures
        least <= depth,
        ends_within::<P, G, E, A>(state, least),
        forall|k: nat| k < least ==> !ends_within::<P, G, E, A>(state, k),
    decreases depth,
{
    if exists|k: nat| k < depth && ends_within::<P, G, E, A>(state, k) {
        let k = choose|k: nat| k < depth && ends_within::<P, G, E, A>(state, k);
        lemma_least_bound::<P, G, E, A>(state, k)
    } else {
        depth
    }
}

/// In a finite game `plies_left` is a bound on every line of play, and the
/// least one.
pub proof fn lemma_plies_left<P, G, E, A>(state: G) where
    P: Player<E>,
    G: GameState<P, E, A>,
    E: EndStatus,
    A: Action,

    requires
        game_ends::<P, G, E, A>(state),
    ensures
        ends_within::<P, G, E, A>(state, plies_left::<P, G, E, A>(state)),
        forall|k: nat| k < plies_left::<P, G, E, A>(state) ==> !ends_within::<P, G, E, A>(state, k),
{
    let depth = choose|depth: nat| ends_within::<P, G, E, A>(state, depth);
    let least = lemma_least_bound::<P, G, E, A>(state, depth);
}

/// A running position of a finite game offers a move, and every move leads
/// to a position of a finite game with a shorter longest line of play.
pub proof fn lemma_move_shortens<P, G, E, A>(state: G, i: int) where
    P: Player<E>,
    G: GameState<P, E, A>,
    E: EndStatus,
    A: Action,

    requires
        game_ends::<P, G, E, A>(state),
        0 <= i < state.spec_possible_actions().len(),
    ensures
        state.spec_end_status() is None,
        game_ends::<P, G, E, A>(state.spec_act(&state.spec_possible_actions()[i])),
        plies_left::<P, G, E, A>(state.spec_act(&state.spec_possible_actions()[i])) < plies_left::<
            P,
            G,
            E,
            A,
        >(state),
{
    lemma_plies_left::<P, G, E, A>(state);
    let depth = plies_left::<P, G, E, A>(state);
    let next = state.spec_act(&state.spec_possible_actions()[i]);
    assert(ends_within::<P, G, E, A>(next, (depth - 1) as nat));
    lemma_plies_left::<P, G, E, A>(next);
}

/// In a finite game a position offers moves exactly when it is not an end.
pub proof fn lemma_moves_iff_running<P, G, E, A>(state: G) where
    P: Player<E>,
    G: GameState<P, E, A>,
    E: EndStatus,
    A: Action,

    requires
        game_ends::<P, G, E, A>(state),
    ensures
        state.spec_end_status() is None <==> state.spec_possible_actions().len() > 0,
{
    lemma_plies_left::<P, G, E, A>(state);
}

} // verus!
