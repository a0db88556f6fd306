use crate::choice::{first_max, first_true, lemma_first_max, lemma_first_true};
use crate::game::{
    game_ends, lemma_move_shortens, lemma_moves_iff_running, plies_left, Action, EndStatus,
    GameState, Player, TreePolicy,
};
use std::marker::PhantomData;
use vstd::prelude::*;
use vstd::std_specs::cmp::PartialEqSpec;

verus! {

/// What is added up over the playthroughs that ended below a node: their
/// number, or what one player made of their outcomes.
pub enum Weight<P> {
    /// Every playthrough counts 1.
    Count,
    /// Every playthrough counts what its outcome is worth to this player.
    Reward(P),
}

impl<P> Weight<P> {
    /// What one playthrough that ended in `outcome` adds.
    pub open spec fn of<E>(self, outcome: E) -> int where P: Player<E>, E: EndStatus {
        match self {
            Weight::Count => 1,
            Weight::Reward(player) => player.spec_reward(&outcome) as int,
        }
    }
}

/// A node of the search tree as a mathematical value: a position, the move
/// that led to it, its statistics, and its children in the order of the
/// moves of the position.
pub struct NodeView<P, G, E, A, T> {
    /// The position this node stands for.
    pub state: G,
    /// The move that led here from the parent; `None` only for a node
    /// that was made as a root.
    pub last_action: Option<A>,
    /// The children, empty until the node is expanded.
    pub children: Seq<NodeView<P, G, E, A, T>>,
    /// The sum of the rewards of the playthroughs that went through this node.
    pub wins: int,
    /// The number of playthroughs that went through this node.
    pub visits: nat,
    /// The policy by which this node chooses among its children.
    pub policy: T,
    /// Ties the node to the player and outcome types of its game.
    pub marker: PhantomData<(P, E)>,
}

impl<P, G, E, A, T> NodeView<P, G, E, A, T> where
    P: Player<E>,
    G: GameState<P, E, A>,
    E: EndStatus,
    A: Action,
    T: TreePolicy,
 {
    /// A node without statistics and without children.
    pub open spec fn fresh(state: G, last_action: Option<A>, policy: T) -> Self {
        NodeView {
            state,
            last_action,
            children: Seq::empty(),
            wins: 0,
            visits: 0,
            policy,
            marker: PhantomData,
        }
    }

    /// The player to move at this node.
    pub open spec fn mover(self) -> P {
        self.state.spec_player()
    }

    /// The outcome of the game at this node, if it has ended here.
    pub open spec fn outcome(self) -> Option<E> {
        self.state.spec_end_status()
    }

    /// The moves open at this node.
    pub open spec fn moves(self) -> Seq<A> {
        self.state.spec_possible_actions()
    }

    /// The child that playing `action` at this node creates: it has the
    /// position after the move, no statistics, and this node's policy.
    pub open spec fn child_for(self, action: A) -> Self {
        Self::fresh(self.state.spec_act(&action), Some(action), self.policy)
    }

    /// This node with its children in place: as it is if it has any, else
    /// with one new child for each move, in the order of the moves.
    pub open spec fn expand(self) -> Self {
        if self.children.len() > 0 {
            self
        } else {
            NodeView {
                children: Seq::new(self.moves().len(), |i: int| self.child_for(self.moves()[i])),
                ..self
            }
        }
    }

    /// For each child, whether no playthrough has gone through it yet.
    pub open spec fn unvisited(self) -> Seq<bool> {
        Seq::new(self.children.len(), |i: int| self.children[i].visits == 0)
    }

    /// The visit count of each child.
    pub open spec fn visit_counts(self) -> Seq<int> {
        Seq::new(self.children.len(), |i: int| self.children[i].visits as int)
    }

    /// The score that this node's policy gives each child.
    pub open spec fn scores(self) -> Seq<int> {
        Seq::new(
            self.children.len(),
            |i: int|
                self.policy.spec_score(
                    self.children[i].wins,
                    self.children[i].visits,
                    self.visits,
                ) as int,
        )
    }

    /// The child into which the next playthrough descends: the first one
    /// never visited, or where all have been visited, the first among
    /// those with the highest score.
    pub open spec fn select(self) -> int {
        match first_true(self.unvisited()) {
            Some(i) => i,
            None => first_max(self.scores()),
        }
    }

    /// The first among the children visited most often, if there are children.
    pub open spec fn most_visited(self) -> Option<int> {
        if self.children.len() == 0 {
            None
        } else {
            Some(first_max(self.visit_counts()))
        }
    }

    /// This node after one more playthrough through it ended in `outcome`,
    /// counted for `player`.
    pub open spec fn backpropagate(self, player: P, outcome: E) -> Self {
        NodeView {
            wins: self.wins + player.spec_reward(&outcome),
            visits: self.visits + 1,
            ..self
        }
    }

    /// This node with `child` in place of its `i`-th child.
    pub open spec fn with_child(self, i: int, child: Self) -> Self {
        NodeView { children: self.children.update(i, child), ..self }
    }

    /// One playthrough from this node, counted here for `player`: the node
    /// afterwards, and the outcome that was reached.
    ///
    /// At an end of the game the outcome is counted at once. Elsewhere the
    /// node is expanded, the playthrough goes on in the selected child, where
    /// it is counted for the player to move here, and its outcome is then
    /// counted here. This is said of well-formed nodes of a finite game
    /// only, where every playthrough comes to an end.
    pub open spec fn simulate(self, player: P) -> (Self, E)
        decreases plies_left::<P, G, E, A>(self.state),
        when self.well_formed() && game_ends::<P, G, E, A>(self.state)
    {
        match self.outcome() {
            Some(outcome) => (self.backpropagate(player, outcome), outcome),
            None => {
                let grown = self.expand();
                let i = grown.select();
                proof {
                    self.lemma_selected_child(i);
                }
                let (child, outcome) = grown.children[i].simulate(grown.mover());
                (grown.with_child(i, child).backpropagate(player, outcome), outcome)
            },
        }
    }

    /// This node after `n` playthroughs from it, each counted here for the
    /// player to move.
    pub open spec fn searched(self, n: nat) -> Self
        decreases n,
    {
        if n == 0 {
            self
        } else {
            self.searched((n - 1) as nat).simulate(self.mover()).0
        }
    }

    /// The move to play: the one that leads to the child visited most often.
    pub open spec fn best_action(self) -> Option<A> {
        match self.most_visited() {
            Some(i) => self.children[i].last_action,
            None => None,
        }
    }

    /// For each child, whether the move that led to it equals `action`.
    pub open spec fn reached_by(self, action: A) -> Seq<bool> {
        Seq::new(
            self.children.len(),
            |i: int|
                match self.children[i].last_action {
                    Some(taken) => taken.eq_spec(&action),
                    None => false,
                },
        )
    }

    /// The subtree that becomes the tree once `action` has been played: the
    /// first child of the expanded node that `action` leads to, if there is one.
    pub open spec fn advance(self, action: A) -> Option<Self> {
        let grown = self.expand();
        match first_true(grown.reached_by(action)) {
            Some(i) => Some(grown.children[i]),
            None => None,
        }
    }

    /// This node with `policy` in place of its own. Its children keep theirs.
    pub open spec fn with_policy(self, policy: T) -> Self {
        NodeView { policy, ..self }
    }

    /// What the playthroughs that ended at or below this node add up to,
    /// each entering by `weight`. A playthrough ends at a node where the
    /// game has ended, and that node's visit count is their number.
    pub open spec fn tally(self, weight: Weight<P>) -> int
        decreases self, self.children.len() + 1,
    {
        match self.outcome() {
            Some(outcome) => self.visits * weight.of(outcome),
            None => self.tally_below(weight, self.children.len()),
        }
    }

    /// The sum of `tally` over the first `n` children.
    pub open spec fn tally_below(self, weight: Weight<P>, n: nat) -> int
        decreases self, n,
    {
        if n == 0 || n > self.children.len() {
            0
        } else {
            self.tally_below(weight, (n - 1) as nat) + self.children[n - 1].tally(weight)
        }
    }

    /// What holds of every node of a search tree.
    ///
    /// The children, once there, are one for each move, in the order of
    /// the moves, each with the position that its move leads to. The visit
    /// count is the number of playthroughs that ended at or below the node.
    /// Each child's win total is the sum of what the playthroughs that
    /// ended at or below the child were worth to the player to move here.
    /// The node's own win total is within what that many rewards can add up
    /// to. And the same holds of each child.
    pub open spec fn well_formed(self) -> bool
        decreases self,
    {
        &&& self.children.len() == 0 || self.children.len() == self.moves().len()
        &&& self.visits == self.tally(Weight::Count)
        &&& self.visits * i64::MIN <= self.wins <= self.visits * i64::MAX
        &&& forall|i: int|
            0 <= i < self.children.len() ==> {
                let child = #[trigger] self.children[i];
                &&& child.last_action == Some(self.moves()[i])
                &&& child.state == self.state.spec_act(&self.moves()[i])
                &&& child.wins == child.tally(Weight::Reward(self.mover()))
                &&& child.well_formed()
            }
    }

    /// Expanding a running node of a finite game gives it children, the
    /// selected one is among them, and the longest line of play from that
    /// child is shorter than from the node.
    pub proof fn lemma_selected_child(self, i: int)
        requires
            self.well_formed(),
            game_ends::<P, G, E, A>(self.state),
            self.outcome() is None,
            i == self.expand().select(),
        ensures
            0 <= i < self.expand().children.len(),
            self.expand().children.len() == self.moves().len(),
            self.expand().children[i].state == self.state.spec_act(&self.moves()[i]),
            game_ends::<P, G, E, A>(self.expand().children[i].state),
            plies_left::<P, G, E, A>(self.expand().children[i].state) < plies_left::<P, G, E, A>(
                self.state,
            ),
    {
        let grown = self.expand();
        lemma_moves_iff_running::<P, G, E, A>(self.state);
        lemma_first_true(grown.unvisited());
        if first_true(grown.unvisited()) is None {
            lemma_first_max(grown.scores());
        }
        lemma_move_shortens::<P, G, E, A>(self.state, i);
    }
}

} // verus!
