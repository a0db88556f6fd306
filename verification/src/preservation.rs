use crate::game::{
    game_ends, lemma_moves_iff_running, plies_left, Action, EndStatus, GameState, Player,
    TreePolicy,
};
use crate::model::{NodeView, Weight};
use vstd::prelude::*;

verus! {

impl<P, G, E, A, T> NodeView<P, G, E, A, T> where
    P: Player<E>,
    G: GameState<P, E, A>,
    E: EndStatus,
    A: Action,
    T: TreePolicy,
 {
    /// Where an end of the game has been reached no move is open, so a
    /// well-formed node there has no children.
    pub proof fn lemma_end_has_no_children(self)
        requires
            self.well_formed(),
            game_ends::<P, G, E, A>(self.state),
            self.outcome() is Some,
        ensures
            self.children.len() == 0,
    {
        lemma_moves_iff_running::<P, G, E, A>(self.state);
    }

    /// Two nodes with the same children add up the same below them.
    pub proof fn lemma_tally_below_same(self, other: Self, weight: Weight<P>, n: nat)
        requires
            self.children == other.children,
        ensures
            self.tally_below(weight, n) == other.tally_below(weight, n),
        decreases n,
    {
        if n != 0 && n <= self.children.len() {
            self.lemma_tally_below_same(other, weight, (n - 1) as nat);
        }
    }

    /// Where one child's tally differs by `delta` and the other children
    /// are the same, the sum over the first `n` children differs by `delta`
    /// if that child is among them, and not at all otherwise.
    pub proof fn lemma_tally_below_shift(
        self,
        other: Self,
        weight: Weight<P>,
        n: nat,
        i: int,
        delta: int,
    )
        requires
            self.children.len() == other.children.len(),
            0 <= i < self.children.len(),
            forall|j: int|
                0 <= j < self.children.len() && j != i ==> self.children[j] == other.children[j],
            self.children[i].tally(weight) == other.children[i].tally(weight) + delta,
        ensures
            self.tally_below(weight, n) == other.tally_below(weight, n) + if i < n
                && n <= self.children.len() {
                delta
            } else {
                0
            },
        decreases n,
    {
        if n != 0 && n <= self.children.len() {
            self.lemma_tally_below_shift(other, weight, (n - 1) as nat, i, delta);
        }
    }

    /// Children with nothing below them add up to nothing.
    pub proof fn lemma_tally_below_zero(self, weight: Weight<P>, n: nat)
        requires
            forall|j: int| 0 <= j < self.children.len() ==> self.children[j].tally(weight) == 0,
        ensures
            self.tally_below(weight, n) == 0,
        decreases n,
    {
        if n != 0 && n <= self.children.len() {
            self.lemma_tally_below_zero(weight, (n - 1) as nat);
        }
    }

    /// The number of playthroughs that ended below the first `n` children
    /// is at least the number that ended below any one of them.
    pub proof fn lemma_count_below_covers(self, n: nat, i: int)
        requires
            forall|j: int|
                0 <= j < self.children.len() ==> self.children[j].tally(Weight::Count) >= 0,
            n <= self.children.len(),
        ensures
            self.tally_below(Weight::Count, n) >= 0,
            0 <= i < n ==> self.tally_below(Weight::Count, n) >= self.children[i].tally(
                Weight::Count,
            ),
        decreases n,
    {
        if n != 0 {
            self.lemma_count_below_covers((n - 1) as nat, i);
        }
    }

    /// The win total of a well-formed node is within what its visits can
    /// have added up to.
    pub proof fn lemma_bounds(self)
        requires
            self.well_formed(),
        ensures
            self.visits * i64::MIN <= self.wins <= self.visits * i64::MAX,
    {
    }

    /// A child of a well-formed node is well formed and stands for the
    /// position that its move leads to. Where the game has not ended at the
    /// node, the child has been visited no more often than the node.
    pub proof fn lemma_child(self, i: int)
        requires
            self.well_formed(),
            0 <= i < self.children.len(),
        ensures
            self.children.len() == self.moves().len(),
            self.children[i].well_formed(),
            self.children[i].last_action == Some(self.moves()[i]),
            self.children[i].state == self.state.spec_act(&self.moves()[i]),
            self.children[i].wins == self.children[i].tally(Weight::Reward(self.mover())),
            self.children[i].visits * i64::MIN <= self.children[i].wins <= self.children[i].visits
                * i64::MAX,
            self.outcome() is None ==> self.children[i].visits <= self.visits,
    {
        assert forall|j: int| 0 <= j < self.children.len() implies self.children[j].tally(
            Weight::Count,
        ) >= 0 by {
            assert(self.children[j].well_formed());
        }
        self.lemma_count_below_covers(self.children.len(), i);
        assert(self.children[i].well_formed());
    }

    /// A node made without statistics and without children is well
    /// formed, and nothing has ended below it.
    pub proof fn lemma_fresh(state: G, last_action: Option<A>, policy: T)
        ensures
            Self::fresh(state, last_action, policy).well_formed(),
            forall|weight: Weight<P>| #[trigger]
                Self::fresh(state, last_action, policy).tally(weight) == 0,
    {
        let node = Self::fresh(state, last_action, policy);
        assert forall|weight: Weight<P>| #[trigger] node.tally(weight) == 0 by {
            match node.outcome() {
                Some(outcome) => {
                    assert(node.visits * weight.of(outcome) == 0) by (nonlinear_arith)
                        requires
                            node.visits == 0,
                    ;
                },
                None => {},
            }
        }
    }

    /// Expanding keeps a node well formed and changes nothing but the
    /// children: the position, the statistics, the policy and every tally
    /// stay. A running node has a child for each of its moves afterwards.
    pub proof fn lemma_expand(self)
        requires
            self.well_formed(),
        ensures
            self.expand().well_formed(),
            self.expand().state == self.state,
            self.expand().last_action == self.last_action,
            self.expand().policy == self.policy,
            self.expand().visits == self.visits,
            self.expand().wins == self.wins,
            self.expand().children.len() == self.moves().len(),
            forall|weight: Weight<P>| #[trigger]
                self.expand().tally(weight) == self.tally(weight),
    {
        let grown = self.expand();
        if self.children.len() == 0 {
            assert forall|i: int| 0 <= i < grown.children.len() implies {
                let child = #[trigger] grown.children[i];
                &&& child.well_formed()
                &&& forall|weight: Weight<P>| #[trigger] child.tally(weight) == 0
            } by {
                Self::lemma_fresh(
                    self.state.spec_act(&self.moves()[i]),
                    Some(self.moves()[i]),
                    self.policy,
                );
            }
            assert forall|weight: Weight<P>| #[trigger]
                grown.tally(weight) == self.tally(weight) by {
                grown.lemma_tally_below_zero(weight, grown.children.len());
            }
            assert(grown.tally(Weight::Count) == self.tally(Weight::Count));
        }
    }

    /// Counting one more playthrough at an end of the game keeps the
    /// node there well formed and adds its outcome once to every tally.
    pub proof fn lemma_count_at_end(self, player: P)
        requires
            self.well_formed(),
            self.outcome() is Some,
        ensures
            self.backpropagate(player, self.outcome().unwrap()).well_formed(),
            forall|weight: Weight<P>| #[trigger]
                self.backpropagate(player, self.outcome().unwrap()).tally(weight) == self.tally(
                    weight,
                ) + weight.of(self.outcome().unwrap()),
    {
        let outcome = self.outcome().unwrap();
        let after = self.backpropagate(player, outcome);
        assert forall|weight: Weight<P>| #[trigger]
            after.tally(weight) == self.tally(weight) + weight.of(outcome) by {
            assert((self.visits + 1) * weight.of(outcome) == self.visits * weight.of(outcome)
                + weight.of(outcome)) by (nonlinear_arith);
        }
        assert(after.tally(Weight::Count) == self.tally(Weight::Count) + 1);
    }

    /// Where a playthrough that ended in `outcome` has turned the `i`-th child
    /// into `child`, putting `child` in its place and counting the outcome
    /// at the node keeps the node well formed and adds the outcome once to
    /// every tally.
    pub proof fn lemma_count_above(self, i: int, child: Self, player: P, outcome: E)
        requires
            self.well_formed(),
            self.outcome() is None,
            0 <= i < self.children.len(),
            child.well_formed(),
            child.state == self.children[i].state,
            child.last_action == self.children[i].last_action,
            child.wins == self.children[i].wins + self.mover().spec_reward(&outcome),
            forall|weight: Weight<P>| #[trigger]
                child.tally(weight) == self.children[i].tally(weight) + weight.of(outcome),
        ensures
            self.with_child(i, child).backpropagate(player, outcome).well_formed(),
            forall|weight: Weight<P>| #[trigger]
                self.with_child(i, child).backpropagate(player, outcome).tally(weight)
                    == self.tally(weight) + weight.of(outcome),
    {
        let after = self.with_child(i, child).backpropagate(player, outcome);
        let mover = self.mover();
        assert forall|weight: Weight<P>| #[trigger]
            after.tally(weight) == self.tally(weight) + weight.of(outcome) by {
            after.lemma_tally_below_shift(
                self,
                weight,
                self.children.len(),
                i,
                weight.of(outcome),
            );
        }
        assert(after.tally(Weight::Count) == self.tally(Weight::Count) + 1);
        assert forall|j: int| 0 <= j < after.children.len() implies {
            let c = #[trigger] after.children[j];
            &&& c.last_action == Some(after.moves()[j])
            &&& c.state == after.state.spec_act(&after.moves()[j])
            &&& c.wins == c.tally(Weight::Reward(after.mover()))
            &&& c.well_formed()
        } by {
            if j == i {
                assert(child.tally(Weight::Reward(mover)) == self.children[i].tally(
                    Weight::Reward(mover),
                ) + Weight::Reward(mover).of(outcome));
            } else {
                assert(after.children[j] == self.children[j]);
            }
        }
    }

    /// One playthrough keeps a node well formed. It leaves the position,
    /// the move and the policy of the node as they are, adds one visit and
    /// the reward of the outcome for the player it is counted for, and
    /// adds the outcome once to every tally.
    pub proof fn lemma_simulate(self, player: P)
        requires
            self.well_formed(),
            game_ends::<P, G, E, A>(self.state),
        ensures
            self.simulate(player).0.well_formed(),
            self.simulate(player).0.state == self.state,
            self.simulate(player).0.last_action == self.last_action,
            self.simulate(player).0.policy == self.policy,
            self.simulate(player).0.visits == self.visits + 1,
            self.simulate(player).0.wins == self.wins + player.spec_reward(
                &self.simulate(player).1,
            ),
            self.simulate(player).0.children.len() == self.moves().len(),
            forall|weight: Weight<P>| #[trigger]
                self.simulate(player).0.tally(weight) == self.tally(weight) + weight.of(
                    self.simulate(player).1,
                ),
        decreases plies_left::<P, G, E, A>(self.state),
    {
        lemma_moves_iff_running::<P, G, E, A>(self.state);
        match self.outcome() {
            Some(_) => {
                self.lemma_end_has_no_children();
                self.lemma_count_at_end(player);
            },
            None => {
                let grown = self.expand();
                let i = grown.select();
                self.lemma_expand();
                self.lemma_selected_child(i);
                let before = grown.children[i];
                assert(before.well_formed());
                before.lemma_simulate(grown.mover());
                let (child, outcome) = before.simulate(grown.mover());
                grown.lemma_count_above(i, child, player, outcome);
            },
        }
    }

    /// How a playthrough goes on from a running node: the node is expanded,
    /// the selected child is there, is well formed and has been visited no
    /// more often than the node, its game is shorter, and the
    /// playthrough is the one through that child, counted above it.
    pub proof fn lemma_descend(self, player: P)
        requires
            self.well_formed(),
            game_ends::<P, G, E, A>(self.state),
            self.outcome() is None,
        ensures
            ({
                let grown = self.expand();
                let i = grown.select();
                let below = grown.children[i].simulate(grown.mover());
                &&& grown.well_formed()
                &&& grown.state == self.state
                &&& grown.visits == self.visits
                &&& grown.wins == self.wins
                &&& 0 <= i < grown.children.len()
                &&& grown.children[i].well_formed()
                &&& game_ends::<P, G, E, A>(grown.children[i].state)
                &&& grown.children[i].visits <= self.visits
                &&& plies_left::<P, G, E, A>(grown.children[i].state) < plies_left::<P, G, E, A>(
                    self.state,
                )
                &&& self.simulate(player) == (
                    grown.with_child(i, below.0).backpropagate(player, below.1),
                    below.1,
                )
            }),
    {
        let grown = self.expand();
        let i = grown.select();
        self.lemma_expand();
        self.lemma_selected_child(i);
        grown.lemma_child(i);
    }

    /// Any number of playthroughs keep a node well formed, leave its
    /// position, move and policy as they are, and add one visit each.
    pub proof fn lemma_searched(self, n: nat)
        requires
            self.well_formed(),
            game_ends::<P, G, E, A>(self.state),
        ensures
            self.searched(n).well_formed(),
            self.searched(n).state == self.state,
            self.searched(n).last_action == self.last_action,
            self.searched(n).policy == self.policy,
            self.searched(n).visits == self.visits + n,
        decreases n,
    {
        if n > 0 {
            self.lemma_searched((n - 1) as nat);
            self.searched((n - 1) as nat).lemma_simulate(self.mover());
        }
    }

    /// Another policy at a node leaves it well formed.
    pub proof fn lemma_with_policy(self, policy: T)
        requires
            self.well_formed(),
        ensures
            self.with_policy(policy).well_formed(),
    {
        let other = self.with_policy(policy);
        other.lemma_tally_below_same(self, Weight::Count, self.children.len());
    }
}

} // verus!
