use crate::choice::{
    first_true, is_first_max, lemma_first_max_is, lemma_first_true_is, lemma_first_true_none,
};
use crate::game::{game_ends, plies_left, Action, EndStatus, GameState, Player, TreePolicy};
use crate::model::NodeView;
use crate::shared::share;
use std::marker::PhantomData;
use std::rc::Rc;
use vstd::prelude::*;
use vstd::std_specs::cmp::PartialEqSpec;

verus! {

/// A node of the search tree: a position, the move that led to it, its
/// statistics, and its children once it has been expanded.
pub struct Node<P, G, E, A, T> where
    P: Player<E>,
    G: GameState<P, E, A>,
    E: EndStatus,
    A: Action,
    T: TreePolicy,
 {
    state: Rc<G>,
    last_action: Option<A>,
    child_nodes: Vec<Node<P, G, E, A, T>>,
    /// sum of the rewards of the playthroughs through this node
    wi: i128,
    /// number of playthroughs through this node
    ni: u64,
    /// policy used to select the child node
    tree_policy: Rc<T>,
    marker: PhantomData<(P, E)>,
}

impl<P, G, E, A, T> View for Node<P, G, E, A, T> where
    P: Player<E>,
    G: GameState<P, E, A>,
    E: EndStatus,
    A: Action,
    T: TreePolicy,
 {
    type V = NodeView<P, G, E, A, T>;

    closed spec fn view(&self) -> NodeView<P, G, E, A, T> {
        self.model()
    }
}

impl<P, G, E, A, T> Node<P, G, E, A, T> where
    P: Player<E>,
    G: GameState<P, E, A>,
    E: EndStatus,
    A: Action,
    T: TreePolicy,
 {
    /// The node as a mathematical value, children and all.
    pub closed spec fn model(&self) -> NodeView<P, G, E, A, T>
        decreases self,
    {
        NodeView {
            state: *self.state,
            last_action: self.last_action,
            children: Seq::new(
                self.child_nodes.len() as nat,
                |i: int|
                    if 0 <= i < self.child_nodes.len() {
                        self.child_nodes[i].model()
                    } else {
                        arbitrary()
                    },
            ),
            wins: self.wi as int,
            visits: self.ni as nat,
            policy: *self.tree_policy,
            marker: PhantomData,
        }
    }

    /// The view field by field.
    proof fn lemma_view(&self)
        ensures
            self@.state == *self.state,
            self@.last_action == self.last_action,
            self@.wins == self.wi,
            self@.visits == self.ni,
            self@.policy == *self.tree_policy,
            self@.children.len() == self.child_nodes.len(),
            forall|i: int|
                0 <= i < self.child_nodes.len() ==> #[trigger] self@.children[i]
                    == self.child_nodes[i]@,
    {
    }

    /// A node for `state` without statistics and without children, to be
    /// the root of a tree.
    pub(crate) fn new(state: Rc<G>, tree_policy: Rc<T>) -> (node: Self)
        ensures
            node@ == NodeView::<P, G, E, A, T>::fresh(*state, None, *tree_policy),
    {
        let node = Node {
            state,
            last_action: None,
            child_nodes: Vec::new(),
            wi: 0,
            ni: 0,
            tree_policy,
            marker: PhantomData,
        };
        assert(node@.children =~= Seq::empty());
        node
    }

    /// The child that playing `action` creates: it has the position after
    /// the move, no statistics, and this node's policy.
    pub(crate) fn derive_child(&self, action: A) -> (child: Self)
        requires
            self@.moves().contains(action),
        ensures
            child@ == self@.child_for(action),
    {
        let child = Node {
            state: Rc::new(self.state.act(&action)),
            last_action: Some(action),
            child_nodes: Vec::new(),
            wi: 0,
            ni: 0,
            tree_policy: share(&self.tree_policy),
            marker: PhantomData,
        };
        assert(child@.children =~= Seq::empty());
        child
    }

    /// Whether the node has children.
    pub(crate) fn is_expanded(&self) -> (expanded: bool)
        ensures
            expanded == (self@.children.len() > 0),
    {
        proof {
            self.lemma_view();
        }
        self.child_nodes.len() > 0
    }

    /// Gives the node its children, one for each move in the order of the
    /// moves, unless it has children already.
    pub(crate) fn expand(&mut self)
        ensures
            final(self)@ == old(self)@.expand(),
    {
        if self.is_expanded() {
            return ;
        }
        let ghost before = self@;
        let actions = self.state.possible_actions();
        for action in it: actions
            invariant
                it.seq() == before.moves(),
                self@.children == Seq::new(
                    it.index() as nat,
                    |i: int| before.child_for(before.moves()[i]),
                ),
                self@.state == before.state,
                self@.last_action == before.last_action,
                self@.wins == before.wins,
                self@.visits == before.visits,
                self@.policy == before.policy,
        {
            let ghost grown = self@;
            let child = self.derive_child(action);
            self.child_nodes.push(child);
            proof {
                self.lemma_view();
                old(self).lemma_view();
                assert(self@.children =~= grown.children.push(child@));
            }
        }
    }

    /// Counts one more playthrough through this node, which ended in
    /// `outcome`, for `player`.
    pub(crate) fn backpropagate(&mut self, player: &P, outcome: &E)
        requires
            old(self)@.visits < u64::MAX,
            old(self)@.visits * i64::MIN <= old(self)@.wins <= old(self)@.visits * i64::MAX,
        ensures
            final(self)@ == old(self)@.backpropagate(*player, *outcome),
    {
        self.ni = self.ni + 1;
        self.wi = self.wi + player.reward_when_outcome_is(outcome) as i128;
        assert(self@.children =~= old(self)@.children);
    }

    /// The place of the first child that `action` leads to, if there is one.
    pub(crate) fn find_child(&self, action: &A) -> (found: Option<usize>)
        ensures
            found matches Some(i) ==> i < self@.children.len(),
            A::obeys_eq_spec() ==> match found {
                Some(i) => first_true(self@.reached_by(*action)) == Some(i as int),
                None => first_true(self@.reached_by(*action)) is None,
            },
    {
        proof {
            self.lemma_view();
        }
        let mut i: usize = 0;
        while i < self.child_nodes.len()
            invariant
                i <= self.child_nodes.len(),
                self@.children.len() == self.child_nodes.len(),
                forall|j: int|
                    0 <= j < self.child_nodes.len() ==> #[trigger] self@.children[j]
                        == self.child_nodes[j]@,
                A::obeys_eq_spec() ==> forall|j: int| 0 <= j < i ==> !self@.reached_by(*action)[j],
            decreases self.child_nodes.len() - i,
        {
            let child = &self.child_nodes[i];
            proof {
                child.lemma_view();
            }
            let hit = match &child.last_action {
                Some(taken) => *taken == *action,
                None => false,
            };
            if hit {
                proof {
                    if A::obeys_eq_spec() {
                        lemma_first_true_is(self@.reached_by(*action), i as int);
                    }
                }
                return Some(i);
            }
            i = i + 1;
        }
        proof {
            if A::obeys_eq_spec() {
                lemma_first_true_none(self@.reached_by(*action));
            }
        }
        None
    }

    /// The place of the child into which the next playthrough descends:
    /// the first child never visited, or where all have been visited, the
    /// first among those that the policy scores highest. `None` where
    /// there are no children.
    pub(crate) fn select(&self) -> (selected: Option<usize>)
        requires
            self@.well_formed(),
            self@.outcome() is None,
        ensures
            match selected {
                Some(i) => i < self@.children.len() && i == self@.select(),
                None => self@.children.len() == 0,
            },
    {
        proof {
            self.lemma_view();
        }
        let count = self.child_nodes.len();
        let mut i: usize = 0;
        while i < count
            invariant
                i <= count == self.child_nodes.len(),
                self@.children.len() == count,
                forall|j: int|
                    0 <= j < count ==> #[trigger] self@.children[j] == self.child_nodes[j]@,
                forall|j: int| 0 <= j < i ==> !self@.unvisited()[j],
            decreases count - i,
        {
            proof {
                self.child_nodes[i as int].lemma_view();
            }
            if self.child_nodes[i].ni == 0 {
                proof {
                    lemma_first_true_is(self@.unvisited(), i as int);
                }
                return Some(i);
            }
            i = i + 1;
        }
        if count == 0 {
            return None;
        }
        proof {
            lemma_first_true_none(self@.unvisited());
        }
        let mut best: usize = 0;
        let mut best_score = self.score_of(0);
        let mut k: usize = 1;
        while k < count
            invariant
                self@.well_formed(),
                self@.outcome() is None,
                0 <= best < k <= count == self.child_nodes.len(),
                self@.children.len() == count,
                forall|j: int| 0 <= j < count ==> !self@.unvisited()[j],
                best_score == self@.scores()[best as int],
                forall|j: int| 0 <= j < k ==> self@.scores()[j] <= best_score,
                forall|j: int| 0 <= j < best ==> self@.scores()[j] < best_score,
            decreases count - k,
        {
            let value = self.score_of(k);
            if value > best_score {
                best = k;
                best_score = value;
            }
            k = k + 1;
        }
        proof {
            assert(is_first_max(self@.scores(), best as int));
            lemma_first_max_is(self@.scores(), best as int);
        }
        Some(best)
    }

    /// What the policy of this node makes of its `i`-th child.
    fn score_of(&self, i: usize) -> (value: i64)
        requires
            self@.well_formed(),
            self@.outcome() is None,
            i < self@.children.len(),
            !self@.unvisited()[i as int],
        ensures
            value == self@.scores()[i as int],
    {
        proof {
            self.lemma_view();
            self.child_nodes[i as int].lemma_view();
            self@.lemma_child(i as int);
        }
        let child = &self.child_nodes[i];
        self.tree_policy.score(child.wi, child.ni, self.ni)
    }

    /// The place of the first among the children visited most often,
    /// `None` where there are no children.
    pub(crate) fn select_most_visited(&self) -> (selected: Option<usize>)
        ensures
            match selected {
                Some(i) => i < self@.children.len() && self@.most_visited() == Some(i as int),
                None => self@.most_visited() is None,
            },
    {
        proof {
            self.lemma_view();
        }
        let count = self.child_nodes.len();
        if count == 0 {
            return None;
        }
        proof {
            self.child_nodes[0].lemma_view();
        }
        let mut best: usize = 0;
        let mut times_visited_max = self.child_nodes[0].ni;
        let mut k: usize = 1;
        while k < count
            invariant
                0 <= best < k <= count == self.child_nodes.len(),
                self@.children.len() == count,
                forall|j: int|
                    0 <= j < count ==> #[trigger] self@.children[j] == self.child_nodes[j]@,
                times_visited_max == self@.visit_counts()[best as int],
                forall|j: int| 0 <= j < k ==> self@.visit_counts()[j] <= times_visited_max,
                forall|j: int| 0 <= j < best ==> self@.visit_counts()[j] < times_visited_max,
            decreases count - k,
        {
            proof {
                self.child_nodes[k as int].lemma_view();
            }
            let times_visited = self.child_nodes[k].ni;
            if times_visited > times_visited_max {
                best = k;
                times_visited_max = times_visited;
            }
            k = k + 1;
        }
        proof {
            assert(is_first_max(self@.visit_counts(), best as int));
            lemma_first_max_is(self@.visit_counts(), best as int);
        }
        Some(best)
    }

    /// One playthrough from this node to an end of the game, counted here
    /// for `player`; returns the outcome that was reached.
    ///
    /// At an end of the game the outcome is counted at once. Elsewhere the
    /// node is expanded, the playthrough goes on in the selected child, where
    /// it is counted for the player to move here, and its outcome is then
    /// counted here.
    pub(crate) fn simulate(&mut self, player: &P) -> (outcome: E)
        requires
            old(self)@.well_formed(),
            game_ends::<P, G, E, A>(old(self)@.state),
            old(self)@.visits < u64::MAX,
        ensures
            final(self)@ == old(self)@.simulate(*player).0,
            outcome == old(self)@.simulate(*player).1,
            final(self)@.well_formed(),
        decreases plies_left::<P, G, E, A>(old(self)@.state),
    {
        let ghost before = self@;
        proof {
            self.lemma_view();
            before.lemma_bounds();
            before.lemma_simulate(*player);
        }
        match self.state.end_status() {
            Some(outcome) => {
                self.backpropagate(player, &outcome);
                outcome
            },
            None => {
                proof {
                    before.lemma_descend(*player);
                }
                self.expand();
                let ghost grown = self@;
                let i = self.select().unwrap();
                let mover = self.state.player();
                proof {
                    self.lemma_view();
                }
                let outcome = self.child_nodes[i].simulate(&mover);
                proof {
                    self.lemma_view();
                    assert(self@.children =~= grown.children.update(
                        i as int,
                        self.child_nodes[i as int]@,
                    ));
                }
                self.backpropagate(player, &outcome);
                outcome
            },
        }
    }

    /// The player to move at this node.
    pub(crate) fn mover(&self) -> (mover: P)
        ensures
            mover == self@.mover(),
    {
        proof {
            self.lemma_view();
        }
        self.state.player()
    }

    /// A copy of the move that leads to the `i`-th child.
    pub(crate) fn child_action(&self, i: usize) -> (action: Option<A>)
        requires
            i < self@.children.len(),
        ensures
            match self@.children[i as int].last_action {
                Some(taken) => action matches Some(copy) && cloned(taken, copy),
                None => action is None,
            },
    {
        proof {
            self.lemma_view();
            self.child_nodes[i as int].lemma_view();
        }
        self.child_nodes[i].last_action.clone()
    }

    /// Takes the `i`-th child out of this node, with all that is below it.
    /// What is left of the node is of no further use.
    pub(crate) fn take_child(&mut self, i: usize) -> (child: Self)
        requires
            i < old(self)@.children.len(),
        ensures
            child@ == old(self)@.children[i as int],
    {
        proof {
            self.lemma_view();
        }
        self.child_nodes.swap_remove(i)
    }

    /// Puts `tree_policy` in place of this node's policy. The children
    /// keep theirs.
    pub(crate) fn set_tree_policy(&mut self, tree_policy: Rc<T>)
        ensures
            final(self)@ == old(self)@.with_policy(*tree_policy),
    {
        self.tree_policy = tree_policy;
        proof {
            self.lemma_view();
            old(self).lemma_view();
            assert(self@.children =~= old(self)@.children);
        }
    }

    /// The position of this node.
    pub fn state(&self) -> (state: Rc<G>)
        ensures
            *state == self@.state,
    {
        proof {
            self.lemma_view();
        }
        share(&self.state)
    }

    /// The children of this node, in the order of the moves that lead to them.
    pub fn child_nodes(&self) -> (children: &Vec<Node<P, G, E, A, T>>)
        ensures
            children@.len() == self@.children.len(),
            forall|i: int| 0 <= i < children@.len() ==> (#[trigger] children@[i])@ == self@.children[i],
    {
        proof {
            self.lemma_view();
        }
        &self.child_nodes
    }

    /// The sum of the rewards of the playthroughs through this node.
    pub fn wi(&self) -> (wins: i128)
        ensures
            wins == self@.wins,
    {
        proof {
            self.lemma_view();
        }
        self.wi
    }

    /// The number of playthroughs through this node.
    pub fn ni(&self) -> (visits: u64)
        ensures
            visits == self@.visits,
    {
        proof {
            self.lemma_view();
        }
        self.ni
    }
}

} // verus!
