use crate::game::{
    game_ends, lemma_move_shortens, Action, EndStatus, GameState, Player, TreePolicy,
};
use crate::model::NodeView;
use crate::node::Node;
use std::rc::Rc;
use vstd::prelude::*;
use vstd::std_specs::cmp::PartialEqSpec;

verus! {

/// A search tree over the positions that can follow the position at its root.
pub struct SearchTree<P, G, E, A, T> where
    P: Player<E>,
    G: GameState<P, E, A>,
    E: EndStatus,
    A: Action,
    T: TreePolicy,
 {
    root_node: Node<P, G, E, A, T>,
}

impl<P, G, E, A, T> View for SearchTree<P, G, E, A, T> where
    P: Player<E>,
    G: GameState<P, E, A>,
    E: EndStatus,
    A: Action,
    T: TreePolicy,
 {
    type V = NodeView<P, G, E, A, T>;

    /// The tree is its root.
    closed spec fn view(&self) -> NodeView<P, G, E, A, T> {
        self.root_node@
    }
}

impl<P, G, E, A, T> SearchTree<P, G, E, A, T> where
    P: Player<E>,
    G: GameState<P, E, A>,
    E: EndStatus,
    A: Action,
    T: TreePolicy,
 {
    /// What holds of every tree: its root is well formed.
    pub open spec fn wf(&self) -> bool {
        self@.well_formed()
    }

    /// Create a new search tree, with the default of the policy type as
    /// its policy.
    pub fn new(game_state: Rc<G>) -> (tree: Self) where T: Default
        ensures
            tree.wf(),
            tree@ == NodeView::<P, G, E, A, T>::fresh(*game_state, None, tree@.policy),
            call_ensures(T::default, (), tree@.policy),
    {
        let root_node = Node::new(game_state, Rc::new(T::default()));
        proof {
            NodeView::<P, G, E, A, T>::lemma_fresh(root_node@.state, None, root_node@.policy);
        }
        SearchTree { root_node }
    }

    /// Set the tree policy
    pub fn with_tree_policy(self, tree_policy: T) -> (tree: Self)
        requires
            self.wf(),
        ensures
            tree.wf(),
            tree@ == self@.with_policy(tree_policy),
    {
        let mut tree = self;
        proof {
            tree@.lemma_with_policy(tree_policy);
        }
        tree.root_node.set_tree_policy(Rc::new(tree_policy));
        tree
    }

    /// Search for the best action
    pub fn search(&mut self, n: u32) -> (action: Option<A>)
        requires
            old(self).wf(),
            game_ends::<P, G, E, A>(old(self)@.state),
            old(self)@.visits + n <= u64::MAX,
        ensures
            final(self).wf(),
            final(self)@ == old(self)@.searched(n as nat),
            match final(self)@.best_action() {
                Some(best) => action matches Some(copy) && cloned(best, copy),
                None => action is None,
            },
    {
        let ghost before = self@;
        for i in 0..n
            invariant
                before.well_formed(),
                game_ends::<P, G, E, A>(before.state),
                before.visits + n <= u64::MAX,
                self@ == before.searched(i as nat),
        {
            proof {
                before.lemma_searched(i as nat);
            }
            let mover = self.root_node.mover();
            self.root_node.simulate(&mover);
        }
        proof {
            before.lemma_searched(n as nat);
        }
        match self.root_node.select_most_visited() {
            Some(best) => self.root_node.child_action(best),
            None => None,
        }
    }

    /// Renew the root node
    pub fn renew(&mut self, action: &A) -> (result: Result<(), String>)
        requires
            old(self).wf(),
        ensures
            final(self).wf(),
            match result {
                Ok(_) => exists|i: int|
                    0 <= i < old(self)@.expand().children.len() && final(self)@ == old(
                        self,
                    )@.expand().children[i],
                Err(message) => final(self)@ == old(self)@.expand() && message@
                    == "The state is not a child of the root node"@,
            },
            A::obeys_eq_spec() ==> match old(self)@.advance(*action) {
                Some(subtree) => result is Ok && final(self)@ == subtree,
                None => result is Err,
            },
            game_ends::<P, G, E, A>(old(self)@.state) ==> game_ends::<P, G, E, A>(
                final(self)@.state,
            ),
    {
        proof {
            self@.lemma_expand();
        }
        self.root_node.expand();
        let ghost grown = self@;
        let new_root_node = self.root_node.find_child(action);
        if let Some(i) = new_root_node {
            proof {
                grown.lemma_child(i as int);
                if game_ends::<P, G, E, A>(grown.state) {
                    lemma_move_shortens::<P, G, E, A>(grown.state, i as int);
                }
            }
            self.root_node = self.root_node.take_child(i);
            return Ok(());
        }
        Err("The state is not a child of the root node".to_string())
    }

    /// Get the current game state
    pub fn get_game_state(&self) -> (state: Rc<G>)
        ensures
            *state == self@.state,
    {
        self.root_node.state()
    }

    /// Get the root node
    pub fn root_node(&self) -> (root: &Node<P, G, E, A, T>)
        ensures
            root@ == self@,
    {
        &self.root_node
    }
}

} // verus!
