use crate::choice::{first_max, first_true, lemma_first_max, lemma_first_true};
use crate::game::{
    game_ends, lemma_move_shortens, lemma_moves_iff_running, Action, EndStatus, GameState,
    Player, TreePolicy,
};
use crate::model::{NodeView, Weight};
use vstd::laws_eq::obeys_concrete_eq;
use vstd::prelude::*;

verus! {

/// A tree that has just been made is well formed, and no playthrough has
/// ended anywhere in it.
pub proof fn law_new_tree_is_empty<P, G, E, A, T>(state: G, policy: T, weight: Weight<P>) where
    P: Player<E>,
    G: GameState<P, E, A>,
    E: EndStatus,
    A: Action,
    T: TreePolicy,

    ensures
        NodeView::<P, G, E, A, T>::fresh(state, None, policy).well_formed(),
        NodeView::<P, G, E, A, T>::fresh(state, None, policy).visits == 0,
        NodeView::<P, G, E, A, T>::fresh(state, None, policy).wins == 0,
        NodeView::<P, G, E, A, T>::fresh(state, None, policy).tally(weight) == 0,
{
    NodeView::<P, G, E, A, T>::lemma_fresh(state, None, policy);
}

/// At every node of a well-formed tree the visit count is the number of
/// playthroughs that went through the node, and below the root the win
/// total is the sum of what their outcomes were worth to the player who
/// moves at the parent. The playthroughs through a node are those that
/// ended at or below it, which `tally` adds up.
pub proof fn law_statistics_count_playthroughs<P, G, E, A, T>(
    node: NodeView<P, G, E, A, T>,
    i: int,
) where P: Player<E>, G: GameState<P, E, A>, E: EndStatus, A: Action, T: TreePolicy
    requires
        node.well_formed(),
        0 <= i < node.children.len(),
    ensures
        node.visits == node.tally(Weight::Count),
        node.children[i].visits == node.children[i].tally(Weight::Count),
        node.children[i].wins == node.children[i].tally(Weight::Reward(node.mover())),
        node.children[i].well_formed(),
{
    node.lemma_child(i);
}

/// A playthrough through a well-formed node is counted there exactly once:
/// the node stays well formed, gains one visit and the reward of the
/// outcome for the player it is counted for, and every tally at the node
/// grows by what that one outcome adds.
pub proof fn law_playthrough_counts_once<P, G, E, A, T>(
    node: NodeView<P, G, E, A, T>,
    player: P,
    weight: Weight<P>,
) where P: Player<E>, G: GameState<P, E, A>, E: EndStatus, A: Action, T: TreePolicy
    requires
        node.well_formed(),
        game_ends::<P, G, E, A>(node.state),
    ensures
        node.simulate(player).0.well_formed(),
        node.simulate(player).0.state == node.state,
        node.simulate(player).0.visits == node.visits + 1,
        node.simulate(player).0.wins == node.wins + player.spec_reward(&node.simulate(player).1),
        node.simulate(player).0.tally(weight) == node.tally(weight) + weight.of(
            node.simulate(player).1,
        ),
{
    node.lemma_simulate(player);
}

/// A playthrough from a node where the game has not ended goes down one
/// path: it goes through the selected child of the expanded node, where it
/// is counted for the player to move at the node, and it leaves every
/// other child as it is.
pub proof fn law_playthrough_takes_one_path<P, G, E, A, T>(
    node: NodeView<P, G, E, A, T>,
    player: P,
    j: int,
) where P: Player<E>, G: GameState<P, E, A>, E: EndStatus, A: Action, T: TreePolicy
    requires
        node.well_formed(),
        game_ends::<P, G, E, A>(node.state),
        node.outcome() is None,
        0 <= j < node.moves().len(),
    ensures
        ({
            let grown = node.expand();
            let taken = grown.select();
            let below = grown.children[taken].simulate(node.mover());
            let after = node.simulate(player);
            &&& 0 <= taken < grown.children.len() == node.moves().len()
            &&& after.1 == below.1
            &&& after.0.children.len() == grown.children.len()
            &&& after.0.children[j] == if j == taken {
                below.0
            } else {
                grown.children[j]
            }
        }),
{
    node.lemma_descend(player);
    node.lemma_expand();
}

/// Expanding a second time changes nothing.
pub proof fn law_expand_is_idempotent<P, G, E, A, T>(node: NodeView<P, G, E, A, T>) where
    P: Player<E>,
    G: GameState<P, E, A>,
    E: EndStatus,
    A: Action,
    T: TreePolicy,

    ensures
        node.expand().expand() == node.expand(),
{
    let grown = node.expand();
    if grown.children.len() == 0 {
        assert(grown.expand().children =~= grown.children);
    }
}

/// Searching `n1` times and then `n2` times leaves the tree that searching
/// `n1 + n2` times leaves, with the same statistics at every node and the
/// same move to play.
pub proof fn law_searches_add_up<P, G, E, A, T>(tree: NodeView<P, G, E, A, T>, n1: nat, n2: nat) where
    P: Player<E>,
    G: GameState<P, E, A>,
    E: EndStatus,
    A: Action,
    T: TreePolicy,

    requires
        tree.well_formed(),
        game_ends::<P, G, E, A>(tree.state),
    ensures
        tree.searched(n1).searched(n2) == tree.searched(n1 + n2),
        tree.searched(n1).searched(n2).best_action() == tree.searched(n1 + n2).best_action(),
    decreases n2,
{
    tree.lemma_searched(n1);
    if n2 > 0 {
        law_searches_add_up(tree, n1, (n2 - 1) as nat);
    }
}

/// Searching `n` times adds `n` visits at the root and leaves the tree
/// well formed, at the same position.
pub proof fn law_search_visits_root<P, G, E, A, T>(tree: NodeView<P, G, E, A, T>, n: nat) where
    P: Player<E>,
    G: GameState<P, E, A>,
    E: EndStatus,
    A: Action,
    T: TreePolicy,

    requires
        tree.well_formed(),
        game_ends::<P, G, E, A>(tree.state),
    ensures
        tree.searched(n).well_formed(),
        tree.searched(n).state == tree.state,
        tree.searched(n).visits == tree.visits + n,
{
    tree.lemma_searched(n);
}

/// The child visited most often is one that no other child has been
/// visited more often than, and among several such it is the first in the
/// order of the moves.
pub proof fn law_most_visited_is_first_among_equals<P, G, E, A, T>(
    node: NodeView<P, G, E, A, T>,
    j: int,
) where P: Player<E>, G: GameState<P, E, A>, E: EndStatus, A: Action, T: TreePolicy
    requires
        0 <= j < node.children.len(),
    ensures
        node.most_visited() matches Some(i) && 0 <= i < node.children.len()
            && node.children[j].visits <= node.children[i].visits && (j < i
            ==> node.children[j].visits < node.children[i].visits),
{
    let counts = node.visit_counts();
    lemma_first_max(counts);
    let i = first_max(counts);
    assert(counts[j] <= counts[i]);
    assert(j < i ==> counts[j] < counts[i]);
}

/// The child selected for the next playthrough is the first one never
/// visited. Where every child has been visited, it is one that the policy
/// scores no lower than any other, and among several such the first in
/// the order of the moves.
pub proof fn law_select_is_first_among_equals<P, G, E, A, T>(
    node: NodeView<P, G, E, A, T>,
    j: int,
) where P: Player<E>, G: GameState<P, E, A>, E: EndStatus, A: Action, T: TreePolicy
    requires
        0 <= j < node.children.len(),
    ensures
        0 <= node.select() < node.children.len(),
        node.children[j].visits == 0 ==> node.select() <= j && node.children[node.select()].visits
            == 0,
        (forall|k: int| 0 <= k < node.children.len() ==> node.children[k].visits > 0)
            ==> node.scores()[j] <= node.scores()[node.select()] && (j < node.select()
            ==> node.scores()[j] < node.scores()[node.select()]),
{
    let unvisited = node.unvisited();
    lemma_first_true(unvisited);
    match first_true(unvisited) {
        Some(i) => {
            if node.children[j].visits == 0 && j < i {
                assert(!unvisited[j]);
            }
            assert(unvisited[i]);
        },
        None => {
            assert(!unvisited[j]);
            lemma_first_max(node.scores());
        },
    }
}

/// A search has a move to say exactly when the root has children, and the
/// move is then one of the moves of the position at the root. There is none
/// where the game has ended at the root, and there is one after at least
/// one playthrough from a root where it has not.
pub proof fn law_search_answers<P, G, E, A, T>(tree: NodeView<P, G, E, A, T>, n: nat) where
    P: Player<E>,
    G: GameState<P, E, A>,
    E: EndStatus,
    A: Action,
    T: TreePolicy,

    requires
        tree.well_formed(),
        game_ends::<P, G, E, A>(tree.state),
    ensures
        tree.best_action() is Some <==> tree.children.len() > 0,
        tree.best_action() matches Some(best) ==> tree.moves().contains(best),
        tree.outcome() is Some ==> tree.searched(n).best_action() is None,
        tree.outcome() is None && n > 0 ==> tree.searched(n).best_action() is Some,
{
    if tree.children.len() > 0 {
        lemma_first_max(tree.visit_counts());
        tree.lemma_child(first_max(tree.visit_counts()));
    }
    tree.lemma_searched(n);
    let after = tree.searched(n);
    if tree.outcome() is Some {
        after.lemma_end_has_no_children();
    } else if n > 0 {
        tree.lemma_searched((n - 1) as nat);
        tree.searched((n - 1) as nat).lemma_simulate(tree.mover());
        lemma_moves_iff_running::<P, G, E, A>(tree.state);
        lemma_first_max(after.visit_counts());
        after.lemma_child(first_max(after.visit_counts()));
    }
}

/// Where `==` on moves is equality, the root can be advanced by `action`
/// exactly if `action` is a move of the position at the root. The new tree
/// is then the subtree of the child that `action` leads to, with that
/// child's statistics and nothing of its siblings: it stands for the
/// position after the move and is well formed.
pub proof fn law_advance_iff_legal<P, G, E, A, T>(tree: NodeView<P, G, E, A, T>, action: A) where
    P: Player<E>,
    G: GameState<P, E, A>,
    E: EndStatus,
    A: Action,
    T: TreePolicy,

    requires
        tree.well_formed(),
        obeys_concrete_eq::<A>(),
    ensures
        tree.advance(action) is Some <==> tree.moves().contains(action),
        tree.advance(action) matches Some(next) ==> {
            &&& next.state == tree.state.spec_act(&action)
            &&& next.last_action == Some(action)
            &&& next.well_formed()
            &&& game_ends::<P, G, E, A>(tree.state) ==> game_ends::<P, G, E, A>(next.state)
            &&& exists|i: int|
                0 <= i < tree.moves().len() && tree.moves()[i] == action && next
                    == #[trigger] tree.expand().children[i]
        },
{
    reveal(obeys_concrete_eq);
    let grown = tree.expand();
    let hits = grown.reached_by(action);
    tree.lemma_expand();
    lemma_first_true(hits);
    assert forall|i: int| 0 <= i < grown.children.len() implies (hits[i] <==> tree.moves()[i]
        == action) by {
        grown.lemma_child(i);
    }
    match first_true(hits) {
        Some(i) => {
            grown.lemma_child(i);
            assert(tree.moves()[i] == action);
            if game_ends::<P, G, E, A>(tree.state) {
                lemma_move_shortens::<P, G, E, A>(tree.state, i);
            }
        },
        None => {
            if tree.moves().contains(action) {
                let i = choose|i: int| 0 <= i < tree.moves().len() && tree.moves()[i] == action;
                assert(hits[i]);
            }
        },
    }
}

/// Two trees made for the same position with the same policy are the
/// same tree after the same number of searches, and the move to play is the
/// same.
pub proof fn law_search_is_deterministic<P, G, E, A, T>(
    first: NodeView<P, G, E, A, T>,
    second: NodeView<P, G, E, A, T>,
    n: nat,
) where P: Player<E>, G: GameState<P, E, A>, E: EndStatus, A: Action, T: TreePolicy
    requires
        first == NodeView::<P, G, E, A, T>::fresh(first.state, None, first.policy),
        second == NodeView::<P, G, E, A, T>::fresh(second.state, None, second.policy),
        first.state == second.state,
        first.policy == second.policy,
    ensures
        first.searched(n) == second.searched(n),
        first.searched(n).best_action() == second.searched(n).best_action(),
{
}

} // verus!
