use mctser::{Action, EndStatus, GameState, Node, Player, SearchTree, TreePolicy};
use std::rc::Rc;

// A game given by a table.
//
//            0 (Ann to move)
//           /               \
//      1 (Bob to move)       2: ends in Left
//      /            \
//  3: ends in Mid    4: ends in Right

#[derive(Clone, Copy, PartialEq, Eq, Debug)]
enum Who {
    Ann,
    Bob,
}

#[derive(Clone, Copy, PartialEq, Eq, Debug)]
enum Ending {
    Left,
    Mid,
    Right,
}

#[derive(Clone, Copy, PartialEq, Eq, Debug)]
struct Branch(u8);

#[derive(Clone, Copy, PartialEq, Eq, Debug)]
struct Place(u8);

impl EndStatus for Ending {}

impl Action for Branch {}

impl Player<Ending> for Who {
    fn reward_when_outcome_is(&self, outcome: &Ending) -> i64 {
        match (self, outcome) {
            (Who::Ann, Ending::Left) => 1,
            (Who::Ann, Ending::Mid) => 3,
            (Who::Ann, Ending::Right) => 0,
            (Who::Bob, Ending::Left) => 5,
            (Who::Bob, Ending::Mid) => 0,
            (Who::Bob, Ending::Right) => 2,
        }
    }
}

impl GameState<Who, Ending, Branch> for Place {
    fn player(&self) -> Who {
        match self.0 {
            0 => Who::Ann,
            _ => Who::Bob,
        }
    }

    fn end_status(&self) -> Option<Ending> {
        match self.0 {
            2 => Some(Ending::Left),
            3 => Some(Ending::Mid),
            4 => Some(Ending::Right),
            _ => None,
        }
    }

    fn possible_actions(&self) -> Vec<Branch> {
        match self.0 {
            0 | 1 => vec![Branch(0), Branch(1)],
            _ => vec![],
        }
    }

    fn act(&self, action: &Branch) -> Self {
        match (self.0, action.0) {
            (0, 0) => Place(1),
            (0, 1) => Place(2),
            (1, 0) => Place(3),
            (1, 1) => Place(4),
            _ => panic!("not a move of this place"),
        }
    }
}

// Greedy goes for the best average reward, Stingy for the worst.
#[derive(Clone, Copy, PartialEq, Eq, Debug)]
enum Taste {
    Greedy,
    Stingy,
}

impl Default for Taste {
    fn default() -> Self {
        Taste::Greedy
    }
}

impl TreePolicy for Taste {
    fn score(&self, wi: i128, ni: u64, _np: u64) -> i64 {
        let average = (wi * 1000 / ni as i128) as i64;
        match self {
            Taste::Greedy => average,
            Taste::Stingy => -average,
        }
    }
}

type Tree = SearchTree<Who, Place, Ending, Branch, Taste>;
type TreeNode = Node<Who, Place, Ending, Branch, Taste>;

fn tree_at(place: u8) -> Tree {
    Tree::new(Rc::new(Place(place)))
}

fn stats(node: &TreeNode) -> (u64, i128) {
    (node.ni(), node.wi())
}

// (place, visits, wins) of every node, parents before children.
fn snapshot(node: &TreeNode, out: &mut Vec<(u8, u64, i128)>) {
    out.push((node.state().0, node.ni(), node.wi()));
    for child in node.child_nodes().iter() {
        snapshot(child, out);
    }
}

fn snapshot_of(tree: &Tree) -> Vec<(u8, u64, i128)> {
    let mut out = Vec::new();
    snapshot(tree.root_node(), &mut out);
    out
}

// What the playthroughs that ended at or below `node` were worth to `player`.
fn worth_below(node: &TreeNode, player: Who) -> i128 {
    match node.state().end_status() {
        Some(outcome) => node.ni() as i128 * player.reward_when_outcome_is(&outcome) as i128,
        None => node.child_nodes().iter().map(|c| worth_below(c, player)).sum(),
    }
}

fn arrivals_below(node: &TreeNode) -> u64 {
    match node.state().end_status() {
        Some(_) => node.ni(),
        None => node.child_nodes().iter().map(arrivals_below).sum(),
    }
}

fn check_statistics(node: &TreeNode) {
    assert_eq!(node.ni(), arrivals_below(node));
    let mover = node.state().player();
    for child in node.child_nodes().iter() {
        assert_eq!(child.wi(), worth_below(child, mover));
        check_statistics(child);
    }
}

#[test]
fn new_tree_has_no_statistics_and_no_children() {
    let tree = tree_at(0);
    assert_eq!(stats(tree.root_node()), (0, 0));
    assert!(tree.root_node().child_nodes().is_empty());
    assert_eq!(*tree.get_game_state(), Place(0));
    assert_eq!(*tree.root_node().state(), Place(0));
}

#[test]
fn the_state_handed_in_is_the_state_handed_out() {
    let state = Rc::new(Place(0));
    let tree = Tree::new(state.clone());
    let out = tree.get_game_state();
    assert!(Rc::ptr_eq(&state, &out));
    assert!(Rc::ptr_eq(&state, &tree.root_node().state()));
    assert_eq!(Rc::strong_count(&state), 3);
}

#[test]
fn search_of_zero_iterations_has_nothing_to_say() {
    let mut tree = tree_at(0);
    assert_eq!(tree.search(0), None);
    assert_eq!(snapshot_of(&tree), vec![(0, 0, 0)]);
}

#[test]
fn search_at_an_end_counts_and_has_nothing_to_say() {
    let mut tree = tree_at(2);
    assert_eq!(tree.search(3), None);
    // counted for Bob, who is to move at place 2
    assert_eq!(snapshot_of(&tree), vec![(2, 3, 15)]);
}

#[test]
fn first_playthrough_goes_down_the_first_moves() {
    let mut tree = tree_at(0);
    assert_eq!(tree.search(1), Some(Branch(0)));
    assert_eq!(
        snapshot_of(&tree),
        vec![(0, 1, 3), (1, 1, 3), (3, 1, 0), (4, 0, 0), (2, 0, 0)]
    );
}

#[test]
fn every_child_is_tried_before_the_policy_is_asked() {
    let mut tree = tree_at(0);
    tree.search(2);
    assert_eq!(
        snapshot_of(&tree),
        vec![(0, 2, 4), (1, 1, 3), (3, 1, 0), (4, 0, 0), (2, 1, 1)]
    );
    tree.search(1);
    assert_eq!(
        snapshot_of(&tree),
        vec![(0, 3, 4), (1, 2, 3), (3, 1, 0), (4, 1, 2), (2, 1, 1)]
    );
}

#[test]
fn equal_visit_counts_give_the_first_move() {
    let mut tree = tree_at(0);
    let selected = tree.search(2);
    let children = tree.root_node().child_nodes();
    assert_eq!(children[0].ni(), children[1].ni());
    assert_eq!(selected, Some(Branch(0)));
}

#[test]
fn equal_scores_give_the_first_child() {
    let mut tree = tree_at(0);
    tree.search(4);
    assert_eq!(
        snapshot_of(&tree),
        vec![(0, 4, 4), (1, 3, 3), (3, 1, 0), (4, 2, 4), (2, 1, 1)]
    );
    // both children of the root now average 1 for Ann
    tree.search(1);
    assert_eq!(
        snapshot_of(&tree),
        vec![(0, 5, 4), (1, 4, 3), (3, 1, 0), (4, 3, 6), (2, 1, 1)]
    );
}

#[test]
fn seven_playthroughs_leave_these_statistics() {
    let mut tree = tree_at(0);
    assert_eq!(tree.search(7), Some(Branch(0)));
    assert_eq!(
        snapshot_of(&tree),
        vec![(0, 7, 6), (1, 4, 3), (3, 1, 0), (4, 3, 6), (2, 3, 3)]
    );
}

#[test]
fn most_visited_child_wins_even_if_it_is_not_the_first() {
    let mut tree = tree_at(0);
    assert_eq!(tree.search(20), Some(Branch(1)));
    let children = tree.root_node().child_nodes();
    assert!(children[1].ni() > children[0].ni());
    assert_eq!(children[0].ni() + children[1].ni(), 20);
}

#[test]
fn two_searches_add_up_to_one() {
    let mut split = tree_at(0);
    split.search(3);
    let second = split.search(4);
    let mut whole = tree_at(0);
    let once = whole.search(7);
    assert_eq!(snapshot_of(&split), snapshot_of(&whole));
    assert_eq!(second, once);
}

#[test]
fn fresh_searches_agree() {
    let mut first = tree_at(0);
    let mut second = tree_at(0);
    assert_eq!(first.search(13), second.search(13));
    assert_eq!(snapshot_of(&first), snapshot_of(&second));
}

#[test]
fn statistics_count_the_playthroughs_below() {
    let mut tree = tree_at(0);
    for n in [0, 1, 1, 2, 5, 40] {
        tree.search(n);
        check_statistics(tree.root_node());
    }
    assert_eq!(tree.root_node().ni(), 49);
}

#[test]
fn renew_moves_the_root_to_the_child_and_keeps_its_statistics() {
    let mut tree = tree_at(0);
    tree.search(7);
    assert_eq!(tree.renew(&Branch(0)), Ok(()));
    assert_eq!(*tree.get_game_state(), Place(1));
    assert_eq!(snapshot_of(&tree), vec![(1, 4, 3), (3, 1, 0), (4, 3, 6)]);
    // Bob moves at the new root, and Right is worth 2 to him
    assert_eq!(tree.search(1), Some(Branch(1)));
    assert_eq!(snapshot_of(&tree), vec![(1, 5, 5), (3, 1, 0), (4, 4, 8)]);
    check_statistics(tree.root_node());
}

#[test]
fn renew_works_without_a_search() {
    let mut tree = tree_at(0);
    assert_eq!(tree.renew(&Branch(1)), Ok(()));
    assert_eq!(*tree.get_game_state(), Place(2));
    assert_eq!(snapshot_of(&tree), vec![(2, 0, 0)]);
}

#[test]
fn renew_refuses_what_is_no_move() {
    let mut tree = tree_at(0);
    tree.search(7);
    let before = snapshot_of(&tree);
    assert_eq!(
        tree.renew(&Branch(2)),
        Err("The state is not a child of the root node".to_string())
    );
    assert_eq!(*tree.get_game_state(), Place(0));
    assert_eq!(snapshot_of(&tree), before);
}

#[test]
fn renew_at_an_end_refuses_every_move() {
    let mut tree = tree_at(3);
    assert!(tree.renew(&Branch(0)).is_err());
    assert!(tree.renew(&Branch(1)).is_err());
    assert_eq!(snapshot_of(&tree), vec![(3, 0, 0)]);
}

#[test]
fn expanding_twice_is_expanding_once() {
    let mut tree = tree_at(0);
    assert!(tree.renew(&Branch(9)).is_err());
    let once = snapshot_of(&tree);
    assert_eq!(once, vec![(0, 0, 0), (1, 0, 0), (2, 0, 0)]);
    assert!(tree.renew(&Branch(9)).is_err());
    assert_eq!(snapshot_of(&tree), once);
    tree.search(1);
    assert_eq!(tree.root_node().child_nodes().len(), 2);
}

#[test]
fn another_policy_changes_the_choice() {
    let mut tree = tree_at(0).with_tree_policy(Taste::Stingy);
    tree.search(7);
    // Stingy stays with the second child, which averages 1 against 3
    assert_eq!(
        snapshot_of(&tree),
        vec![(0, 7, 9), (1, 1, 3), (3, 1, 0), (4, 0, 0), (2, 6, 6)]
    );
}

#[test]
fn a_node_keeps_the_policy_it_was_made_with() {
    let mut tree = tree_at(0);
    tree.search(4);
    let mut tree = tree.with_tree_policy(Taste::Stingy);
    // The root is Stingy now and on a tie goes to its first child, which is
    // Greedy as before and goes on to its second.
    tree.search(1);
    assert_eq!(
        snapshot_of(&tree),
        vec![(0, 5, 4), (1, 4, 3), (3, 1, 0), (4, 3, 6), (2, 1, 1)]
    );
    // Then the root prefers the lower average of its first child.
    tree.search(1);
    assert_eq!(
        snapshot_of(&tree),
        vec![(0, 6, 4), (1, 5, 3), (3, 1, 0), (4, 4, 8), (2, 1, 1)]
    );
}

#[test]
fn children_made_later_get_the_policy_of_then() {
    let mut tree = tree_at(0).with_tree_policy(Taste::Stingy);
    tree.search(2);
    assert_eq!(tree.renew(&Branch(0)), Ok(()));
    // The new root was made under the Stingy root: of Mid worth 0 and
    // Right worth 2 to Bob it keeps to Mid.
    tree.search(6);
    assert_eq!(snapshot_of(&tree), vec![(1, 7, 5), (3, 6, 0), (4, 1, 2)]);
}
