use mctser::{Action, EndStatus, GameState, Player, SearchTree, TreePolicy};
use std::rc::Rc;

// A game that is over at once, with rewards at the ends of the range.

#[derive(Clone, Copy, PartialEq, Eq, Debug)]
struct Pass;

#[derive(Clone, Copy, PartialEq, Eq, Debug)]
struct Over;

#[derive(Clone, Copy, PartialEq, Eq, Debug)]
struct Fan(i64);

#[derive(Clone, Copy, PartialEq, Eq, Debug)]
struct Still(i64);

#[derive(Default)]
struct Flat;

impl EndStatus for Over {}

impl Action for Pass {}

impl Player<Over> for Fan {
    fn reward_when_outcome_is(&self, _outcome: &Over) -> i64 {
        self.0
    }
}

impl GameState<Fan, Over, Pass> for Still {
    fn player(&self) -> Fan {
        Fan(self.0)
    }

    fn end_status(&self) -> Option<Over> {
        Some(Over)
    }

    fn possible_actions(&self) -> Vec<Pass> {
        vec![]
    }

    fn act(&self, _action: &Pass) -> Self {
        panic!("the game is over")
    }
}

impl TreePolicy for Flat {
    fn score(&self, _wi: i128, _ni: u64, _np: u64) -> i64 {
        0
    }
}

type Tree = SearchTree<Fan, Still, Over, Pass, Flat>;

#[test]
fn largest_rewards_add_up_without_overflow() {
    let mut tree = Tree::new(Rc::new(Still(i64::MAX)));
    assert_eq!(tree.search(3), None);
    assert_eq!(tree.root_node().ni(), 3);
    assert_eq!(tree.root_node().wi(), 3 * i64::MAX as i128);
}

#[test]
fn smallest_rewards_add_up_without_overflow() {
    let mut tree = Tree::new(Rc::new(Still(i64::MIN)));
    assert_eq!(tree.search(1000), None);
    assert_eq!(tree.root_node().ni(), 1000);
    assert_eq!(tree.root_node().wi(), 1000 * i64::MIN as i128);
}

#[test]
fn negative_rewards_take_away() {
    let mut tree = Tree::new(Rc::new(Still(-7)));
    tree.search(2);
    tree.search(3);
    assert_eq!(tree.root_node().wi(), -35);
    assert!(tree.renew(&Pass).is_err());
}
