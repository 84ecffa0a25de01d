use std::collections::BTreeSet;

use graphplan::action::Action;
use graphplan::pairset::MutexPairs;
use graphplan::plangraph::PlanGraph;
use graphplan::proposition::Proposition;
use graphplan::solver::{
    ActionCombination, ActionCombinationIterator, GoalSetActionGenerator, GraphPlanSolver,
    SimpleSolver,
};

#[test]
fn single_goal() {
    let p1 = Proposition::from("coffee");
    let p2 = Proposition::from("caffeinated");
    let goals = vec![p2.clone()];
    let mut actions = Vec::new();
    let a1 = Action::new(
        String::from("drink coffee"),
        vec![p1.clone()],
        vec![p2.clone()],
    );
    actions.push(a1.clone());
    let mutexes = Some(MutexPairs::new());
    let expected = ActionCombination::new(vec![a1]);
    let actual = ActionCombinationIterator::new(GoalSetActionGenerator::new(
        goals, actions, mutexes,
    ))
    .next()
    .unwrap();
    assert_eq!(expected, actual);
}

#[test]
fn multiple_goals() {
    let p1 = Proposition::from("coffee");
    let p2 = Proposition::from("caffeinated");
    let p3 = Proposition::from("breakfast");
    let p4 = Proposition::from("full");
    let goals = vec![p2.clone(), p4.clone()];
    let mut actions = Vec::new();
    let a1 = Action::new(
        String::from("drink coffee"),
        vec![p1.clone()],
        vec![p2.clone()],
    );
    actions.push(a1.clone());

    let a2 = Action::new(
        String::from("eat breakfast"),
        vec![p3.clone()],
        vec![p4.clone()],
    );
    actions.push(a2.clone());

    let mutexes = Some(MutexPairs::new());
    let expected = ActionCombination::new(vec![a1.clone(), a2.clone()]);
    let actual = ActionCombinationIterator::new(GoalSetActionGenerator::new(
        goals, actions, mutexes,
    ))
    .next()
    .unwrap();
    assert_eq!(expected, actual);
}

#[test]
fn yields_all() {
    let p1 = Proposition::from("tea");
    let p2 = Proposition::from("coffee");
    let p3 = Proposition::from("caffeinated");
    let p4 = Proposition::from("scone");
    let p5 = Proposition::from("muffin");
    let p6 = Proposition::from("full");
    let goals = vec![p3.clone(), p6.clone()];
    let mut actions = Vec::new();

    let a1 = Action::new(String::from("drink coffee"), vec![p2.clone()], vec![p3.clone()]);
    actions.push(a1.clone());

    let a2 = Action::new(String::from("drink tea"), vec![p1.clone()], vec![p3.clone()]);
    actions.push(a2.clone());

    let a3 = Action::new(String::from("eat scone"), vec![p4.clone()], vec![p6.clone()]);
    actions.push(a3.clone());

    let a4 = Action::new(String::from("eat muffin"), vec![p5.clone()], vec![p6.clone()]);
    actions.push(a4.clone());

    let mutexes = Some(MutexPairs::new());
    let expected = vec![
        vec![a1.clone(), a4.clone()],
        vec![a1.clone(), a3.clone()],
        vec![a2.clone(), a4.clone()],
        vec![a2.clone(), a3.clone()],
    ];
    let mut generator =
        ActionCombinationIterator::new(GoalSetActionGenerator::new(goals, actions, mutexes));
    let mut actual: Vec<Vec<Action<String, &'static str>>> = Vec::new();
    while let Some(combo) = generator.next() {
        actual.push(combo.as_vec());
    }
    assert_eq!(expected, actual);
}

#[test]
fn solver_works() {
    let p1 = Proposition::from("tired");
    let not_p1 = p1.negate();
    let p2 = Proposition::from("dog needs to pee");
    let not_p2 = p2.negate();

    let a1 = Action::new(
        String::from("coffee"),
        vec![p1.clone()],
        vec![not_p1.clone()],
    );

    let a2 = Action::new(
        String::from("walk dog"),
        vec![p2.clone(), not_p1.clone()],
        vec![not_p2.clone()],
    );

    let goals = vec![not_p1.clone(), not_p2.clone()];

    let mut pg = PlanGraph::new(
        vec![p1.clone(), p2.clone()],
        goals,
        vec![a1.clone(), a2.clone()],
    );
    pg.extend();
    pg.extend();

    let solver = SimpleSolver::default();
    let expected = vec![vec![a1.clone()], vec![a2.clone()]];
    let plan = solver.search(&pg);
    let actual = PlanGraph::format_plan(plan.unwrap());
    assert_eq!(expected, actual);
}

#[test]
fn is_sorted() {
    let mut b = BTreeSet::new();
    b.insert(2);
    b.insert(3);
    b.insert(1);
    assert_eq!(b.into_iter().collect::<Vec<_>>(), vec![1, 2, 3]);

    let mut b = BTreeSet::new();
    b.insert(1);
    b.insert(2);
    b.insert(3);
    assert_eq!(b.into_iter().collect::<Vec<_>>(), vec![1, 2, 3]);
}

#[test]
fn generator_is_exhausted_after_last_combination() {
    let need = Proposition::from("coffee");
    let goal = Proposition::from("caffeinated");
    let a1 = Action::new(String::from("drink coffee"), vec![need.clone()], vec![goal.clone()]);
    let mut generator = ActionCombinationIterator::new(GoalSetActionGenerator::new(
        vec![goal.clone()],
        vec![a1.clone()],
        Some(MutexPairs::new()),
    ));
    assert_eq!(Some(ActionCombination::new(vec![a1])), generator.next());
    assert_eq!(None, generator.next());
    assert_eq!(None, generator.next());
}

#[test]
fn generator_without_mutex_table_is_unconstrained() {
    // an absent conflict relation forbids nothing, exactly as an empty one
    let need = Proposition::from("coffee");
    let goal = Proposition::from("caffeinated");
    let a1 = Action::new(String::from("drink coffee"), vec![need.clone()], vec![goal.clone()]);
    let mut generator = ActionCombinationIterator::new(GoalSetActionGenerator::new(
        vec![goal.clone()],
        vec![a1.clone()],
        None,
    ));
    assert_eq!(Some(ActionCombination::new(vec![a1])), generator.next());
    assert_eq!(None, generator.next());
}

#[test]
fn mutex_pair_blocks_a_combination() {
    let want_a = Proposition::from("a");
    let want_b = Proposition::from("b");
    let pre = Proposition::from("start");
    let a1 = Action::new(String::from("make a"), vec![pre.clone()], vec![want_a.clone()]);
    let a2 = Action::new(String::from("make b"), vec![pre.clone()], vec![want_b.clone()]);
    let mut mutexes = MutexPairs::new();
    mutexes.insert(a1.clone(), a2.clone());
    let mut generator = ActionCombinationIterator::new(GoalSetActionGenerator::new(
        vec![want_a.clone(), want_b.clone()],
        vec![a1.clone(), a2.clone()],
        Some(mutexes),
    ));
    assert_eq!(None, generator.next());
}

#[test]
fn as_set_deduplicates_shared_actions() {
    let coffee = Proposition::from("coffee");
    let buzz = Proposition::from("caffeinated");
    let awake = Proposition::from("awake");
    let drink = Action::new(
        String::from("drink coffee"),
        vec![coffee.clone()],
        vec![buzz.clone(), awake.clone()],
    );
    // the same action chosen for both goals appears once in the set view
    let combo = ActionCombination::new(vec![drink.clone(), drink.clone()]);
    assert_eq!(combo.as_set(), vec![drink.clone()]);
    assert_eq!(combo.as_vec(), vec![drink.clone(), drink]);
}
