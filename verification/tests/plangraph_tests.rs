use graphplan::action::Action;
use graphplan::pairset::{pairs_from_sets, MutexPairs};
use graphplan::plangraph::{GraphplanError, PlanGraph};
use graphplan::proposition::Proposition;
use graphplan::solver::SimpleSolver;

fn morning_domain() -> PlanGraph<String, &'static str> {
    let tired = Proposition::from("tired");
    let rested = tired.negate();
    let dog = Proposition::from("dog needs to pee");
    let walked = dog.negate();
    let coffee = Action::new(
        String::from("coffee"),
        vec![tired.clone()],
        vec![rested.clone()],
    );
    let walk = Action::new(
        String::from("walk dog"),
        vec![dog.clone(), rested.clone()],
        vec![walked.clone()],
    );
    PlanGraph::new(
        vec![tired.clone(), dog.clone()],
        vec![rested.clone(), walked.clone()],
        vec![coffee, walk],
    )
}

#[test]
fn end_to_end_search_finds_the_two_step_plan() {
    let mut pg = morning_domain();
    let solver = SimpleSolver::default();
    let plan = pg.search_with(&solver).expect("a plan should exist");
    let plan = PlanGraph::format_plan(plan);
    let names: Vec<Vec<String>> = plan
        .iter()
        .map(|group| {
            group
                .iter()
                .map(|a| format!("{:?}", a.id))
                .collect::<Vec<String>>()
        })
        .collect();
    assert_eq!(
        names,
        vec![
            vec![String::from("Act(\"coffee\")")],
            vec![String::from("Act(\"walk dog\")")]
        ]
    );
}

#[test]
fn search_is_deterministic_across_runs() {
    let mut pg1 = morning_domain();
    let mut pg2 = morning_domain();
    let solver = SimpleSolver::default();
    let plan1 = PlanGraph::format_plan(pg1.search_with(&solver).unwrap());
    let plan2 = PlanGraph::format_plan(pg2.search_with(&solver).unwrap());
    assert_eq!(plan1, plan2);
    assert_eq!(format!("{:?}", plan1), format!("{:?}", plan2));
}

#[test]
fn single_goal_plan_has_one_step() {
    let coffee = Proposition::from("coffee");
    let caffeinated = Proposition::from("caffeinated");
    let drink = Action::new(
        String::from("drink-coffee"),
        vec![coffee.clone()],
        vec![caffeinated.clone()],
    );
    let mut pg = PlanGraph::new(
        vec![coffee.clone()],
        vec![caffeinated.clone()],
        vec![drink.clone()],
    );
    let solver = SimpleSolver::default();
    let plan = PlanGraph::format_plan(pg.search_with(&solver).unwrap());
    assert_eq!(plan, vec![vec![drink]]);
}

#[test]
fn unreachable_goal_levels_off_to_no_plan() {
    let tired = Proposition::from("tired");
    let caffeinated = Proposition::from("caffeinated");
    let nap = Action::new(
        String::from("nap"),
        vec![tired.clone()],
        vec![tired.negate()],
    );
    let mut pg = PlanGraph::new(
        vec![tired.clone()],
        vec![caffeinated.clone()],
        vec![nap],
    );
    let solver = SimpleSolver::default();
    assert_eq!(pg.search_with(&solver), None);
}

#[test]
fn actions_at_layer_reports_lookup_errors() {
    let mut pg = morning_domain();
    pg.extend();
    assert_eq!(
        pg.actions_at_layer(7).unwrap_err(),
        GraphplanError::LayerOutOfRange
    );
    assert_eq!(
        pg.actions_at_layer(0).unwrap_err(),
        GraphplanError::NotAnActionLayer
    );
    assert_eq!(
        pg.actions_at_layer(2).unwrap_err(),
        GraphplanError::NotAnActionLayer
    );
    let acts = pg.actions_at_layer(1).unwrap();
    let names: Vec<String> = acts.iter().map(|a| format!("{:?}", a.id)).collect();
    // coffee applies from the initial layer; walking the dog does not, and
    // each initial fact persists
    assert_eq!(
        names,
        vec![
            String::from("Act(\"coffee\")"),
            String::from("Persist(Proposition { id: \"tired\", negation: false })"),
            String::from("Persist(Proposition { id: \"dog needs to pee\", negation: false })"),
        ]
    );
}

#[test]
fn format_plan_drops_persistence_steps() {
    let fact = Proposition::from("fact");
    let keep = Action::new_persist(fact.clone());
    let act = Action::new(String::from("do"), vec![fact.clone()], vec![fact.negate()]);
    let plan = vec![vec![keep, act.clone()]];
    assert_eq!(PlanGraph::format_plan(plan), vec![vec![act]]);
}

#[test]
fn pairs_from_sets_builds_all_cross_pairs() {
    let s: Vec<u64> = vec![1, 2];
    let t: Vec<u64> = vec![3];
    let pairs = pairs_from_sets(&s, &t);
    assert!(pairs.contains_pair(&1, &3));
    assert!(pairs.contains_pair(&3, &1));
    assert!(pairs.contains_pair(&2, &3));
    assert!(!pairs.contains_pair(&1, &2));
    assert_eq!(pairs.pairs().len(), 2);
}

#[test]
fn mutex_pairs_membership_is_symmetric() {
    let mut m: MutexPairs<u64> = MutexPairs::new();
    m.insert(5, 9);
    assert!(m.contains_pair(&5, &9));
    assert!(m.contains_pair(&9, &5));
    assert!(!m.contains_pair(&5, &5));
    let mut other: MutexPairs<u64> = MutexPairs::new();
    other.insert(9, 5);
    assert!(m.same_pairs(&other));
}
