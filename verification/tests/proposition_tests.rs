use std::collections::HashSet;

use graphplan::proposition::Proposition;

#[derive(PartialEq, Clone, Hash, Eq)]
enum Props {
    A,
    B,
}

impl From<Props> for Proposition<Props> {
    fn from(prop: Props) -> Self {
        Self::new(prop, false)
    }
}

#[test]
fn propositions_can_be_negated() {
    // Sanity check
    assert_eq!(Proposition::from("test"), Proposition::from("test"));
    let p1 = Proposition::from("test");

    assert!(false == p1.negation);
    assert!(true == Proposition::from("test").negate().negation);

    let p2 = Proposition::from("test").negate();

    assert!(p2.is_negation(&p1), "{:?} is not a negation of {:?}", p1, p2);

    assert!(p1.is_negation(&p2));
}

#[test]
fn proposition_hashing_works() {
    let set = HashSet::from([Proposition::from("caffeinated")]);
    assert!(set.contains(&Proposition::from("caffeinated")));

    let set = HashSet::from([Proposition::from("caffeinated").negate()]);
    assert!(set.contains(&Proposition::from("caffeinated").negate()));

    let set = HashSet::from([Proposition::from("caffeinated").negate()]);
    assert!(!set.contains(&Proposition::from("caffeinated")));
}

#[test]
fn proposition_ids_are_extensible() {
    let p1 = Proposition::from(Props::A);
    let p2 = Proposition::from(Props::B);
    let set = HashSet::from([p1.clone()]);
    assert!(set.contains(&p1));
    assert!(!set.contains(&p2));
}

#[test]
fn negation_is_involutive_on_values() {
    let p = Proposition::from("tired");
    assert_eq!(p.negate().negate(), p);
    let q = Proposition::from("tired").negate();
    assert_eq!(q.negate().negate(), q);
}

#[test]
fn negation_symmetry_on_values() {
    let p = Proposition::from("fed");
    let q = p.negate();
    assert_eq!(p.is_negation(&q), q.is_negation(&p));
    let r = Proposition::from("other");
    assert_eq!(p.is_negation(&r), r.is_negation(&p));
}
