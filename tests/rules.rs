use cellular_automaton::rules::{Rule, Rules};

#[test]
fn earlier_rule_wins() {
    let rules = Rules::new(vec![Rule::new(vec![1, 2], 5), Rule::new(vec![1, 2], 7)]);
    assert_eq!(rules.apply(&[1, 2]), Some(5));
    assert_eq!(rules.apply(&[1, 2]), Some(5));
}

#[test]
fn later_rule_matches_when_earlier_differs() {
    let rules = Rules::new(vec![Rule::new(vec![0, 0], 5), Rule::new(vec![1, 2], 7)]);
    assert_eq!(rules.apply(&[1, 2]), Some(7));
}

#[test]
fn no_rule_matches() {
    let rules = Rules::new(vec![Rule::new(vec![1, 2], 5)]);
    assert_eq!(rules.apply(&[2, 1]), None);
    assert_eq!(rules.apply(&[1, 2, 0]), None);
    assert_eq!(Rules::new(vec![]).apply(&[1]), None);
}
