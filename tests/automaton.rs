use cellular_automaton::automaton::Automaton;
use cellular_automaton::grid::{Grid, GridError};
use cellular_automaton::rules::{Rule, Rules};

fn rule_110() -> Rules {
    Rules::new(vec![
        Rule::new(vec![0, 0, 0], 0),
        Rule::new(vec![0, 0, 1], 1),
        Rule::new(vec![0, 1, 0], 1),
        Rule::new(vec![0, 1, 1], 1),
        Rule::new(vec![1, 0, 0], 0),
        Rule::new(vec![1, 0, 1], 1),
        Rule::new(vec![1, 1, 0], 1),
        Rule::new(vec![1, 1, 1], 0),
    ])
}

fn rule_110_start() -> Vec<u32> {
    let mut grid = vec![0u32; 26];
    grid[5] = 1;
    grid[8] = 1;
    grid[12] = 1;
    grid[18] = 1;
    grid
}

#[test]
fn test_advance_generation() -> Result<(), GridError> {
    let rule = Rule::new(vec![1, 2, 3], 4);
    let rules_vec = vec![rule];
    let rules = Rules::new(rules_vec);
    let dims = vec![3];
    let mut grid = vec![0u32; 3];
    grid[0] = 1;
    grid[1] = 2;
    grid[2] = 3;

    let mut automaton = Automaton::new(Grid::new(dims, grid.clone())?, rules);
    assert_eq!(grid, automaton.grid().snapshot());
    automaton.advance()?;
    let g = automaton.grid().snapshot();
    assert_eq!(g.as_slice(), [1, 4, 3]);
    Ok(())
}

#[test]
fn test_rule_110() -> Result<(), GridError> {
    let rules = rule_110();
    let dims = vec![26];
    let grid = rule_110_start();

    let mut automaton = Automaton::new(Grid::new(dims, grid.clone())?, rules);
    assert_eq!(grid, automaton.grid().snapshot());
    automaton.advance()?;
    let g = automaton.grid().snapshot();
    assert_eq!(
        g.as_slice(),
        [0, 0, 0, 0, 1, 1, 0, 1, 1, 0, 0, 1, 1, 0, 0, 0, 0, 1, 1, 0, 0, 0, 0, 0, 0, 0]
    );
    Ok(())
}

#[test]
fn test_rule_110_1000_generations() -> Result<(), GridError> {
    let rules = rule_110();
    let dims = vec![26];
    let grid = rule_110_start();

    let mut automaton = Automaton::new(Grid::new(dims, grid.clone())?, rules);
    assert_eq!(grid, automaton.grid().snapshot());
    automaton.advance_multi(1000)?;
    let g = automaton.grid().snapshot();
    assert_eq!(
        g.as_slice(),
        [1, 1, 0, 1, 1, 1, 1, 1, 0, 0, 0, 1, 0, 0, 1, 1, 0, 1, 1, 1, 0, 0, 0, 1, 0, 0]
    );
    assert_eq!(automaton.generation(), 1000);
    Ok(())
}

#[test]
fn new_automaton_starts_at_generation_zero() {
    let values: Vec<u32> = (0..24).collect();
    let grid = Grid::new(vec![2, 3, 4], values.clone()).unwrap();
    let automaton = Automaton::new(grid, rule_110());
    assert_eq!(automaton.generation(), 0);
    assert_eq!(automaton.grid().snapshot(), values);
    assert_eq!(automaton.grid().dims(), &vec![2, 3, 4]);
}

#[test]
fn advance_multi_zero_changes_nothing() {
    let grid = Grid::new(vec![26], rule_110_start()).unwrap();
    let mut automaton = Automaton::new(grid, rule_110());
    automaton.advance().unwrap();
    let before = automaton.grid().snapshot();
    assert_eq!(automaton.advance_multi(0), Ok(()));
    assert_eq!(automaton.grid().snapshot(), before);
    assert_eq!(automaton.generation(), 1);
}

#[test]
fn advance_multi_matches_repeated_advance() {
    let mut one_by_one = Automaton::new(Grid::new(vec![26], rule_110_start()).unwrap(), rule_110());
    let mut at_once = Automaton::new(Grid::new(vec![26], rule_110_start()).unwrap(), rule_110());
    for _ in 0..37 {
        one_by_one.advance().unwrap();
    }
    at_once.advance_multi(37).unwrap();
    assert_eq!(one_by_one.grid().snapshot(), at_once.grid().snapshot());
    assert_eq!(one_by_one.generation(), 37);
    assert_eq!(at_once.generation(), 37);
}

#[test]
fn advance_reads_only_the_previous_generation() {
    let rules = Rules::new(vec![Rule::new(vec![0, 1, 0], 0), Rule::new(vec![1, 0, 0], 1)]);
    let mut automaton = Automaton::new(Grid::new(vec![4], vec![0, 1, 0, 0]).unwrap(), rules);
    automaton.advance().unwrap();
    assert_eq!(automaton.grid().snapshot(), vec![0, 0, 1, 0]);
    assert_eq!(automaton.generation(), 1);
}

#[test]
fn advance_on_two_dimensions() {
    let rules = Rules::new(vec![Rule::new(vec![0; 9], 2)]);
    let mut automaton = Automaton::new(Grid::new(vec![2, 3], vec![0; 6]).unwrap(), rules);
    automaton.advance().unwrap();
    assert_eq!(automaton.grid().snapshot(), vec![2; 6]);
}

#[test]
fn advance_on_zero_dimensions() {
    let rules = Rules::new(vec![Rule::new(vec![7], 9)]);
    let mut automaton = Automaton::new(Grid::new(vec![], vec![7]).unwrap(), rules);
    automaton.advance().unwrap();
    assert_eq!(automaton.grid().snapshot(), vec![9]);
}

#[test]
fn set_point_forces_one_and_keeps_the_rest() {
    let values: Vec<u32> = vec![4, 5, 6, 7, 8, 9];
    let mut automaton = Automaton::new(Grid::new(vec![2, 3], values).unwrap(), rule_110());
    automaton.advance_multi(2).unwrap();
    let before = automaton.grid().snapshot();
    assert_eq!(automaton.set_point(&[1, 2]), Ok(()));
    let after = automaton.grid().snapshot();
    assert_eq!(after[5], 1);
    for i in 0..5 {
        assert_eq!(after[i], before[i]);
    }
    assert_eq!(automaton.generation(), 2);
    assert_eq!(automaton.set_point(&[1, 2]), Ok(()));
    assert_eq!(automaton.grid().snapshot(), after);
}

#[test]
fn set_point_out_of_range_leaves_grid() {
    let values: Vec<u32> = vec![4, 5, 6, 7, 8, 9];
    let mut automaton = Automaton::new(Grid::new(vec![2, 3], values.clone()).unwrap(), rule_110());
    assert_eq!(automaton.set_point(&[2, 0]), Err(GridError::OutOfBounds));
    assert_eq!(automaton.set_point(&[0, 3]), Err(GridError::OutOfBounds));
    assert_eq!(automaton.set_point(&[0, usize::MAX]), Err(GridError::OutOfBounds));
    assert_eq!(automaton.grid().snapshot(), values);
    assert_eq!(automaton.generation(), 0);
}

#[test]
fn set_point_wrong_length_is_shape_mismatch() {
    let values: Vec<u32> = vec![4, 5, 6, 7, 8, 9];
    let mut automaton = Automaton::new(Grid::new(vec![2, 3], values.clone()).unwrap(), rule_110());
    assert_eq!(automaton.set_point(&[1]), Err(GridError::ShapeMismatch));
    assert_eq!(automaton.set_point(&[1, 1, 1]), Err(GridError::ShapeMismatch));
    assert_eq!(automaton.grid().snapshot(), values);
}
