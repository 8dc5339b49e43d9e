use score_calculator::parser::{parse_input, parse_output, Body, Header, Input, Output};
use score_calculator::validation::{
    validate_input, validate_output, InvalidInputError, InvalidOutputError,
};

fn small_input() -> Input {
    Input {
        header: Header {
            units: 1,
            towers: 1,
            waves: 1,
            budget: 2,
        },
        body: Body {
            hits: vec![vec![1]],
            waves: vec![vec![1]],
            bonus: vec![3],
            costs: vec![1],
        },
    }
}

#[test]
fn test_validate_output_valid() {
    let input = Input {
        header: Header {
            units: 1,
            towers: 2,
            waves: 1,
            budget: 2,
        },
        body: Body {
            hits: vec![vec![1], vec![1]],
            waves: vec![vec![1]],
            bonus: vec![3],
            costs: vec![1, 1],
        },
    };
    let output = Output {
        waves: vec![vec![1, 1]],
    };
    let valid = validate_output(&input, &output);
    assert_eq!(valid, Ok(()))
}

#[test]
fn test_validate_input_valid() {
    assert_eq!(validate_input(&small_input()), Ok(()))
}

#[test]
fn test_validate_input_bonus_mismatch() {
    let mut input = small_input();
    input.body.bonus = vec![3, 4];
    assert_eq!(
        validate_input(&input),
        Err(vec![InvalidInputError::Bonus(2, 1)])
    )
}

#[test]
fn test_validate_input_cost_mismatch() {
    let mut input = small_input();
    input.body.costs = vec![1, 1];
    assert_eq!(
        validate_input(&input),
        Err(vec![InvalidInputError::Cost(2, 1)])
    )
}

#[test]
fn test_validate_input_waves_mismatch() {
    let mut input = small_input();
    input.body.waves = vec![vec![1], vec![1]];
    assert_eq!(
        validate_input(&input),
        Err(vec![InvalidInputError::Waves(2, 1)])
    )
}

#[test]
fn test_validate_input_wave_units_mismatch() {
    let mut input = small_input();
    input.body.waves = vec![vec![1, 1]];
    assert_eq!(
        validate_input(&input),
        Err(vec![InvalidInputError::WaveUnits(0, 2, 1)])
    )
}

#[test]
fn test_validate_input_hits_mismatch() {
    let mut input = small_input();
    input.body.hits = vec![vec![1], vec![1]];
    assert_eq!(
        validate_input(&input),
        Err(vec![InvalidInputError::Hits(2, 1)])
    )
}

#[test]
fn test_validate_input_unit_hits_mismatch() {
    let mut input = small_input();
    input.body.hits = vec![vec![1, 1]];
    assert_eq!(
        validate_input(&input),
        Err(vec![InvalidInputError::UnitHits(0, 2, 1)])
    )
}

#[test]
fn test_validate_input_reports_all_errors() {
    let mut input = small_input();
    input.body.bonus = vec![];
    input.body.costs = vec![];
    assert_eq!(
        validate_input(&input),
        Err(vec![
            InvalidInputError::Bonus(0, 1),
            InvalidInputError::Cost(0, 1),
        ])
    )
}

#[test]
fn test_validate_output_parsed_solution() {
    // a parsed one-wave solution against the parsed one-wave problem:
    // one wave, one tower column, spend 1 <= budget 2
    let (_, input) = parse_input("1 1 1 2\n1\n1\n3\n1").unwrap();
    let (_, output) = parse_output("1").unwrap();
    assert_eq!(validate_output(&input, &output), Ok(()))
}

#[test]
fn test_validate_output_budget_exceeded() {
    let (_, input) = parse_input("1 1 1 2\n1\n1\n3\n1").unwrap();
    let (_, output) = parse_output("3").unwrap();
    assert_eq!(
        validate_output(&input, &output),
        Err(vec![InvalidOutputError::Budget(3, 2)])
    )
}

#[test]
fn test_validate_output_wave_number_mismatch() {
    let (_, input) = parse_input("1 1 1 2\n1\n1\n3\n1").unwrap();
    let (_, output) = parse_output("1\n1").unwrap();
    assert_eq!(
        validate_output(&input, &output),
        Err(vec![InvalidOutputError::WaveNumber(2, 1)])
    )
}

#[test]
fn test_validate_output_wave_towers_mismatch() {
    let input = small_input();
    let output = Output {
        waves: vec![vec![1, 0]],
    };
    assert_eq!(
        validate_output(&input, &output),
        Err(vec![InvalidOutputError::WaveTowers(0, 2, 1)])
    )
}

#[test]
fn test_validate_output_cost_overflow_reports_capped_total() {
    let mut input = small_input();
    input.header.budget = 5;
    input.body.costs = vec![usize::MAX];
    let output = Output {
        waves: vec![vec![2]],
    };
    assert_eq!(
        validate_output(&input, &output),
        Err(vec![InvalidOutputError::Budget(usize::MAX, 5)])
    )
}

#[test]
fn test_validate_output_missing_cost_entry_counts_zero() {
    // two towers bought, but only one cost entry: the second tower's
    // spend counts as zero, reported once via the row-length check
    let input = small_input();
    let output = Output {
        waves: vec![vec![1, 9]],
    };
    assert_eq!(
        validate_output(&input, &output),
        Err(vec![InvalidOutputError::WaveTowers(0, 2, 1)])
    )
}
