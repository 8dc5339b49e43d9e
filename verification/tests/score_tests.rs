use score_calculator::parser::{parse_input, parse_output, Body, Header, Input, Output};
use score_calculator::score::{score, score_wave, units_stopped};
use score_calculator::validation::{validate_input, validate_output};

fn small_input() -> Input {
    Input {
        header: Header {
            units: 1,
            towers: 1,
            waves: 1,
            budget: 2,
        },
        body: Body {
            hits: vec![vec![1]],
            waves: vec![vec![1]],
            bonus: vec![3],
            costs: vec![1],
        },
    }
}

#[test]
fn test_score_scenario() {
    // one tower stops 1/1 = 1 unit, meeting the requirement of 1:
    // raw score min(1, 1) = 1, plus the wave bonus 3
    let (_, input) = parse_input("1 1 1 2\n1\n1\n3\n1").unwrap();
    let (_, output) = parse_output("1").unwrap();
    assert_eq!(validate_input(&input), Ok(()));
    assert_eq!(validate_output(&input, &output), Ok(()));
    assert_eq!(score(&input, &output), 4)
}

#[test]
fn test_score_zero_purchase() {
    let input = small_input();
    let output = Output {
        waves: vec![vec![0]],
    };
    assert_eq!(score(&input, &output), 0)
}

#[test]
fn test_score_monotone_in_quantity() {
    let input = small_input();
    let mut previous: usize = 0;
    for quantity in 0..5usize {
        let output = Output {
            waves: vec![vec![quantity]],
        };
        let s = score(&input, &output);
        assert!(s >= previous);
        previous = s;
    }
}

#[test]
fn test_score_integer_division() {
    // two hits are required per unit: one tower stops 1/2 = 0 units,
    // three towers stop 3/2 = 1
    let mut input = small_input();
    input.body.hits = vec![vec![2]];
    input.header.budget = 3;
    let one = Output {
        waves: vec![vec![1]],
    };
    let three = Output {
        waves: vec![vec![3]],
    };
    assert_eq!(score(&input, &one), 0);
    assert_eq!(score(&input, &three), 4)
}

#[test]
fn test_score_raw_capped_at_requirement() {
    // five towers stop five units but only one is required: raw score
    // is capped at 1, and the bonus still applies
    let mut input = small_input();
    input.header.budget = 5;
    let output = Output {
        waves: vec![vec![5]],
    };
    assert_eq!(score(&input, &output), 4)
}

#[test]
fn test_score_skips_unpaired_waves() {
    // only min(solution waves, requirement rows) waves are scored
    let input = small_input();
    let output = Output {
        waves: vec![vec![1], vec![1]],
    };
    assert_eq!(score(&input, &output), 4)
}

#[test]
fn test_score_wave_bonus_out_of_range() {
    // a wave index beyond the bonus sequence earns no bonus
    let input = small_input();
    assert_eq!(score_wave(&input, 5, &[1], &[1]), 1)
}

#[test]
fn test_score_wave_no_bonus_when_not_fully_stopped() {
    let mut input = small_input();
    input.body.waves = vec![vec![2]];
    let output = Output {
        waves: vec![vec![1]],
    };
    // one unit stopped of two required: raw min(1, 2) = 1, no bonus
    assert_eq!(score(&input, &output), 1)
}

#[test]
fn test_units_stopped_zero_hit_entry() {
    let mut input = small_input();
    input.body.hits = vec![vec![0]];
    assert_eq!(units_stopped(&input, 0, 0, 5), 0)
}

#[test]
fn test_units_stopped_out_of_range() {
    let input = small_input();
    assert_eq!(units_stopped(&input, 7, 0, 5), 0);
    assert_eq!(units_stopped(&input, 0, 7, 5), 0)
}

#[test]
fn test_units_stopped_divides() {
    let mut input = small_input();
    input.body.hits = vec![vec![3]];
    assert_eq!(units_stopped(&input, 0, 0, 7), 2)
}
