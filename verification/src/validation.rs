//! Structural validation of parsed documents: every applicable check runs
//! and every violation is reported, in a fixed order, rather than stopping
//! at the first.

use vstd::prelude::*;

use crate::parser::{Input, InputModel, Output, N};

verus! {

/// A structural or economic inconsistency of a solution relative to a
/// problem: each variant carries the found value and the expected value
/// (the violating wave's index first, where one applies).
#[derive(Debug, Eq, PartialEq, Structural, Clone, Copy)]
pub enum InvalidOutputError {
    /// Found / expected count of waves.
    WaveNumber(N, N),
    /// Wave index, found / expected count of towers in that wave.
    WaveTowers(usize, N, N),
    /// Total towers cost / budget it exceeds.
    Budget(N, N),
}

/// A structural inconsistency within a problem document: each variant
/// carries the found value and the expected value (the violating row's
/// index first, where one applies).
#[derive(Debug, Eq, PartialEq, Structural, Clone, Copy)]
pub enum InvalidInputError {
    /// Found / expected length of the bonus sequence.
    Bonus(N, N),
    /// Found / expected length of the costs sequence.
    Cost(N, N),
    /// Found / expected count of wave-requirement rows.
    Waves(N, N),
    /// Wave index, found / expected count of units in that row.
    WaveUnits(usize, N, N),
    /// Found / expected count of hit-matrix rows.
    Hits(N, N),
    /// Unit index, found / expected count of towers in that hit row.
    UnitHits(usize, N, N),
}

/// Errors for the first `i` wave-requirement rows: one `WaveUnits` error
/// per row whose length is not the declared unit count, in row order.
pub open spec fn spec_wave_row_errors(rows: Seq<Seq<N>>, expected: nat, i: int) -> Seq<
    InvalidInputError,
>
    decreases i,
{
    if i <= 0 {
        Seq::empty()
    } else {
        spec_wave_row_errors(rows, expected, i - 1) + (if rows[i - 1].len() != expected {
            seq![
                InvalidInputError::WaveUnits(
                    (i - 1) as usize,
                    rows[i - 1].len() as usize,
                    expected as usize,
                ),
            ]
        } else {
            Seq::empty()
        })
    }
}

/// Errors for the first `i` hit-matrix rows: one `UnitHits` error per
/// row whose length is not the declared tower count, in row order.
pub open spec fn spec_hit_row_errors(rows: Seq<Seq<N>>, expected: nat, i: int) -> Seq<
    InvalidInputError,
>
    decreases i,
{
    if i <= 0 {
        Seq::empty()
    } else {
        spec_hit_row_errors(rows, expected, i - 1) + (if rows[i - 1].len() != expected {
            seq![
                InvalidInputError::UnitHits(
                    (i - 1) as usize,
                    rows[i - 1].len() as usize,
                    expected as usize,
                ),
            ]
        } else {
            Seq::empty()
        })
    }
}

/// The exact sequence of problem-document errors, in reporting order:
/// bonus length, costs length, wave-requirement row count, one error per
/// short or long wave-requirement row, hit-matrix row count, one error
/// per short or long hit row.
pub open spec fn spec_input_errors(m: InputModel) -> Seq<InvalidInputError> {
    (if m.body.bonus.len() != m.header.waves {
        seq![InvalidInputError::Bonus(m.body.bonus.len() as usize, m.header.waves)]
    } else {
        Seq::empty()
    }) + (if m.body.costs.len() != m.header.towers {
        seq![InvalidInputError::Cost(m.body.costs.len() as usize, m.header.towers)]
    } else {
        Seq::empty()
    }) + (if m.body.waves.len() != m.header.waves {
        seq![InvalidInputError::Waves(m.body.waves.len() as usize, m.header.waves)]
    } else {
        Seq::empty()
    }) + spec_wave_row_errors(m.body.waves, m.header.units as nat, m.body.waves.len() as int) + (
    if m.body.hits.len() != m.header.units {
        seq![InvalidInputError::Hits(m.body.hits.len() as usize, m.header.units)]
    } else {
        Seq::empty()
    }) + spec_hit_row_errors(m.body.hits, m.header.towers as nat, m.body.hits.len() as int)
}

/// Every length invariant a problem document must satisfy: the bonus,
/// costs and wave-requirement sequences match the header's counts, each
/// wave-requirement row has one entry per unit, and the hit matrix has
/// one row per unit with one entry per tower.
pub open spec fn spec_input_valid(m: InputModel) -> bool {
    &&& m.body.bonus.len() == m.header.waves
    &&& m.body.costs.len() == m.header.towers
    &&& m.body.waves.len() == m.header.waves
    &&& forall|w: int|
        0 <= w < m.body.waves.len() ==> (#[trigger] m.body.waves[w]).len() == m.header.units
    &&& m.body.hits.len() == m.header.units
    &&& forall|u: int|
        0 <= u < m.body.hits.len() ==> (#[trigger] m.body.hits[u]).len() == m.header.towers
}

/// Cost of tower type `t`, or zero where the costs sequence has no such
/// entry (the deliberate leniency: a malformed tower count is reported
/// once, by the row-length check, not again as a cost error).
pub open spec fn spec_cost_at(costs: Seq<N>, t: int) -> nat {
    if 0 <= t < costs.len() {
        costs[t] as nat
    } else {
        0
    }
}

/// Spend of the first `t` entries of one wave's tower row.
pub open spec fn spec_row_cost(costs: Seq<N>, row: Seq<N>, t: int) -> nat
    decreases t,
{
    if t <= 0 {
        0
    } else {
        spec_row_cost(costs, row, t - 1) + spec_cost_at(costs, t - 1) * (row[t - 1] as nat)
    }
}

/// Spend of the first `w` waves of a solution.
pub open spec fn spec_total_cost(costs: Seq<N>, out: Seq<Seq<N>>, w: int) -> nat
    decreases w,
{
    if w <= 0 {
        0
    } else {
        spec_total_cost(costs, out, w - 1) + spec_row_cost(
            costs,
            out[w - 1],
            out[w - 1].len() as int,
        )
    }
}

/// Total spend of a solution: quantity times cost, summed over every
/// wave and tower.
pub open spec fn spec_solution_cost(costs: Seq<N>, out: Seq<Seq<N>>) -> nat {
    spec_total_cost(costs, out, out.len() as int)
}

/// A total spend as reported in a `Budget` error: capped at the word
/// size's maximum where the true sum does not fit.
pub open spec fn spec_cost_capped(costs: Seq<N>, out: Seq<Seq<N>>) -> N {
    if spec_solution_cost(costs, out) > usize::MAX {
        usize::MAX
    } else {
        spec_solution_cost(costs, out) as usize
    }
}

/// Errors for the first `i` solution rows: one `WaveTowers` error per
/// row whose length is not the declared tower count, in row order.
pub open spec fn spec_output_row_errors(out: Seq<Seq<N>>, expected: nat, i: int) -> Seq<
    InvalidOutputError,
>
    decreases i,
{
    if i <= 0 {
        Seq::empty()
    } else {
        spec_output_row_errors(out, expected, i - 1) + (if out[i - 1].len() != expected {
            seq![
                InvalidOutputError::WaveTowers(
                    (i - 1) as usize,
                    out[i - 1].len() as usize,
                    expected as usize,
                ),
            ]
        } else {
            Seq::empty()
        })
    }
}

/// The exact sequence of solution errors, in reporting order: wave
/// count, one error per row with the wrong tower count, and the budget
/// check.
pub open spec fn spec_output_errors(m: InputModel, out: Seq<Seq<N>>) -> Seq<InvalidOutputError> {
    (if out.len() != m.header.waves {
        seq![InvalidOutputError::WaveNumber(out.len() as usize, m.header.waves)]
    } else {
        Seq::empty()
    }) + spec_output_row_errors(out, m.header.towers as nat, out.len() as int) + (
    if spec_solution_cost(m.body.costs, out) > m.header.budget {
        seq![InvalidOutputError::Budget(spec_cost_capped(m.body.costs, out), m.header.budget)]
    } else {
        Seq::empty()
    })
}

/// Everything a solution must satisfy against a problem: the declared
/// wave count, one tower entry per declared tower in every wave, and a
/// total spend within budget.
pub open spec fn spec_output_valid(m: InputModel, out: Seq<Seq<N>>) -> bool {
    &&& out.len() == m.header.waves
    &&& forall|w: int| 0 <= w < out.len() ==> (#[trigger] out[w]).len() == m.header.towers
    &&& spec_solution_cost(m.body.costs, out) <= m.header.budget
}

proof fn lemma_wave_row_errors_empty(rows: Seq<Seq<N>>, expected: nat, i: int)
    requires
        i >= 0,
    ensures
        spec_wave_row_errors(rows, expected, i).len() == 0 <==> forall|j: int|
            0 <= j < i ==> (#[trigger] rows[j]).len() == expected,
    decreases i,
{
    if i > 0 {
        lemma_wave_row_errors_empty(rows, expected, i - 1);
    }
}

proof fn lemma_hit_row_errors_empty(rows: Seq<Seq<N>>, expected: nat, i: int)
    requires
        i >= 0,
    ensures
        spec_hit_row_errors(rows, expected, i).len() == 0 <==> forall|j: int|
            0 <= j < i ==> (#[trigger] rows[j]).len() == expected,
    decreases i,
{
    if i > 0 {
        lemma_hit_row_errors_empty(rows, expected, i - 1);
    }
}

proof fn lemma_output_row_errors_empty(out: Seq<Seq<N>>, expected: nat, i: int)
    requires
        i >= 0,
    ensures
        spec_output_row_errors(out, expected, i).len() == 0 <==> forall|j: int|
            0 <= j < i ==> (#[trigger] out[j]).len() == expected,
    decreases i,
{
    if i > 0 {
        lemma_output_row_errors_empty(out, expected, i - 1);
    }
}

/// A problem document passes validation exactly when every length
/// invariant of its data model holds.
pub proof fn lemma_input_errors_empty_iff_valid(m: InputModel)
    ensures
        spec_input_errors(m).len() == 0 <==> spec_input_valid(m),
{
    lemma_wave_row_errors_empty(m.body.waves, m.header.units as nat, m.body.waves.len() as int);
    lemma_hit_row_errors_empty(m.body.hits, m.header.towers as nat, m.body.hits.len() as int);
}

/// A solution passes validation exactly when the wave count, every
/// per-wave tower count, and the budget bound hold simultaneously.
pub proof fn lemma_output_errors_empty_iff_valid(m: InputModel, out: Seq<Seq<N>>)
    ensures
        spec_output_errors(m, out).len() == 0 <==> spec_output_valid(m, out),
{
    lemma_output_row_errors_empty(out, m.header.towers as nat, out.len() as int);
}

/// Checks every length invariant of a problem document, never stopping
/// at the first violation: the result is `Ok` exactly when the document
/// is structurally valid, and otherwise the complete list of
/// violations, in reporting order.
pub fn validate_input(input: &Input) -> (r: Result<(), Vec<InvalidInputError>>)
    ensures
        r is Ok <==> spec_input_valid(input@),
        r matches Err(v) ==> v@ == spec_input_errors(input@) && v@.len() > 0,
{
    let ghost m = input@;
    let mut errors: Vec<InvalidInputError> = Vec::new();
    if input.body.bonus.len() != input.header.waves {
        errors.push(InvalidInputError::Bonus(input.body.bonus.len(), input.header.waves));
    }
    let ghost e1 = errors@;
    proof {
        assert(e1 =~= (if m.body.bonus.len() != m.header.waves {
            seq![InvalidInputError::Bonus(m.body.bonus.len() as usize, m.header.waves)]
        } else {
            Seq::<InvalidInputError>::empty()
        }));
    }
    if input.body.costs.len() != input.header.towers {
        errors.push(InvalidInputError::Cost(input.body.costs.len(), input.header.towers));
    }
    let ghost e2 = errors@;
    proof {
        assert(e2 =~= e1 + (if m.body.costs.len() != m.header.towers {
            seq![InvalidInputError::Cost(m.body.costs.len() as usize, m.header.towers)]
        } else {
            Seq::<InvalidInputError>::empty()
        }));
    }
    if input.body.waves.len() != input.header.waves {
        errors.push(InvalidInputError::Waves(input.body.waves.len(), input.header.waves));
    }
    let ghost e3 = errors@;
    proof {
        assert(e3 =~= e2 + (if m.body.waves.len() != m.header.waves {
            seq![InvalidInputError::Waves(m.body.waves.len() as usize, m.header.waves)]
        } else {
            Seq::<InvalidInputError>::empty()
        }));
    }
    let mut wave: usize = 0;
    while wave < input.body.waves.len()
        invariant
            m == input@,
            wave <= input.body.waves@.len(),
            errors@ == e3 + spec_wave_row_errors(m.body.waves, m.header.units as nat, wave as int),
        decreases input.body.waves@.len() - wave,
    {
        let found = input.body.waves[wave].len();
        proof {
            assert(m.body.waves[wave as int] == input.body.waves@[wave as int]@);
        }
        if found != input.header.units {
            errors.push(InvalidInputError::WaveUnits(wave, found, input.header.units));
        }
        proof {
            assert(errors@ =~= e3 + spec_wave_row_errors(
                m.body.waves,
                m.header.units as nat,
                wave + 1,
            ));
        }
        wave = wave + 1;
    }
    let ghost e4 = errors@;
    if input.body.hits.len() != input.header.units {
        errors.push(InvalidInputError::Hits(input.body.hits.len(), input.header.units));
    }
    let ghost e5 = errors@;
    proof {
        assert(e5 =~= e4 + (if m.body.hits.len() != m.header.units {
            seq![InvalidInputError::Hits(m.body.hits.len() as usize, m.header.units)]
        } else {
            Seq::<InvalidInputError>::empty()
        }));
    }
    let mut unit: usize = 0;
    while unit < input.body.hits.len()
        invariant
            m == input@,
            unit <= input.body.hits@.len(),
            errors@ == e5 + spec_hit_row_errors(m.body.hits, m.header.towers as nat, unit as int),
        decreases input.body.hits@.len() - unit,
    {
        let found = input.body.hits[unit].len();
        proof {
            assert(m.body.hits[unit as int] == input.body.hits@[unit as int]@);
        }
        if found != input.header.towers {
            errors.push(InvalidInputError::UnitHits(unit, found, input.header.towers));
        }
        proof {
            assert(errors@ =~= e5 + spec_hit_row_errors(
                m.body.hits,
                m.header.towers as nat,
                unit + 1,
            ));
        }
        unit = unit + 1;
    }
    proof {
        assert(errors@ =~= spec_input_errors(m));
        lemma_input_errors_empty_iff_valid(m);
    }
    if errors.len() == 0 {
        Ok(())
    } else {
        Err(errors)
    }
}

/// Checks a solution against a problem's declared dimensions and
/// budget, never stopping at the first violation: the result is `Ok`
/// exactly when wave count, per-wave tower counts and total spend are
/// all in order, and otherwise the complete list of violations, in
/// reporting order.
pub fn validate_output(input: &Input, output: &Output) -> (r: Result<(), Vec<InvalidOutputError>>)
    ensures
        r is Ok <==> spec_output_valid(input@, output@),
        r matches Err(v) ==> v@ == spec_output_errors(input@, output@) && v@.len() > 0,
{
    let ghost m = input@;
    let ghost out = output@;
    let mut errors: Vec<InvalidOutputError> = Vec::new();
    if output.waves.len() != input.header.waves {
        errors.push(InvalidOutputError::WaveNumber(output.waves.len(), input.header.waves));
    }
    let ghost e1 = errors@;
    proof {
        assert(e1 =~= (if out.len() != m.header.waves {
            seq![InvalidOutputError::WaveNumber(out.len() as usize, m.header.waves)]
        } else {
            Seq::<InvalidOutputError>::empty()
        }));
    }
    let mut line: usize = 0;
    while line < output.waves.len()
        invariant
            m == input@,
            out == output@,
            line <= output.waves@.len(),
            errors@ == e1 + spec_output_row_errors(out, m.header.towers as nat, line as int),
        decreases output.waves@.len() - line,
    {
        let found = output.waves[line].len();
        proof {
            assert(out[line as int] == output.waves@[line as int]@);
        }
        if found != input.header.towers {
            errors.push(InvalidOutputError::WaveTowers(line, found, input.header.towers));
        }
        proof {
            assert(errors@ =~= e1 + spec_output_row_errors(out, m.header.towers as nat, line + 1));
        }
        line = line + 1;
    }
    let ghost e2 = errors@;
    let mut total_cost: usize = 0;
    let mut overflow = false;
    let mut wave: usize = 0;
    while wave < output.waves.len()
        invariant
            m == input@,
            out == output@,
            wave <= output.waves@.len(),
            !overflow ==> total_cost == spec_total_cost(m.body.costs, out, wave as int),
            overflow ==> spec_total_cost(m.body.costs, out, wave as int) > usize::MAX,
        decreases output.waves@.len() - wave,
    {
        proof {
            assert(out[wave as int] == output.waves@[wave as int]@);
        }
        let mut tower: usize = 0;
        while tower < output.waves[wave].len()
            invariant
                m == input@,
                out == output@,
                wave < output.waves@.len(),
                out[wave as int] == output.waves@[wave as int]@,
                tower <= out[wave as int].len(),
                !overflow ==> total_cost == spec_total_cost(m.body.costs, out, wave as int)
                    + spec_row_cost(m.body.costs, out[wave as int], tower as int),
                overflow ==> spec_total_cost(m.body.costs, out, wave as int) + spec_row_cost(
                    m.body.costs,
                    out[wave as int],
                    tower as int,
                ) > usize::MAX,
            decreases out[wave as int].len() - tower,
        {
            let quantity = output.waves[wave][tower];
            let cost = if tower < input.body.costs.len() {
                input.body.costs[tower]
            } else {
                0
            };
            if !overflow {
                match cost.checked_mul(quantity) {
                    Some(tower_cost) => match total_cost.checked_add(tower_cost) {
                        Some(new_total) => {
                            total_cost = new_total;
                        },
                        None => {
                            overflow = true;
                        },
                    },
                    None => {
                        overflow = true;
                    },
                }
            }
            tower = tower + 1;
        }
        wave = wave + 1;
    }
    if overflow || total_cost > input.header.budget {
        let found = if overflow {
            usize::MAX
        } else {
            total_cost
        };
        errors.push(InvalidOutputError::Budget(found, input.header.budget));
        proof {
            assert(errors@ =~= e2 + seq![
                InvalidOutputError::Budget(spec_cost_capped(m.body.costs, out), m.header.budget),
            ]);
        }
    } else {
        proof {
            assert(errors@ =~= e2 + Seq::<InvalidOutputError>::empty());
        }
    }
    proof {
        assert(errors@ =~= spec_output_errors(m, out));
        lemma_output_errors_empty_iff_valid(m, out);
    }
    if errors.len() == 0 {
        Ok(())
    } else {
        Err(errors)
    }
}

} // verus!
