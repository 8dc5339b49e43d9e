//! Deterministic scoring of a validated solution against a problem:
//! each wave is simulated independently and the per-wave results are
//! summed.

use vstd::prelude::*;

use crate::parser::{Input, InputModel, Output, N};

verus! {

/// The smaller of two naturals.
pub open spec fn min_nat(a: nat, b: nat) -> nat {
    if a < b {
        a
    } else {
        b
    }
}

/// A mathematical count capped at the word size, as the executable
/// scorer reports it: the true value wherever it fits.
pub open spec fn nat_capped(v: nat) -> N {
    if v > usize::MAX {
        usize::MAX
    } else {
        v as usize
    }
}

/// Units of type `unit` stopped by `quantity` towers of type `tower`:
/// the quantity divided (integer division) by the hits required; a
/// missing or zero hit entry contributes nothing.
pub open spec fn spec_units_stopped(hits: Seq<Seq<N>>, unit: int, tower: int, quantity: N) -> nat {
    if 0 <= unit < hits.len() && 0 <= tower < hits[unit].len() && hits[unit][tower] != 0 {
        (quantity as nat) / (hits[unit][tower] as nat)
    } else {
        0
    }
}

/// Units of type `unit` stopped by the first `t` towers of one wave's
/// purchase row.
pub open spec fn spec_stopped(hits: Seq<Seq<N>>, bought: Seq<N>, unit: int, t: int) -> nat
    decreases t,
{
    if t <= 0 {
        0
    } else {
        spec_stopped(hits, bought, unit, t - 1) + spec_units_stopped(
            hits,
            unit,
            t - 1,
            bought[t - 1],
        )
    }
}

/// Units of type `unit` stopped by a whole purchase row.
pub open spec fn spec_stopped_all(hits: Seq<Seq<N>>, bought: Seq<N>, unit: int) -> nat {
    spec_stopped(hits, bought, unit, bought.len() as int)
}

/// Unit types scored in one wave: the declared unit count and the
/// requirement row, whichever is exhausted first.
pub open spec fn spec_zip_len(units: nat, req_row: Seq<N>) -> int {
    if units <= req_row.len() {
        units as int
    } else {
        req_row.len() as int
    }
}

/// Raw score of the first `u` unit types of one wave: stopped units,
/// capped per unit type at that type's requirement.
pub open spec fn spec_raw_wave(hits: Seq<Seq<N>>, bought: Seq<N>, req_row: Seq<N>, u: int) -> nat
    decreases u,
{
    if u <= 0 {
        0
    } else {
        spec_raw_wave(hits, bought, req_row, u - 1) + min_nat(
            spec_stopped_all(hits, bought, u - 1),
            req_row[u - 1] as nat,
        )
    }
}

/// The wave bonus is awarded exactly when every scored unit type is
/// fully stopped.
pub open spec fn spec_bonus_awarded(
    hits: Seq<Seq<N>>,
    bought: Seq<N>,
    req_row: Seq<N>,
    units: nat,
) -> bool {
    forall|u: int|
        0 <= u < spec_zip_len(units, req_row) ==> #[trigger] spec_stopped_all(hits, bought, u)
            >= req_row[u]
}

/// Bonus of wave `w`, or zero where the bonus sequence has no entry.
pub open spec fn spec_bonus_at(bonus: Seq<N>, w: int) -> nat {
    if 0 <= w < bonus.len() {
        bonus[w] as nat
    } else {
        0
    }
}

/// Score of one wave: the raw score, plus the wave's bonus when every
/// scored unit type is fully stopped.
pub open spec fn spec_score_wave(m: InputModel, w: int, req_row: Seq<N>, bought: Seq<N>) -> nat {
    let units = m.header.units as nat;
    let raw = spec_raw_wave(m.body.hits, bought, req_row, spec_zip_len(units, req_row));
    if spec_bonus_awarded(m.body.hits, bought, req_row, units) {
        raw + spec_bonus_at(m.body.bonus, w)
    } else {
        raw
    }
}

/// Waves scored in a run: purchase rows and requirement rows are paired
/// off, and waves beyond either sequence are not scored.
pub open spec fn spec_wave_count(m: InputModel, out: Seq<Seq<N>>) -> int {
    if out.len() <= m.body.waves.len() {
        out.len() as int
    } else {
        m.body.waves.len() as int
    }
}

/// Total score of the first `w` scored waves.
pub open spec fn spec_score_upto(m: InputModel, out: Seq<Seq<N>>, w: int) -> nat
    decreases w,
{
    if w <= 0 {
        0
    } else {
        spec_score_upto(m, out, w - 1) + spec_score_wave(m, w - 1, m.body.waves[w - 1], out[w - 1])
    }
}

/// Total score of a solution against a problem.
pub open spec fn spec_score(m: InputModel, out: Seq<Seq<N>>) -> nat {
    spec_score_upto(m, out, spec_wave_count(m, out))
}

proof fn lemma_units_stopped_le(hits: Seq<Seq<N>>, unit: int, tower: int, q1: N, q2: N)
    requires
        q1 <= q2,
    ensures
        spec_units_stopped(hits, unit, tower, q1) <= spec_units_stopped(hits, unit, tower, q2),
{
    if 0 <= unit < hits.len() && 0 <= tower < hits[unit].len() && hits[unit][tower] != 0 {
        vstd::arithmetic::div_mod::lemma_div_is_ordered(
            q1 as int,
            q2 as int,
            hits[unit][tower] as int,
        );
    }
}

proof fn lemma_stopped_le(hits: Seq<Seq<N>>, b1: Seq<N>, b2: Seq<N>, unit: int, k: int)
    requires
        b1.len() == b2.len(),
        forall|j: int| 0 <= j < b1.len() ==> #[trigger] b1[j] <= b2[j],
        k <= b1.len(),
    ensures
        spec_stopped(hits, b1, unit, k) <= spec_stopped(hits, b2, unit, k),
    decreases k,
{
    if k > 0 {
        lemma_stopped_le(hits, b1, b2, unit, k - 1);
        lemma_units_stopped_le(hits, unit, k - 1, b1[k - 1], b2[k - 1]);
    }
}

proof fn lemma_raw_wave_le(hits: Seq<Seq<N>>, b1: Seq<N>, b2: Seq<N>, req_row: Seq<N>, u: int)
    requires
        b1.len() == b2.len(),
        forall|j: int| 0 <= j < b1.len() ==> #[trigger] b1[j] <= b2[j],
    ensures
        spec_raw_wave(hits, b1, req_row, u) <= spec_raw_wave(hits, b2, req_row, u),
    decreases u,
{
    if u > 0 {
        lemma_raw_wave_le(hits, b1, b2, req_row, u - 1);
        lemma_stopped_le(hits, b1, b2, u - 1, b1.len() as int);
    }
}

proof fn lemma_score_wave_le(m: InputModel, w: int, req_row: Seq<N>, b1: Seq<N>, b2: Seq<N>)
    requires
        b1.len() == b2.len(),
        forall|j: int| 0 <= j < b1.len() ==> #[trigger] b1[j] <= b2[j],
    ensures
        spec_score_wave(m, w, req_row, b1) <= spec_score_wave(m, w, req_row, b2),
{
    let units = m.header.units as nat;
    lemma_raw_wave_le(m.body.hits, b1, b2, req_row, spec_zip_len(units, req_row));
    if spec_bonus_awarded(m.body.hits, b1, req_row, units) {
        assert forall|u: int|
            0 <= u < spec_zip_len(units, req_row) implies #[trigger] spec_stopped_all(
            m.body.hits,
            b2,
            u,
        ) >= req_row[u] by {
            assert(spec_stopped_all(m.body.hits, b1, u) >= req_row[u]);
            lemma_stopped_le(m.body.hits, b1, b2, u, b1.len() as int);
        }
        assert(spec_bonus_awarded(m.body.hits, b2, req_row, units));
    }
}

proof fn lemma_score_upto_le(
    m: InputModel,
    out1: Seq<Seq<N>>,
    out2: Seq<Seq<N>>,
    w: int,
    t: int,
    k: int,
)
    requires
        out1.len() == out2.len(),
        0 <= w < out1.len(),
        out1[w].len() == out2[w].len(),
        0 <= t < out1[w].len(),
        forall|i: int| 0 <= i < out1.len() && i != w ==> #[trigger] out1[i] == out2[i],
        forall|j: int|
            0 <= j < out1[w].len() && j != t ==> #[trigger] out1[w][j] == out2[w][j],
        out1[w][t] <= out2[w][t],
        k <= out1.len(),
    ensures
        spec_score_upto(m, out1, k) <= spec_score_upto(m, out2, k),
    decreases k,
{
    if k > 0 {
        lemma_score_upto_le(m, out1, out2, w, t, k - 1);
        if k - 1 == w {
            assert forall|j: int|
                0 <= j < out1[w].len() implies #[trigger] out1[w][j] <= out2[w][j] by {}
            lemma_score_wave_le(m, w, m.body.waves[w], out1[w], out2[w]);
        }
    }
}

/// Buying more of any one tower never lowers the score: raising a
/// single quantity of the solution, all else held fixed, can only raise
/// or keep the total score. (Whether the raised spend still fits the
/// budget is the validator's concern, not the scorer's.)
pub proof fn lemma_score_monotone(
    m: InputModel,
    out1: Seq<Seq<N>>,
    out2: Seq<Seq<N>>,
    w: int,
    t: int,
)
    requires
        out1.len() == out2.len(),
        0 <= w < out1.len(),
        out1[w].len() == out2[w].len(),
        0 <= t < out1[w].len(),
        forall|i: int| 0 <= i < out1.len() && i != w ==> #[trigger] out1[i] == out2[i],
        forall|j: int|
            0 <= j < out1[w].len() && j != t ==> #[trigger] out1[w][j] == out2[w][j],
        out1[w][t] <= out2[w][t],
    ensures
        spec_score(m, out1) <= spec_score(m, out2),
{
    lemma_score_upto_le(m, out1, out2, w, t, spec_wave_count(m, out1));
}

/// Units of type `unit` stopped by `quantity` towers of type `tower`,
/// looked up in the hit matrix; an out-of-range index or a zero entry
/// contributes nothing rather than failing.
pub fn units_stopped(input: &Input, unit: N, tower: N, quantity: N) -> (r: usize)
    ensures
        r == spec_units_stopped(input@.body.hits, unit as int, tower as int, quantity),
{
    proof {
        if unit < input.body.hits@.len() {
            assert(input@.body.hits[unit as int] == input.body.hits@[unit as int]@);
        }
    }
    if unit < input.body.hits.len() {
        let row = &input.body.hits[unit];
        if tower < row.len() {
            let hit = row[tower];
            if hit != 0 {
                quantity / hit
            } else {
                0
            }
        } else {
            0
        }
    } else {
        0
    }
}

/// Score of one wave: `wave_units` is the wave's requirement row and
/// `wave_towers` its purchase row. The result is the wave's true score
/// wherever that fits the word size, and the word size's maximum
/// otherwise.
pub fn score_wave(input: &Input, wave_index: N, wave_units: &[N], wave_towers: &[N]) -> (r: usize)
    ensures
        r == nat_capped(spec_score_wave(input@, wave_index as int, wave_units@, wave_towers@)),
{
    let ghost m = input@;
    let units = input.header.units;
    let mut stopped: Vec<N> = Vec::new();
    let mut unit: usize = 0;
    while unit < units
        invariant
            m == input@,
            units == m.header.units,
            unit <= units,
            stopped@.len() == unit,
            forall|u: int|
                0 <= u < unit ==> stopped@[u] == nat_capped(
                    #[trigger] spec_stopped_all(m.body.hits, wave_towers@, u),
                ),
        decreases units - unit,
    {
        let mut acc: usize = 0;
        let mut tower: usize = 0;
        while tower < wave_towers.len()
            invariant
                m == input@,
                tower <= wave_towers@.len(),
                acc == nat_capped(spec_stopped(m.body.hits, wave_towers@, unit as int, tower as int)),
            decreases wave_towers@.len() - tower,
        {
            let term = units_stopped(input, unit, tower, wave_towers[tower]);
            acc = acc.saturating_add(term);
            tower = tower + 1;
        }
        stopped.push(acc);
        unit = unit + 1;
    }
    let scored = if units <= wave_units.len() {
        units
    } else {
        wave_units.len()
    };
    proof {
        assert(scored == spec_zip_len(m.header.units as nat, wave_units@));
    }
    let mut award_bonus = true;
    let mut u: usize = 0;
    while u < scored
        invariant
            m == input@,
            u <= scored,
            scored == spec_zip_len(m.header.units as nat, wave_units@),
            scored <= stopped@.len() && scored <= wave_units@.len(),
            forall|j: int|
                0 <= j < stopped@.len() ==> stopped@[j] == nat_capped(
                    #[trigger] spec_stopped_all(m.body.hits, wave_towers@, j),
                ),
            award_bonus <==> (forall|j: int|
                0 <= j < u ==> #[trigger] spec_stopped_all(m.body.hits, wave_towers@, j)
                    >= wave_units@[j]),
        decreases scored - u,
    {
        let fully = stopped[u] >= wave_units[u];
        proof {
            let st = spec_stopped_all(m.body.hits, wave_towers@, u as int);
            if st > usize::MAX {
                assert(stopped@[u as int] == usize::MAX);
            }
            assert(fully <==> st >= wave_units@[u as int]);
        }
        if !fully {
            award_bonus = false;
        }
        u = u + 1;
    }
    let mut raw_score: usize = 0;
    let mut v: usize = 0;
    while v < scored
        invariant
            m == input@,
            v <= scored,
            scored == spec_zip_len(m.header.units as nat, wave_units@),
            scored <= stopped@.len() && scored <= wave_units@.len(),
            forall|j: int|
                0 <= j < stopped@.len() ==> stopped@[j] == nat_capped(
                    #[trigger] spec_stopped_all(m.body.hits, wave_towers@, j),
                ),
            raw_score == nat_capped(spec_raw_wave(m.body.hits, wave_towers@, wave_units@, v as int)),
        decreases scored - v,
    {
        let capped = if stopped[v] < wave_units[v] {
            stopped[v]
        } else {
            wave_units[v]
        };
        proof {
            assert(capped == min_nat(
                spec_stopped_all(m.body.hits, wave_towers@, v as int),
                wave_units@[v as int] as nat,
            ));
        }
        raw_score = raw_score.saturating_add(capped);
        v = v + 1;
    }
    if award_bonus {
        let bonus = if wave_index < input.body.bonus.len() {
            input.body.bonus[wave_index]
        } else {
            0
        };
        raw_score.saturating_add(bonus)
    } else {
        raw_score
    }
}

/// Total score of a solution: per-wave scores summed over the paired
/// purchase and requirement rows. The result is the true total wherever
/// it fits the word size, and the word size's maximum otherwise.
pub fn score(input: &Input, output: &Output) -> (r: usize)
    ensures
        r == nat_capped(spec_score(input@, output@)),
{
    let ghost m = input@;
    let ghost out = output@;
    let waves = if output.waves.len() <= input.body.waves.len() {
        output.waves.len()
    } else {
        input.body.waves.len()
    };
    let mut total: usize = 0;
    let mut w: usize = 0;
    while w < waves
        invariant
            m == input@,
            out == output@,
            w <= waves,
            waves == spec_wave_count(m, out),
            waves <= output.waves@.len() && waves <= input.body.waves@.len(),
            total == nat_capped(spec_score_upto(m, out, w as int)),
        decreases waves - w,
    {
        proof {
            assert(m.body.waves[w as int] == input.body.waves@[w as int]@);
            assert(out[w as int] == output.waves@[w as int]@);
        }
        let wave_score = score_wave(
            input,
            w,
            input.body.waves[w].as_slice(),
            output.waves[w].as_slice(),
        );
        total = total.saturating_add(wave_score);
        w = w + 1;
    }
    total
}

} // verus!
