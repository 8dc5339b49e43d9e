//! Line-oriented numeric text-format parser.
//!
//! A problem document is a header line (four numbers), `units` hit-matrix
//! lines of exactly `towers` numbers each, one costs line, one bonus line,
//! and one or more wave-requirement lines; a solution document is one or
//! more lines of numbers. Lines hold non-negative decimal integers
//! separated by single spaces; the last line's trailing newline is
//! optional. The grammar is stated by the `spec_*` functions over
//! sequences of characters, and every parser is proved to return `Ok`
//! exactly on the text those functions accept, with the value and the
//! remaining text they prescribe.

use vstd::prelude::*;
use vstd::string::*;

verus! {

/// Word size of every number in the documents.
pub type N = usize;

/// Declared dimensions of a problem instance.
#[derive(Debug, Eq, PartialEq, Structural, Clone, Copy)]
pub struct Header {
    pub units: N,
    pub towers: N,
    pub waves: N,
    pub budget: N,
}

/// Matrices and sequences of a problem instance: the hit-effectiveness
/// table (`units` rows by `towers` columns), the per-wave unit
/// requirements, the per-wave bonuses and the per-tower costs.
#[derive(Debug, Eq, PartialEq)]
pub struct Body {
    pub hits: Vec<Vec<N>>,
    pub waves: Vec<Vec<N>>,
    pub bonus: Vec<N>,
    pub costs: Vec<N>,
}

/// A parsed problem document.
#[derive(Debug, Eq, PartialEq)]
pub struct Input {
    pub header: Header,
    pub body: Body,
}

/// A parsed solution document: tower quantities per wave.
#[derive(Debug, Eq, PartialEq)]
pub struct Output {
    pub waves: Vec<Vec<N>>,
}

/// Mathematical model of a `Body`.
#[verifier::ext_equal]
pub ghost struct BodyModel {
    pub hits: Seq<Seq<N>>,
    pub waves: Seq<Seq<N>>,
    pub bonus: Seq<N>,
    pub costs: Seq<N>,
}

/// Mathematical model of an `Input`.
#[verifier::ext_equal]
pub ghost struct InputModel {
    pub header: Header,
    pub body: BodyModel,
}

pub open spec fn rows_view(rows: Seq<Vec<N>>) -> Seq<Seq<N>> {
    rows.map_values(|r: Vec<N>| r@)
}

impl View for Body {
    type V = BodyModel;

    open spec fn view(&self) -> BodyModel {
        BodyModel {
            hits: rows_view(self.hits@),
            waves: rows_view(self.waves@),
            bonus: self.bonus@,
            costs: self.costs@,
        }
    }
}

impl View for Input {
    type V = InputModel;

    open spec fn view(&self) -> InputModel {
        InputModel { header: self.header, body: self.body@ }
    }
}

impl View for Output {
    type V = Seq<Seq<N>>;

    open spec fn view(&self) -> Seq<Seq<N>> {
        rows_view(self.waves@)
    }
}

/// Grammar rules named in parse-error context stacks.
#[derive(Debug, Eq, PartialEq, Structural, Clone, Copy)]
pub enum Rule {
    Number,
    Header,
    Hits,
    Costs,
    Bonus,
    Waves,
    Output,
}

/// A structural parse failure: the stack of grammar rules that were being
/// attempted, outermost first, and the number of characters that remained
/// unconsumed at the point of failure.
#[derive(Debug, Eq, PartialEq)]
pub struct ParseError {
    pub contexts: Vec<Rule>,
    pub remaining: usize,
}

/// One remaining-input/value pair, as parsers return on success.
pub type ParseOk<'a, T> = (&'a str, T);

pub open spec fn is_digit_char(c: char) -> bool {
    48 <= c as u32 && c as u32 <= 57
}

pub open spec fn digit_val(c: char) -> nat {
    (c as u32 - 48) as nat
}

/// Length of the longest all-digit prefix of `s`.
pub open spec fn digit_run_len(s: Seq<char>) -> nat
    decreases s.len(),
{
    if s.len() > 0 && is_digit_char(s[0]) {
        (1 + digit_run_len(s.skip(1))) as nat
    } else {
        0
    }
}

/// Value of an all-digit sequence read in base ten.
pub open spec fn str_to_nat(s: Seq<char>) -> nat
    decreases s.len(),
{
    if s.len() == 0 {
        0
    } else {
        str_to_nat(s.drop_last()) * 10 + digit_val(s.last())
    }
}

/// Grammar: a number is a nonempty run of decimal digits (maximal munch).
pub open spec fn spec_number(s: Seq<char>) -> Option<(Seq<char>, Seq<char>)> {
    let d = digit_run_len(s) as int;
    if d > 0 {
        Some((s.skip(d), s.take(d)))
    } else {
        None
    }
}

/// Grammar: a number whose value fits the word size; a larger value is a
/// parse error (overflow).
pub open spec fn spec_positive_number(s: Seq<char>) -> Option<(Seq<char>, N)> {
    match spec_number(s) {
        Some((rem, tok)) => if str_to_nat(tok) <= usize::MAX {
            Some((rem, str_to_nat(tok) as usize))
        } else {
            None
        },
        None => None,
    }
}

/// Grammar: exactly one space character.
pub open spec fn spec_single_space(s: Seq<char>) -> Option<(Seq<char>, Seq<char>)> {
    if s.len() > 0 && s[0] == ' ' {
        Some((s.skip(1), s.take(1)))
    } else {
        None
    }
}

proof fn lemma_digit_run_len_props(s: Seq<char>)
    ensures
        digit_run_len(s) <= s.len(),
        forall|j: int| 0 <= j < digit_run_len(s) ==> is_digit_char(#[trigger] s[j]),
        digit_run_len(s) < s.len() ==> !is_digit_char(s[digit_run_len(s) as int]),
    decreases s.len(),
{
    if s.len() > 0 && is_digit_char(s[0]) {
        lemma_digit_run_len_props(s.skip(1));
        assert forall|j: int| 0 <= j < digit_run_len(s) implies is_digit_char(#[trigger] s[j]) by {
            if j > 0 {
                assert(s[j] == s.skip(1)[j - 1]);
            }
        }
        if digit_run_len(s) < s.len() {
            assert(s[digit_run_len(s) as int] == s.skip(1)[digit_run_len(s) - 1]);
        }
    }
}

proof fn lemma_digit_run_len_unique(s: Seq<char>, i: int)
    requires
        0 <= i <= s.len(),
        forall|j: int| 0 <= j < i ==> is_digit_char(#[trigger] s[j]),
        i < s.len() ==> !is_digit_char(s[i]),
    ensures
        i == digit_run_len(s),
    decreases s.len(),
{
    if s.len() > 0 && is_digit_char(s[0]) {
        assert(i > 0);
        assert forall|j: int| 0 <= j < i - 1 implies is_digit_char(#[trigger] s.skip(1)[j]) by {
            assert(s.skip(1)[j] == s[j + 1]);
        }
        if i - 1 < s.skip(1).len() {
            assert(s.skip(1)[i - 1] == s[i]);
        }
        lemma_digit_run_len_unique(s.skip(1), i - 1);
    }
}

/// The value of a digit sequence is at least the value of any prefix.
proof fn lemma_str_to_nat_prefix(s: Seq<char>, i: int)
    requires
        0 <= i <= s.len(),
    ensures
        str_to_nat(s.take(i)) <= str_to_nat(s),
    decreases s.len() - i,
{
    if i < s.len() {
        assert(s.take(i + 1).drop_last() =~= s.take(i));
        assert(s.take(i + 1).last() == s[i]);
        assert(str_to_nat(s.take(i)) <= str_to_nat(s.take(i + 1)));
        lemma_str_to_nat_prefix(s, i + 1);
    } else {
        assert(s.take(i) =~= s);
    }
}

/// Grammar: a single newline character.
pub open spec fn spec_newline(s: Seq<char>) -> Option<Seq<char>> {
    if s.len() > 0 && s[0] == '\n' {
        Some(s.skip(1))
    } else {
        None
    }
}

/// Grammar: four numbers separated by single spaces.
pub open spec fn spec_header(s: Seq<char>) -> Option<(Seq<char>, Header)> {
    match spec_positive_number(s) {
        None => None,
        Some((s1, units)) => match spec_single_space(s1) {
            None => None,
            Some((s2, _)) => match spec_positive_number(s2) {
                None => None,
                Some((s3, towers)) => match spec_single_space(s3) {
                    None => None,
                    Some((s4, _)) => match spec_positive_number(s4) {
                        None => None,
                        Some((s5, waves)) => match spec_single_space(s5) {
                            None => None,
                            Some((s6, _)) => match spec_positive_number(s6) {
                                None => None,
                                Some((s7, budget)) => Some(
                                    (s7, Header { units, towers, waves, budget }),
                                ),
                            },
                        },
                    },
                },
            },
        },
    }
}

/// Grammar: a header followed by a newline.
pub open spec fn spec_header_line(s: Seq<char>) -> Option<(Seq<char>, Header)> {
    match spec_header(s) {
        None => None,
        Some((rem, h)) => match spec_newline(rem) {
            None => None,
            Some(r2) => Some((r2, h)),
        },
    }
}

/// Grammar: the numbers that follow the first entry of a list, each
/// introduced by a single space. Never fails: it stops before the first
/// text that is not a space followed by a number.
pub open spec fn spec_list_tail(s: Seq<char>) -> (Seq<char>, Seq<N>)
    decreases s.len(),
{
    if s.len() > 0 && s[0] == ' ' {
        match spec_positive_number(s.skip(1)) {
            Some((rem, v)) => if rem.len() < s.len() {
                (spec_list_tail(rem).0, seq![v] + spec_list_tail(rem).1)
            } else {
                (s, Seq::empty())
            },
            None => (s, Seq::empty()),
        }
    } else {
        (s, Seq::empty())
    }
}

/// Grammar: one or more numbers separated by single spaces.
pub open spec fn spec_number_list(s: Seq<char>) -> Option<(Seq<char>, Seq<N>)> {
    match spec_positive_number(s) {
        None => None,
        Some((rem, v)) => Some((spec_list_tail(rem).0, seq![v] + spec_list_tail(rem).1)),
    }
}

/// Grammar: a number list followed by a newline.
pub open spec fn spec_number_list_line(s: Seq<char>) -> Option<(Seq<char>, Seq<N>)> {
    match spec_number_list(s) {
        None => None,
        Some((rem, l)) => match spec_newline(rem) {
            None => None,
            Some(r2) => Some((r2, l)),
        },
    }
}

/// Grammar: exactly `n` number-list lines of exactly `width` entries
/// each (the hit matrix); a row with the wrong entry count is a parse
/// error.
pub open spec fn spec_rows(s: Seq<char>, n: nat, width: nat) -> Option<(Seq<char>, Seq<Seq<N>>)>
    decreases n,
{
    if n == 0 {
        Some((s, Seq::empty()))
    } else {
        match spec_number_list_line(s) {
            None => None,
            Some((rem, row)) => if row.len() == width {
                match spec_rows(rem, (n - 1) as nat, width) {
                    None => None,
                    Some((r2, rows)) => Some((r2, seq![row] + rows)),
                }
            } else {
                None
            },
        }
    }
}

/// Grammar: the number lists that follow the first line of a block, each
/// introduced by a newline. Never fails: it stops before the first text
/// that is not a newline followed by a number list, so a trailing
/// newline is left unconsumed.
pub open spec fn spec_wave_tail(s: Seq<char>) -> (Seq<char>, Seq<Seq<N>>)
    decreases s.len(),
{
    if s.len() > 0 && s[0] == '\n' {
        match spec_number_list(s.skip(1)) {
            Some((rem, row)) => if rem.len() < s.len() {
                (spec_wave_tail(rem).0, seq![row] + spec_wave_tail(rem).1)
            } else {
                (s, Seq::empty())
            },
            None => (s, Seq::empty()),
        }
    } else {
        (s, Seq::empty())
    }
}

/// Grammar: one or more newline-separated number lists, the last
/// newline optional.
pub open spec fn spec_wave_block(s: Seq<char>) -> Option<(Seq<char>, Seq<Seq<N>>)> {
    match spec_number_list(s) {
        None => None,
        Some((rem, row)) => Some((spec_wave_tail(rem).0, seq![row] + spec_wave_tail(rem).1)),
    }
}

/// Grammar: a whole problem body after the header: the hit matrix, the
/// costs line, the bonus line and the wave-requirement block.
pub open spec fn spec_parse_input_body(s: Seq<char>, units: nat, towers: nat) -> Option<
    (Seq<char>, BodyModel),
> {
    match spec_rows(s, units, towers) {
        None => None,
        Some((s1, hits)) => match spec_number_list_line(s1) {
            None => None,
            Some((s2, costs)) => match spec_number_list_line(s2) {
                None => None,
                Some((s3, bonus)) => match spec_wave_block(s3) {
                    None => None,
                    Some((s4, waves)) => Some((s4, BodyModel { hits, waves, bonus, costs })),
                },
            },
        },
    }
}

/// Grammar: a whole problem document.
pub open spec fn spec_parse_input(s: Seq<char>) -> Option<(Seq<char>, InputModel)> {
    match spec_header_line(s) {
        None => None,
        Some((s1, h)) => match spec_parse_input_body(s1, h.units as nat, h.towers as nat) {
            None => None,
            Some((s2, body)) => Some((s2, InputModel { header: h, body })),
        },
    }
}

/// Grammar: a whole solution document.
pub open spec fn spec_parse_output(s: Seq<char>) -> Option<(Seq<char>, Seq<Seq<N>>)> {
    spec_wave_block(s)
}

/// The tail of a number list consumes no more than the text it is given.
proof fn lemma_list_tail_len(s: Seq<char>)
    ensures
        spec_list_tail(s).0.len() <= s.len(),
    decreases s.len(),
{
    if s.len() > 0 && s[0] == ' ' {
        match spec_positive_number(s.skip(1)) {
            Some((rem, v)) => {
                if rem.len() < s.len() {
                    lemma_list_tail_len(rem);
                }
            },
            None => {},
        }
    }
}

/// A successfully parsed number list consumes at least one character.
proof fn lemma_number_list_consumes(s: Seq<char>)
    ensures
        spec_number_list(s) matches Some(p) ==> p.0.len() < s.len(),
{
    match spec_positive_number(s) {
        Some((rem, v)) => {
            lemma_positive_number_consumes(s);
            lemma_list_tail_len(rem);
        },
        None => {},
    }
}

/// A successfully parsed number consumes at least one character.
proof fn lemma_positive_number_consumes(s: Seq<char>)
    ensures
        spec_positive_number(s) matches Some(p) ==> p.0.len() < s.len(),
{
    if spec_positive_number(s) is Some {
        lemma_digit_run_len_props(s);
    }
}

/// A successfully parsed number-list line consumes at least one
/// character.
proof fn lemma_number_list_line_consumes(s: Seq<char>)
    ensures
        spec_number_list_line(s) matches Some(p) ==> p.0.len() < s.len(),
{
    lemma_number_list_consumes(s);
}

/// A successfully parsed header consumes at least one character.
proof fn lemma_header_consumes(s: Seq<char>)
    ensures
        spec_header(s) matches Some(p) ==> p.0.len() < s.len(),
{
    lemma_positive_number_consumes(s);
    match spec_positive_number(s) {
        Some((s1, _)) => match spec_single_space(s1) {
            Some((s2, _)) => {
                lemma_positive_number_consumes(s2);
                match spec_positive_number(s2) {
                    Some((s3, _)) => match spec_single_space(s3) {
                        Some((s4, _)) => {
                            lemma_positive_number_consumes(s4);
                            match spec_positive_number(s4) {
                                Some((s5, _)) => match spec_single_space(s5) {
                                    Some((s6, _)) => {
                                        lemma_positive_number_consumes(s6);
                                    },
                                    None => {},
                                },
                                None => {},
                            }
                        },
                        None => {},
                    },
                    None => {},
                }
            },
            None => {},
        },
        None => {},
    }
}

/// A successfully parsed header line consumes at least one character.
proof fn lemma_header_line_consumes(s: Seq<char>)
    ensures
        spec_header_line(s) matches Some(p) ==> p.0.len() < s.len(),
{
    lemma_header_consumes(s);
}

/// A successfully parsed block of lines consumes no more than the text
/// it is given.
proof fn lemma_rows_consume(s: Seq<char>, n: nat, width: nat)
    ensures
        spec_rows(s, n, width) matches Some(p) ==> p.0.len() <= s.len(),
    decreases n,
{
    if n > 0 {
        lemma_number_list_line_consumes(s);
        match spec_number_list_line(s) {
            Some((rem, row)) => {
                lemma_rows_consume(rem, (n - 1) as nat, width);
            },
            None => {},
        }
    }
}

/// The decimal digit character of a value below ten.
pub open spec fn digit_char(d: nat) -> char {
    if d == 0 {
        '0'
    } else if d == 1 {
        '1'
    } else if d == 2 {
        '2'
    } else if d == 3 {
        '3'
    } else if d == 4 {
        '4'
    } else if d == 5 {
        '5'
    } else if d == 6 {
        '6'
    } else if d == 7 {
        '7'
    } else if d == 8 {
        '8'
    } else {
        '9'
    }
}

/// Decimal rendering of a number, most significant digit first.
pub open spec fn spec_render_number(n: nat) -> Seq<char>
    decreases n,
{
    if n < 10 {
        seq![digit_char(n)]
    } else {
        spec_render_number(n / 10).push(digit_char(n % 10))
    }
}

/// Rendering of the entries of a list after the first, each preceded by
/// a single space.
pub open spec fn spec_render_list_tail(l: Seq<N>) -> Seq<char>
    decreases l.len(),
{
    if l.len() == 0 {
        Seq::empty()
    } else {
        seq![' '] + spec_render_number(l[0] as nat) + spec_render_list_tail(l.skip(1))
    }
}

/// Rendering of a nonempty number list: entries separated by single
/// spaces.
pub open spec fn spec_render_list(l: Seq<N>) -> Seq<char> {
    spec_render_number(l[0] as nat) + spec_render_list_tail(l.skip(1))
}

/// Rendering of a number list as a newline-terminated line.
pub open spec fn spec_render_list_line(l: Seq<N>) -> Seq<char> {
    spec_render_list(l) + seq!['\n']
}

/// Rendering of a block of newline-terminated list lines.
pub open spec fn spec_render_rows(rows: Seq<Seq<N>>) -> Seq<char>
    decreases rows.len(),
{
    if rows.len() == 0 {
        Seq::empty()
    } else {
        spec_render_list_line(rows[0]) + spec_render_rows(rows.skip(1))
    }
}

/// Rendering of the rows of a wave block after the first, each
/// preceded by a newline.
pub open spec fn spec_render_wave_tail(rows: Seq<Seq<N>>) -> Seq<char>
    decreases rows.len(),
{
    if rows.len() == 0 {
        Seq::empty()
    } else {
        seq!['\n'] + spec_render_list(rows[0]) + spec_render_wave_tail(rows.skip(1))
    }
}

/// Rendering of a solution document: newline-separated number lists,
/// no trailing newline.
pub open spec fn spec_render_output(rows: Seq<Seq<N>>) -> Seq<char> {
    spec_render_list(rows[0]) + spec_render_wave_tail(rows.skip(1))
}

/// Rendering of a header line.
pub open spec fn spec_render_header_line(h: Header) -> Seq<char> {
    spec_render_number(h.units as nat) + seq![' '] + spec_render_number(h.towers as nat)
        + seq![' '] + spec_render_number(h.waves as nat) + seq![' '] + spec_render_number(
        h.budget as nat,
    ) + seq!['\n']
}

/// Rendering of a whole problem document.
pub open spec fn spec_render_input(m: InputModel) -> Seq<char> {
    spec_render_header_line(m.header) + spec_render_rows(m.body.hits) + spec_render_list_line(
        m.body.costs,
    ) + spec_render_list_line(m.body.bonus) + spec_render_output(m.body.waves)
}

/// Every row of a block is a nonempty list, as the grammar demands.
pub open spec fn spec_renderable_rows(rows: Seq<Seq<N>>) -> bool {
    forall|i: int| 0 <= i < rows.len() ==> (#[trigger] rows[i]).len() >= 1
}

/// A problem model that the grammar can write down at all: the hit
/// matrix has exactly the declared shape, and every line of the
/// document is a nonempty list.
pub open spec fn spec_renderable_input(m: InputModel) -> bool {
    &&& m.body.hits.len() == m.header.units
    &&& forall|i: int|
        0 <= i < m.body.hits.len() ==> (#[trigger] m.body.hits[i]).len() == m.header.towers
    &&& spec_renderable_rows(m.body.hits)
    &&& m.body.costs.len() >= 1
    &&& m.body.bonus.len() >= 1
    &&& m.body.waves.len() >= 1
    &&& spec_renderable_rows(m.body.waves)
}

proof fn lemma_render_number_digits(n: nat)
    ensures
        spec_render_number(n).len() >= 1,
        forall|i: int|
            0 <= i < spec_render_number(n).len() ==> is_digit_char(
                #[trigger] spec_render_number(n)[i],
            ),
    decreases n,
{
    if n >= 10 {
        lemma_render_number_digits(n / 10);
    }
}

proof fn lemma_render_number_value(n: nat)
    ensures
        str_to_nat(spec_render_number(n)) == n,
    decreases n,
{
    if n < 10 {
        assert(seq![digit_char(n)].drop_last() =~= Seq::<char>::empty());
        assert(seq![digit_char(n)].last() == digit_char(n));
        assert(str_to_nat(Seq::<char>::empty()) == 0);
        assert(digit_val(digit_char(n)) == n);
    } else {
        lemma_render_number_value(n / 10);
        assert(spec_render_number(n).drop_last() =~= spec_render_number(n / 10));
        assert(spec_render_number(n).last() == digit_char(n % 10));
        assert(digit_val(digit_char(n % 10)) == n % 10);
        vstd::arithmetic::div_mod::lemma_fundamental_div_mod(n as int, 10);
    }
}

/// The digit run of an all-digit text followed by anything that does
/// not begin with a digit is exactly that text.
proof fn lemma_digit_run_concat(s: Seq<char>, rest: Seq<char>)
    requires
        forall|i: int| 0 <= i < s.len() ==> is_digit_char(#[trigger] s[i]),
        rest.len() == 0 || !is_digit_char(rest[0]),
    ensures
        digit_run_len(s + rest) == s.len(),
{
    assert forall|j: int| 0 <= j < s.len() implies is_digit_char(#[trigger] (s + rest)[j]) by {
        assert((s + rest)[j] == s[j]);
    }
    if s.len() < (s + rest).len() {
        assert((s + rest)[s.len() as int] == rest[0]);
    }
    lemma_digit_run_len_unique(s + rest, s.len() as int);
}

/// A rendered number followed by anything that does not begin with a
/// digit parses back to exactly that number.
proof fn lemma_parse_render_number(n: N, rest: Seq<char>)
    requires
        rest.len() == 0 || !is_digit_char(rest[0]),
    ensures
        spec_positive_number(spec_render_number(n as nat) + rest) == Some((rest, n)),
{
    let r = spec_render_number(n as nat);
    let s = r + rest;
    lemma_render_number_digits(n as nat);
    lemma_render_number_value(n as nat);
    lemma_digit_run_concat(r, rest);
    assert(s.take(r.len() as int) =~= r);
    assert(s.skip(r.len() as int) =~= rest);
}

proof fn lemma_single_space_at(x: Seq<char>)
    ensures
        spec_single_space(seq![' '] + x) == Some((x, seq![' '])),
{
    let s = seq![' '] + x;
    assert(s[0] == ' ');
    assert(s.skip(1) =~= x);
    assert(s.take(1) =~= seq![' ']);
}

proof fn lemma_newline_at(x: Seq<char>)
    ensures
        spec_newline(seq!['\n'] + x) == Some(x),
{
    let s = seq!['\n'] + x;
    assert(s[0] == '\n');
    assert(s.skip(1) =~= x);
}

/// A rendered list tail followed by the end of a line parses back to
/// exactly those entries, leaving the line end unconsumed.
proof fn lemma_parse_render_list_tail(l: Seq<N>, rest: Seq<char>)
    requires
        rest.len() == 0 || rest[0] == '\n',
    ensures
        spec_list_tail(spec_render_list_tail(l) + rest) == (rest, l),
    decreases l.len(),
{
    if l.len() == 0 {
        assert(spec_render_list_tail(l) + rest =~= rest);
        assert(l =~= Seq::<N>::empty());
        assert(spec_list_tail(rest) == (rest, Seq::<N>::empty()));
    } else {
        let r0 = spec_render_number(l[0] as nat);
        let tail_text = spec_render_list_tail(l.skip(1));
        let s = spec_render_list_tail(l) + rest;
        lemma_render_number_digits(l[0] as nat);
        assert(s[0] == ' ');
        assert(s.skip(1) =~= r0 + (tail_text + rest));
        let rest2 = tail_text + rest;
        if l.skip(1).len() == 0 {
            assert(rest2 =~= rest);
        } else {
            assert(rest2[0] == ' ');
        }
        lemma_parse_render_number(l[0], rest2);
        lemma_parse_render_list_tail(l.skip(1), rest);
        assert(rest2.len() < s.len());
        assert(seq![l[0]] + l.skip(1) =~= l);
        assert(spec_list_tail(s) == (rest, l));
    }
}

/// A rendered list followed by the end of a line parses back to
/// exactly that list.
proof fn lemma_parse_render_list(l: Seq<N>, rest: Seq<char>)
    requires
        l.len() >= 1,
        rest.len() == 0 || rest[0] == '\n',
    ensures
        spec_number_list(spec_render_list(l) + rest) == Some((rest, l)),
{
    let r0 = spec_render_number(l[0] as nat);
    let tail_text = spec_render_list_tail(l.skip(1));
    let s = spec_render_list(l) + rest;
    let rest2 = tail_text + rest;
    assert(s =~= r0 + rest2);
    lemma_render_number_digits(l[0] as nat);
    if l.skip(1).len() == 0 {
        assert(rest2 =~= rest);
    } else {
        assert(rest2[0] == ' ');
    }
    lemma_parse_render_number(l[0], rest2);
    lemma_parse_render_list_tail(l.skip(1), rest);
    assert(seq![l[0]] + l.skip(1) =~= l);
    assert(spec_number_list(s) == Some((rest, l)));
}

/// A rendered list line parses back to exactly that list, consuming
/// its newline.
proof fn lemma_parse_render_list_line(l: Seq<N>, rest: Seq<char>)
    requires
        l.len() >= 1,
    ensures
        spec_number_list_line(spec_render_list_line(l) + rest) == Some((rest, l)),
{
    let s = spec_render_list_line(l) + rest;
    assert(s =~= spec_render_list(l) + (seq!['\n'] + rest));
    lemma_parse_render_list(l, seq!['\n'] + rest);
    lemma_newline_at(rest);
}

/// A rendered block of exact-width lines parses back to exactly those
/// rows.
proof fn lemma_parse_render_rows(rows: Seq<Seq<N>>, width: nat, rest: Seq<char>)
    requires
        forall|i: int| 0 <= i < rows.len() ==> (#[trigger] rows[i]).len() == width,
        spec_renderable_rows(rows),
    ensures
        spec_rows(spec_render_rows(rows) + rest, rows.len(), width) == Some((rest, rows)),
    decreases rows.len(),
{
    if rows.len() == 0 {
        assert(spec_render_rows(rows) + rest =~= rest);
        assert(rows =~= Seq::<Seq<N>>::empty());
    } else {
        let s = spec_render_rows(rows) + rest;
        let rest2 = spec_render_rows(rows.skip(1)) + rest;
        assert(s =~= spec_render_list_line(rows[0]) + rest2);
        lemma_parse_render_list_line(rows[0], rest2);
        lemma_parse_render_rows(rows.skip(1), width, rest);
        assert(seq![rows[0]] + rows.skip(1) =~= rows);
        assert(spec_rows(s, rows.len(), width) == Some((rest, rows)));
    }
}

/// A rendered wave tail parses back to exactly those rows, consuming
/// the whole text.
proof fn lemma_parse_render_wave_tail(rows: Seq<Seq<N>>)
    requires
        spec_renderable_rows(rows),
    ensures
        spec_wave_tail(spec_render_wave_tail(rows)) == (Seq::<char>::empty(), rows),
    decreases rows.len(),
{
    if rows.len() == 0 {
        assert(rows =~= Seq::<Seq<N>>::empty());
    } else {
        let s = spec_render_wave_tail(rows);
        let rest2 = spec_render_wave_tail(rows.skip(1));
        assert(s[0] == '\n');
        assert(s.skip(1) =~= spec_render_list(rows[0]) + rest2);
        if rows.skip(1).len() == 0 {
            assert(rest2 =~= Seq::<char>::empty());
        } else {
            assert(rest2[0] == '\n');
        }
        lemma_parse_render_list(rows[0], rest2);
        lemma_parse_render_wave_tail(rows.skip(1));
        lemma_render_number_digits(rows[0][0] as nat);
        assert(rest2.len() < s.len());
        assert(seq![rows[0]] + rows.skip(1) =~= rows);
        assert(spec_wave_tail(s) == (Seq::<char>::empty(), rows));
    }
}

/// Writing a solution back down in the grammar and re-parsing it gives
/// back the same structure, with nothing left over. Together with the
/// parsers' exact contracts this is the round trip for solution
/// documents: parsing is a function, so the parsed value is unique.
pub proof fn lemma_parse_render_output(rows: Seq<Seq<N>>)
    requires
        rows.len() >= 1,
        spec_renderable_rows(rows),
    ensures
        spec_parse_output(spec_render_output(rows)) == Some((Seq::<char>::empty(), rows)),
{
    let s = spec_render_output(rows);
    let rest2 = spec_render_wave_tail(rows.skip(1));
    assert(s =~= spec_render_list(rows[0]) + rest2);
    if rows.skip(1).len() == 0 {
        assert(rest2 =~= Seq::<char>::empty());
    } else {
        assert(rest2[0] == '\n');
    }
    lemma_parse_render_list(rows[0], rest2);
    lemma_parse_render_wave_tail(rows.skip(1));
    assert(seq![rows[0]] + rows.skip(1) =~= rows);
}

/// A rendered header line parses back to exactly that header.
#[verifier::rlimit(60)]
proof fn lemma_parse_render_header_line(h: Header, rest: Seq<char>)
    ensures
        spec_header_line(spec_render_header_line(h) + rest) == Some((rest, h)),
{
    let r_units = spec_render_number(h.units as nat);
    let r_towers = spec_render_number(h.towers as nat);
    let r_waves = spec_render_number(h.waves as nat);
    let r_budget = spec_render_number(h.budget as nat);
    let s = spec_render_header_line(h) + rest;
    let a1 = seq![' '] + r_towers + seq![' '] + r_waves + seq![' '] + r_budget + seq!['\n'] + rest;
    let a2 = r_towers + seq![' '] + r_waves + seq![' '] + r_budget + seq!['\n'] + rest;
    let a3 = seq![' '] + r_waves + seq![' '] + r_budget + seq!['\n'] + rest;
    let a4 = r_waves + seq![' '] + r_budget + seq!['\n'] + rest;
    let a5 = seq![' '] + r_budget + seq!['\n'] + rest;
    let a6 = r_budget + (seq!['\n'] + rest);
    assert(s =~= r_units + a1);
    assert(a1[0] == ' ');
    lemma_parse_render_number(h.units, a1);
    assert(a1 =~= seq![' '] + a2);
    lemma_single_space_at(a2);
    lemma_render_number_digits(h.towers as nat);
    assert(a2 =~= r_towers + a3);
    assert(a3[0] == ' ');
    lemma_parse_render_number(h.towers, a3);
    assert(a3 =~= seq![' '] + a4);
    lemma_single_space_at(a4);
    lemma_render_number_digits(h.waves as nat);
    assert(a4 =~= r_waves + a5);
    assert(a5[0] == ' ');
    lemma_parse_render_number(h.waves, a5);
    assert(a5 =~= seq![' '] + a6);
    lemma_single_space_at(a6);
    lemma_render_number_digits(h.budget as nat);
    assert(a6 =~= r_budget + (seq!['\n'] + rest));
    assert((seq!['\n'] + rest)[0] == '\n');
    lemma_parse_render_number(h.budget, seq!['\n'] + rest);
    lemma_newline_at(rest);
    assert(spec_header(s) == Some((seq!['\n'] + rest, h)));
}

/// Writing a problem model back down in the grammar and re-parsing it
/// gives back the same structure, with nothing left over. Together
/// with the parsers' exact contracts this is the round trip for
/// problem documents: parsing is a function, so the parsed value is
/// unique.
pub proof fn lemma_parse_render_input(m: InputModel)
    requires
        spec_renderable_input(m),
    ensures
        spec_parse_input(spec_render_input(m)) == Some((Seq::<char>::empty(), m)),
{
    let s = spec_render_input(m);
    let b1 = spec_render_rows(m.body.hits) + (spec_render_list_line(m.body.costs)
        + (spec_render_list_line(m.body.bonus) + spec_render_output(m.body.waves)));
    assert(s =~= spec_render_header_line(m.header) + b1);
    lemma_parse_render_header_line(m.header, b1);
    let b2 = spec_render_list_line(m.body.costs) + (spec_render_list_line(m.body.bonus)
        + spec_render_output(m.body.waves));
    lemma_parse_render_rows(m.body.hits, m.header.towers as nat, b2);
    let b3 = spec_render_list_line(m.body.bonus) + spec_render_output(m.body.waves);
    lemma_parse_render_list_line(m.body.costs, b3);
    let b4 = spec_render_output(m.body.waves);
    lemma_parse_render_list_line(m.body.bonus, b4);
    lemma_parse_render_output(m.body.waves);
    assert(spec_parse_input_body(b1, m.header.units as nat, m.header.towers as nat) matches Some(
        p,
    ) && p.0 =~= Seq::<char>::empty() && p.1 =~= m.body);
    assert(spec_parse_input(s) == Some((Seq::<char>::empty(), m)));
}

/// Parses the longest nonempty digit prefix of `s`, returning the
/// remaining text and the digit token.
pub fn number<'a>(s: &'a str) -> (r: Result<ParseOk<'a, &'a str>, ParseError>)
    ensures
        r is Ok <==> spec_number(s@) is Some,
        r matches Ok(p) ==> spec_number(s@) == Some((p.0@, p.1@)),
        r matches Err(e) ==> e.contexts@ == seq![Rule::Number] && e.remaining == s@.len(),
{
    let n = s.unicode_len();
    let mut i: usize = 0;
    let mut stop = false;
    while !stop
        invariant
            i <= n,
            n == s@.len(),
            forall|j: int| 0 <= j < i ==> is_digit_char(#[trigger] s@[j]),
            stop ==> i == n || !is_digit_char(s@[i as int]),
        decreases (if stop { 0int } else { 1int }), n - i,
    {
        if i == n {
            stop = true;
        } else {
            let c = s.get_char(i);
            let cv = c as u32;
            if cv < 48 || cv > 57 {
                stop = true;
            } else {
                i = i + 1;
            }
        }
    }
    proof {
        lemma_digit_run_len_unique(s@, i as int);
    }
    if i == 0 {
        Err(ParseError { contexts: vec![Rule::Number], remaining: n })
    } else {
        let rem = s.substring_char(i, n);
        let tok = s.substring_char(0, i);
        proof {
            assert(rem@ =~= s@.skip(i as int));
            assert(tok@ =~= s@.take(i as int));
        }
        Ok((rem, tok))
    }
}

/// Parses exactly one space character.
pub fn single_space<'a>(s: &'a str) -> (r: Result<ParseOk<'a, &'a str>, ParseError>)
    ensures
        r is Ok <==> spec_single_space(s@) is Some,
        r matches Ok(p) ==> spec_single_space(s@) == Some((p.0@, p.1@)),
        r matches Err(e) ==> e.contexts@ == Seq::<Rule>::empty() && e.remaining == s@.len(),
{
    let n = s.unicode_len();
    if n >= 1 && s.get_char(0) == ' ' {
        let rem = s.substring_char(1, n);
        let tok = s.substring_char(0, 1);
        proof {
            assert(rem@ =~= s@.skip(1));
            assert(tok@ =~= s@.take(1));
        }
        Ok((rem, tok))
    } else {
        Err(ParseError { contexts: Vec::new(), remaining: n })
    }
}

/// Parses a number and converts it to the word size; a value that does
/// not fit is a parse error.
pub fn positive_number<'a>(s: &'a str) -> (r: Result<ParseOk<'a, N>, ParseError>)
    ensures
        r is Ok <==> spec_positive_number(s@) is Some,
        r matches Ok(p) ==> spec_positive_number(s@) == Some((p.0@, p.1)),
        r matches Err(e) ==> e.contexts@ == seq![Rule::Number] && e.remaining == s@.len(),
{
    let n = s.unicode_len();
    let (rem, tok) = match number(s) {
        Ok(p) => p,
        Err(e) => {
            return Err(e);
        },
    };
    proof {
        lemma_digit_run_len_props(s@);
    }
    let m = tok.unicode_len();
    let mut acc: usize = 0;
    let mut k: usize = 0;
    while k < m
        invariant
            k <= m,
            m == tok@.len(),
            n == s@.len(),
            spec_number(s@) == Some((rem@, tok@)),
            forall|j: int| 0 <= j < m ==> is_digit_char(#[trigger] tok@[j]),
            acc == str_to_nat(tok@.take(k as int)),
        decreases m - k,
    {
        let c = tok.get_char(k);
        let d = (c as u32 - 48) as usize;
        proof {
            assert(tok@.take(k + 1).drop_last() =~= tok@.take(k as int));
            assert(tok@.take(k + 1).last() == tok@[k as int]);
        }
        let acc10 = match acc.checked_mul(10) {
            Some(v) => v,
            None => {
                proof {
                    lemma_str_to_nat_prefix(tok@, k + 1);
                }
                return Err(ParseError { contexts: vec![Rule::Number], remaining: n });
            },
        };
        acc = match acc10.checked_add(d) {
            Some(v) => v,
            None => {
                proof {
                    lemma_str_to_nat_prefix(tok@, k + 1);
                }
                return Err(ParseError { contexts: vec![Rule::Number], remaining: n });
            },
        };
        k = k + 1;
    }
    proof {
        assert(tok@.take(m as int) =~= tok@);
    }
    Ok((rem, acc))
}

/// Pushes the name of an enclosing grammar rule onto an error's context
/// stack, keeping the stack ordered outermost first.
fn push_context(rule: Rule, e: ParseError) -> (r: ParseError)
    ensures
        r.contexts@ == seq![rule] + e.contexts@,
        r.remaining == e.remaining,
{
    let mut contexts = e.contexts;
    contexts.insert(0, rule);
    ParseError { contexts, remaining: e.remaining }
}

/// Parses a single newline character.
fn newline<'a>(s: &'a str) -> (r: Result<&'a str, ParseError>)
    ensures
        r is Ok <==> spec_newline(s@) is Some,
        r matches Ok(rem) ==> spec_newline(s@) == Some(rem@),
        r matches Err(e) ==> e.contexts@ == Seq::<Rule>::empty() && e.remaining == s@.len(),
{
    let n = s.unicode_len();
    if n >= 1 && s.get_char(0) == '\n' {
        let rem = s.substring_char(1, n);
        proof {
            assert(rem@ =~= s@.skip(1));
        }
        Ok(rem)
    } else {
        Err(ParseError { contexts: Vec::new(), remaining: n })
    }
}

/// Parses the four header numbers `units towers waves budget`.
pub fn header<'a>(s: &'a str) -> (r: Result<ParseOk<'a, Header>, ParseError>)
    ensures
        r is Ok <==> spec_header(s@) is Some,
        r matches Ok(p) ==> spec_header(s@) == Some((p.0@, p.1)),
        r matches Err(e) ==> e.remaining <= s@.len(),
{
    let (s1, units) = match positive_number(s) {
        Ok(p) => p,
        Err(e) => {
            return Err(e);
        },
    };
    proof {
        lemma_positive_number_consumes(s@);
    }
    let (s2, _) = match single_space(s1) {
        Ok(p) => p,
        Err(e) => {
            return Err(e);
        },
    };
    let (s3, towers) = match positive_number(s2) {
        Ok(p) => p,
        Err(e) => {
            return Err(e);
        },
    };
    proof {
        lemma_positive_number_consumes(s2@);
    }
    let (s4, _) = match single_space(s3) {
        Ok(p) => p,
        Err(e) => {
            return Err(e);
        },
    };
    let (s5, waves) = match positive_number(s4) {
        Ok(p) => p,
        Err(e) => {
            return Err(e);
        },
    };
    proof {
        lemma_positive_number_consumes(s4@);
    }
    let (s6, _) = match single_space(s5) {
        Ok(p) => p,
        Err(e) => {
            return Err(e);
        },
    };
    let (s7, budget) = match positive_number(s6) {
        Ok(p) => p,
        Err(e) => {
            return Err(e);
        },
    };
    Ok((s7, Header { units, towers, waves, budget }))
}

/// Parses a header line: the four header numbers and a newline.
pub fn header_line<'a>(s: &'a str) -> (r: Result<ParseOk<'a, Header>, ParseError>)
    ensures
        r is Ok <==> spec_header_line(s@) is Some,
        r matches Ok(p) ==> spec_header_line(s@) == Some((p.0@, p.1)),
        r matches Err(e) ==> e.contexts@.len() >= 1 && e.contexts@[0] == Rule::Header
            && e.remaining <= s@.len(),
{
    proof {
        lemma_header_consumes(s@);
    }
    match header(s) {
        Ok((rem, h)) => match newline(rem) {
            Ok(rem2) => Ok((rem2, h)),
            Err(e) => Err(push_context(Rule::Header, e)),
        },
        Err(e) => Err(push_context(Rule::Header, e)),
    }
}

/// Parses a list of one or more numbers separated by single spaces,
/// stopping before the first text that is not a space followed by a
/// number.
pub fn number_list<'a>(s: &'a str) -> (r: Result<ParseOk<'a, Vec<N>>, ParseError>)
    ensures
        r is Ok <==> spec_number_list(s@) is Some,
        r matches Ok(p) ==> spec_number_list(s@) == Some((p.0@, p.1@)),
        r matches Err(e) ==> e.contexts@ == seq![Rule::Number] && e.remaining == s@.len(),
{
    let (first_rem, first) = match positive_number(s) {
        Ok(p) => p,
        Err(e) => {
            return Err(e);
        },
    };
    let mut items: Vec<N> = Vec::new();
    items.push(first);
    let mut cur: &'a str = first_rem;
    let mut stop = false;
    proof {
        assert(items@ =~= seq![first]);
    }
    while !stop
        invariant
            spec_number_list(s@) is Some,
            spec_number_list(s@) == Some(
                (spec_list_tail(cur@).0, items@ + spec_list_tail(cur@).1),
            ),
            stop ==> spec_list_tail(cur@) == (cur@, Seq::<N>::empty()),
        decreases (if stop { 0int } else { 1int }), cur@.len(),
    {
        let n_cur = cur.unicode_len();
        if n_cur >= 1 && cur.get_char(0) == ' ' {
            let after_space = cur.substring_char(1, n_cur);
            proof {
                assert(after_space@ =~= cur@.skip(1));
            }
            match positive_number(after_space) {
                Ok((rem2, v)) => {
                    proof {
                        lemma_positive_number_consumes(cur@.skip(1));
                        assert(spec_list_tail(cur@).0 == spec_list_tail(rem2@).0);
                        assert(spec_list_tail(cur@).1 =~= seq![v] + spec_list_tail(rem2@).1);
                        assert((items@ + seq![v]) + spec_list_tail(rem2@).1 =~= items@
                            + spec_list_tail(cur@).1);
                    }
                    items.push(v);
                    cur = rem2;
                },
                Err(_) => {
                    stop = true;
                },
            }
        } else {
            stop = true;
        }
    }
    proof {
        assert(items@ + spec_list_tail(cur@).1 =~= items@);
    }
    Ok((cur, items))
}

/// Parses a number list followed by a newline.
pub fn number_list_line<'a>(s: &'a str) -> (r: Result<ParseOk<'a, Vec<N>>, ParseError>)
    ensures
        r is Ok <==> spec_number_list_line(s@) is Some,
        r matches Ok(p) ==> spec_number_list_line(s@) == Some((p.0@, p.1@)),
        r matches Err(e) ==> e.remaining <= s@.len(),
{
    proof {
        lemma_number_list_consumes(s@);
    }
    let (rem, l) = match number_list(s) {
        Ok(p) => p,
        Err(e) => {
            return Err(e);
        },
    };
    match newline(rem) {
        Ok(rem2) => Ok((rem2, l)),
        Err(e) => Err(e),
    }
}

/// Parses one or more newline-separated number lists, stopping before
/// the first text that is not a newline followed by a number list.
fn wave_lines<'a>(s: &'a str) -> (r: Result<ParseOk<'a, Vec<Vec<N>>>, ParseError>)
    ensures
        r is Ok <==> spec_wave_block(s@) is Some,
        r matches Ok(p) ==> spec_wave_block(s@) == Some((p.0@, rows_view(p.1@))),
        r matches Err(e) ==> e.contexts@ == seq![Rule::Number] && e.remaining == s@.len(),
{
    let (first_rem, first) = match number_list(s) {
        Ok(p) => p,
        Err(e) => {
            return Err(e);
        },
    };
    let mut items: Vec<Vec<N>> = Vec::new();
    items.push(first);
    let mut cur: &'a str = first_rem;
    let mut stop = false;
    proof {
        assert(rows_view(items@) =~= seq![items@[0]@]);
    }
    while !stop
        invariant
            spec_wave_block(s@) is Some,
            spec_wave_block(s@) == Some(
                (spec_wave_tail(cur@).0, rows_view(items@) + spec_wave_tail(cur@).1),
            ),
            stop ==> spec_wave_tail(cur@) == (cur@, Seq::<Seq<N>>::empty()),
        decreases (if stop { 0int } else { 1int }), cur@.len(),
    {
        let n_cur = cur.unicode_len();
        if n_cur >= 1 && cur.get_char(0) == '\n' {
            let after_nl = cur.substring_char(1, n_cur);
            proof {
                assert(after_nl@ =~= cur@.skip(1));
            }
            match number_list(after_nl) {
                Ok((rem2, row)) => {
                    proof {
                        lemma_number_list_consumes(cur@.skip(1));
                        assert(spec_wave_tail(cur@).0 == spec_wave_tail(rem2@).0);
                        assert(spec_wave_tail(cur@).1 =~= seq![row@] + spec_wave_tail(rem2@).1);
                        assert(rows_view(items@.push(row)) =~= rows_view(items@) + seq![row@]);
                        assert((rows_view(items@) + seq![row@]) + spec_wave_tail(rem2@).1
                            =~= rows_view(items@) + spec_wave_tail(cur@).1);
                    }
                    items.push(row);
                    cur = rem2;
                },
                Err(_) => {
                    stop = true;
                },
            }
        } else {
            stop = true;
        }
    }
    proof {
        assert(rows_view(items@) + spec_wave_tail(cur@).1 =~= rows_view(items@));
    }
    Ok((cur, items))
}

/// Parses exactly `n` number-list lines of exactly `width` entries each.
fn hit_rows<'a>(s: &'a str, n: usize, width: usize) -> (r: Result<
    ParseOk<'a, Vec<Vec<N>>>,
    ParseError,
>)
    ensures
        r is Ok <==> spec_rows(s@, n as nat, width as nat) is Some,
        r matches Ok(p) ==> spec_rows(s@, n as nat, width as nat) == Some(
            (p.0@, rows_view(p.1@)),
        ),
        r matches Err(e) ==> e.remaining <= s@.len(),
{
    let mut rows: Vec<Vec<N>> = Vec::new();
    let mut cur: &'a str = s;
    let mut i: usize = 0;
    proof {
        assert(rows_view(rows@) =~= Seq::<Seq<N>>::empty());
    }
    while i < n
        invariant
            i <= n,
            cur@.len() <= s@.len(),
            (match spec_rows(cur@, (n - i) as nat, width as nat) {
                Some(q) => spec_rows(s@, n as nat, width as nat) == Some(
                    (q.0, rows_view(rows@) + q.1),
                ),
                None => spec_rows(s@, n as nat, width as nat) is None,
            }),
        decreases n - i,
    {
        proof {
            lemma_number_list_line_consumes(cur@);
        }
        let (rem, row) = match number_list_line(cur) {
            Ok(p) => p,
            Err(e) => {
                return Err(e);
            },
        };
        if row.len() != width {
            return Err(ParseError { contexts: Vec::new(), remaining: cur.unicode_len() });
        }
        proof {
            match spec_rows(rem@, (n - i - 1) as nat, width as nat) {
                Some(q2) => {
                    assert(rows_view(rows@.push(row)) =~= rows_view(rows@) + seq![row@]);
                    assert((rows_view(rows@) + seq![row@]) + q2.1 =~= rows_view(rows@) + (
                    seq![row@] + q2.1));
                },
                None => {},
            }
        }
        rows.push(row);
        cur = rem;
        i = i + 1;
    }
    proof {
        assert(rows_view(rows@) + Seq::<Seq<N>>::empty() =~= rows_view(rows@));
    }
    Ok((cur, rows))
}

/// Parses a problem body against the dimensions its header declares.
pub fn parse_input_body<'a>(s: &'a str, header: &Header) -> (r: Result<
    ParseOk<'a, Body>,
    ParseError,
>)
    ensures
        r is Ok <==> spec_parse_input_body(s@, header.units as nat, header.towers as nat)
            is Some,
        r matches Ok(p) ==> spec_parse_input_body(s@, header.units as nat, header.towers as nat)
            == Some((p.0@, p.1@)),
        r matches Err(e) ==> e.contexts@.len() >= 1 && e.remaining <= s@.len() && (e.contexts@[0]
            == Rule::Hits || e.contexts@[0] == Rule::Costs || e.contexts@[0] == Rule::Bonus
            || e.contexts@[0] == Rule::Waves),
{
    proof {
        lemma_rows_consume(s@, header.units as nat, header.towers as nat);
    }
    let (s1, hits) = match hit_rows(s, header.units, header.towers) {
        Ok(p) => p,
        Err(e) => {
            return Err(push_context(Rule::Hits, e));
        },
    };
    proof {
        lemma_number_list_line_consumes(s1@);
    }
    let (s2, costs) = match number_list_line(s1) {
        Ok(p) => p,
        Err(e) => {
            return Err(push_context(Rule::Costs, e));
        },
    };
    proof {
        lemma_number_list_line_consumes(s2@);
    }
    let (s3, bonus) = match number_list_line(s2) {
        Ok(p) => p,
        Err(e) => {
            return Err(push_context(Rule::Bonus, e));
        },
    };
    let (s4, waves) = match wave_lines(s3) {
        Ok(p) => p,
        Err(e) => {
            return Err(push_context(Rule::Waves, e));
        },
    };
    Ok((s4, Body { hits, waves, bonus, costs }))
}

/// Parses a whole problem document: header line, hit matrix, costs,
/// bonus and wave requirements.
pub fn parse_input<'a>(s: &'a str) -> (r: Result<ParseOk<'a, Input>, ParseError>)
    ensures
        r is Ok <==> spec_parse_input(s@) is Some,
        r matches Ok(p) ==> spec_parse_input(s@) == Some((p.0@, p.1@)),
        r matches Err(e) ==> e.contexts@.len() >= 1 && e.remaining <= s@.len() && (e.contexts@[0]
            == Rule::Header || e.contexts@[0] == Rule::Hits || e.contexts@[0] == Rule::Costs
            || e.contexts@[0] == Rule::Bonus || e.contexts@[0] == Rule::Waves),
{
    proof {
        lemma_header_line_consumes(s@);
    }
    let (s1, header) = match header_line(s) {
        Ok(p) => p,
        Err(e) => {
            return Err(e);
        },
    };
    let (s2, body) = match parse_input_body(s1, &header) {
        Ok(p) => p,
        Err(e) => {
            return Err(e);
        },
    };
    Ok((s2, Input { header, body }))
}

/// Parses a whole solution document: one or more lines of tower
/// quantities.
pub fn parse_output<'a>(s: &'a str) -> (r: Result<ParseOk<'a, Output>, ParseError>)
    ensures
        r is Ok <==> spec_parse_output(s@) is Some,
        r matches Ok(p) ==> spec_parse_output(s@) == Some((p.0@, p.1@)),
        r matches Err(e) ==> e.contexts@ == seq![Rule::Output, Rule::Number] && e.remaining
            == s@.len(),
{
    match wave_lines(s) {
        Ok((rem, waves)) => Ok((rem, Output { waves })),
        Err(e) => Err(push_context(Rule::Output, e)),
    }
}

} // verus!
