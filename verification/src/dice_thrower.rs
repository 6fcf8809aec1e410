//! Dice notation: `+`-separated terms, each either a flat modifier (a bare
//! number) or `[N]dM` for `N` dice of `M` sides, `N` defaulting to 1. An
//! unparseable term becomes a sentinel `Error` token that contributes
//! nothing to a roll. Rolling consumes the parsed request against a
//! chance source.

use vstd::prelude::*;

use crate::chance::ChanceSource;
use crate::chance::spec_next_state;
use crate::chance::spec_roll_value;

verus! {

/// A term that rolls `number_of_dice` dice of `number_of_die_sides` sides.
#[derive(Clone, Copy, Debug, PartialEq, Eq, Structural)]
pub struct DiceThrowDescription {
    pub number_of_dice: u16,
    pub number_of_die_sides: u8,
}

/// How a flat modifier combines with the rolled dice.
#[derive(Clone, Copy, Debug, PartialEq, Eq, Structural)]
pub enum ModifierOperators {
    Add,
}

/// A flat modifier term.
#[derive(Clone, Copy, Debug, PartialEq, Eq, Structural)]
pub struct DiceThrowModifier {
    pub operator: ModifierOperators,
    pub value: u8,
}

/// One parsed term of a dice expression.
#[derive(Clone, Copy, Debug, PartialEq, Eq, Structural)]
pub enum RequestToken {
    Dice(DiceThrowDescription),
    Modifier(DiceThrowModifier),
    Error,
}

/// A parsed dice expression: the list of its terms.
#[derive(Clone, Debug)]
pub struct RollRequest {
    pub request_list: Vec<RequestToken>,
}

impl View for RollRequest {
    type V = Seq<RequestToken>;

    open spec fn view(&self) -> Seq<RequestToken> {
        self.request_list@
    }
}

/// The whitespace that is stripped before parsing.
pub open spec fn is_space(c: char) -> bool {
    c == ' ' || c == '\t' || c == '\n' || c == '\r'
}

/// `s` with every whitespace character removed.
pub open spec fn spec_strip(s: Seq<char>) -> Seq<char>
    decreases s.len(),
{
    if s.len() == 0 {
        Seq::empty()
    } else if is_space(s[0]) {
        spec_strip(s.drop_first())
    } else {
        seq![s[0]] + spec_strip(s.drop_first())
    }
}

/// The index of the first occurrence of `sep` in `s`, or -1 if absent.
pub open spec fn spec_find(s: Seq<char>, sep: char) -> int
    decreases s.len(),
{
    if s.len() == 0 {
        -1
    } else if s[0] == sep {
        0
    } else if spec_find(s.drop_first(), sep) < 0 {
        -1
    } else {
        spec_find(s.drop_first(), sep) + 1
    }
}

/// What `spec_find` returns: the least index holding `sep`, if any.
pub proof fn lemma_spec_find(s: Seq<char>, sep: char)
    ensures
        spec_find(s, sep) < 0 ==> forall|j: int| 0 <= j < s.len() ==> s[j] != sep,
        spec_find(s, sep) >= 0 ==> spec_find(s, sep) < s.len() && s[spec_find(s, sep)] == sep
            && forall|j: int| 0 <= j < spec_find(s, sep) ==> s[j] != sep,
    decreases s.len(),
{
    if s.len() > 0 && s[0] != sep {
        lemma_spec_find(s.drop_first(), sep);
        let d = spec_find(s.drop_first(), sep);
        if d < 0 {
            assert forall|j: int| 0 <= j < s.len() implies s[j] != sep by {
                if j > 0 {
                    assert(s.drop_first()[j - 1] == s[j]);
                }
            }
        } else {
            assert(s[d + 1] == s.drop_first()[d]);
            assert forall|j: int| 0 <= j < d + 1 implies s[j] != sep by {
                if j > 0 {
                    assert(s.drop_first()[j - 1] == s[j]);
                }
            }
        }
    }
}

/// `s` cut at every occurrence of `sep`, the separators dropped.
pub open spec fn spec_split(s: Seq<char>, sep: char) -> Seq<Seq<char>>
    decreases s.len(),
    via spec_split_decreases
{
    let i = spec_find(s, sep);
    if i < 0 {
        seq![s]
    } else {
        seq![s.take(i)] + spec_split(s.skip(i + 1), sep)
    }
}

#[via_fn]
proof fn spec_split_decreases(s: Seq<char>, sep: char) {
    lemma_spec_find(s, sep);
}

/// True of a decimal digit.
pub open spec fn is_digit(c: char) -> bool {
    48 <= (c as u32) && (c as u32) <= 57
}

/// The numeric value of a digit sequence, most significant first.
pub open spec fn spec_digits_val(s: Seq<char>) -> int
    decreases s.len(),
{
    if s.len() == 0 {
        0
    } else {
        spec_digits_val(s.drop_last()) * 10 + ((s.last() as u32) - 48)
    }
}

/// True of a non-empty, all-digit sequence: only such a sequence is a
/// number.
pub open spec fn is_number(s: Seq<char>) -> bool {
    s.len() > 0 && forall|j: int| 0 <= j < s.len() ==> is_digit(#[trigger] s[j])
}

/// The token one term parses to.
pub open spec fn spec_make_token(t: Seq<char>) -> RequestToken {
    let i = spec_find(t, 'd');
    if i < 0 {
        if is_number(t) && spec_digits_val(t) <= 255 {
            RequestToken::Modifier(DiceThrowModifier {
                operator: ModifierOperators::Add,
                value: spec_digits_val(t) as u8,
            })
        } else {
            RequestToken::Error
        }
    } else {
        let left = t.take(i);
        let right = t.skip(i + 1);
        if spec_find(right, 'd') >= 0 {
            RequestToken::Error
        } else if !(left.len() == 0 || (is_number(left) && spec_digits_val(left) <= 65535)) {
            RequestToken::Error
        } else if !(is_number(right) && 1 <= spec_digits_val(right) && spec_digits_val(right)
            <= 255) {
            RequestToken::Error
        } else {
            RequestToken::Dice(DiceThrowDescription {
                number_of_dice: if left.len() == 0 {
                    1u16
                } else {
                    spec_digits_val(left) as u16
                },
                number_of_die_sides: spec_digits_val(right) as u8,
            })
        }
    }
}

/// The token list a whole request string parses to.
pub open spec fn spec_parse_request(s: Seq<char>) -> Seq<RequestToken> {
    spec_split(spec_strip(s), '+').map_values(|t: Seq<char>| spec_make_token(t))
}

/// A token list whose dice terms can actually be rolled: every die has at
/// least one side.
pub open spec fn spec_tokens_wf(tokens: Seq<RequestToken>) -> bool {
    forall|i: int| 0 <= i < tokens.len() ==> (#[trigger] tokens[i] matches RequestToken::Dice(d)
        ==> d.number_of_die_sides >= 1)
}

/// Every token list that parsing yields is well formed.
pub proof fn lemma_spec_parse_request_wf(s: Seq<char>)
    ensures
        spec_tokens_wf(spec_parse_request(s)),
{
    let segs = spec_split(spec_strip(s), '+');
    let tokens = spec_parse_request(s);
    assert forall|i: int| 0 <= i < tokens.len() implies (#[trigger] tokens[i] matches
        RequestToken::Dice(d) ==> d.number_of_die_sides >= 1) by {
        assert(tokens[i] == spec_make_token(segs[i]));
    }
}

/// `a + b`, stopping at the largest 16-bit value.
pub open spec fn sat_add16(a: u16, b: u16) -> u16 {
    if a + b > 65535 {
        65535u16
    } else {
        (a + b) as u16
    }
}

/// Total and final generator state of rolling `n` dice of `sides` sides
/// from `state`, added onto `acc`.
pub open spec fn spec_roll_n(n: u16, sides: u8, state: u64, acc: u16) -> (u16, u64)
    decreases n,
{
    if n == 0 {
        (acc, state)
    } else {
        spec_roll_n(
            (n - 1) as u16,
            sides,
            spec_next_state(state),
            sat_add16(acc, spec_roll_value(state, sides) as u16),
        )
    }
}

/// Total and final generator state of rolling a whole token list from
/// `state`, added onto `acc`. Dice terms consume rolls in order; modifier
/// terms add their value; error terms add nothing.
pub open spec fn spec_throw(tokens: Seq<RequestToken>, state: u64, acc: u16) -> (u16, u64)
    decreases tokens.len(),
{
    if tokens.len() == 0 {
        (acc, state)
    } else {
        let step = match tokens[0] {
            RequestToken::Dice(d) => spec_roll_n(d.number_of_dice, d.number_of_die_sides, state, acc),
            RequestToken::Modifier(m) => (sat_add16(acc, m.value as u16), state),
            RequestToken::Error => (acc, state),
        };
        spec_throw(tokens.drop_first(), step.1, step.0)
    }
}

/// The largest total a token list can roll, saturated to 16 bits.
pub open spec fn spec_max_total(tokens: Seq<RequestToken>) -> int
    decreases tokens.len(),
{
    if tokens.len() == 0 {
        0
    } else {
        let first: int = match tokens[0] {
            RequestToken::Dice(d) => d.number_of_dice * d.number_of_die_sides,
            RequestToken::Modifier(m) => m.value as int,
            RequestToken::Error => 0,
        };
        first + spec_max_total(tokens.drop_first())
    }
}

/// The smallest total a token list can roll: every die shows one.
pub open spec fn spec_min_total(tokens: Seq<RequestToken>) -> int
    decreases tokens.len(),
{
    if tokens.len() == 0 {
        0
    } else {
        let first: int = match tokens[0] {
            RequestToken::Dice(d) => d.number_of_dice as int,
            RequestToken::Modifier(m) => m.value as int,
            RequestToken::Error => 0,
        };
        first + spec_min_total(tokens.drop_first())
    }
}

/// `x`, stopped at the largest 16-bit value.
pub open spec fn sat16i(x: int) -> int {
    if x > 65535 {
        65535
    } else {
        x
    }
}

/// The possible totals of a well-formed token list: between rolling one
/// on every die and the highest face of every die.
proof fn lemma_totals_ordered(tokens: Seq<RequestToken>)
    requires
        spec_tokens_wf(tokens),
    ensures
        0 <= spec_min_total(tokens) <= spec_max_total(tokens),
    decreases tokens.len(),
{
    if tokens.len() > 0 {
        assert(spec_tokens_wf(tokens.drop_first())) by {
            assert(forall|i: int|
                0 <= i < tokens.drop_first().len() ==> #[trigger] tokens.drop_first()[i]
                    == tokens[i + 1]);
        }
        lemma_totals_ordered(tokens.drop_first());
        match tokens[0] {
            RequestToken::Dice(d) => {
                assert(d.number_of_dice <= d.number_of_dice * d.number_of_die_sides)
                    by (nonlinear_arith)
                    requires
                        d.number_of_die_sides >= 1,
                ;
            },
            _ => {},
        }
    }
}

/// The characters of `s`, as a vector.
fn chars_of(s: &str) -> (r: Vec<char>)
    ensures
        r@ == s@,
{
    let n = s.unicode_len();
    let mut r: Vec<char> = Vec::new();
    for i in 0..n
        invariant
            n == s@.len(),
            r@ == s@.take(i as int),
    {
        r.push(s.get_char(i));
        assert(s@.take(i + 1) =~= s@.take(i as int).push(s@[i as int]));
    }
    assert(s@.take(n as int) =~= s@);
    r
}

/// `s` with every whitespace character removed.
fn strip_spaces(s: &Vec<char>) -> (r: Vec<char>)
    ensures
        r@ == spec_strip(s@),
{
    let n = s.len();
    let mut r: Vec<char> = Vec::new();
    proof {
        assert(s@.skip(0) =~= s@);
        assert(r@ + spec_strip(s@) =~= spec_strip(s@));
    }
    for i in 0..n
        invariant
            n == s@.len(),
            r@ + spec_strip(s@.skip(i as int)) == spec_strip(s@),
    {
        let c = s[i];
        assert(s@.skip(i as int).drop_first() =~= s@.skip(i + 1));
        assert(s@.skip(i as int)[0] == s@[i as int]);
        if !(c == ' ' || c == '\t' || c == '\n' || c == '\r') {
            let ghost r0 = r@;
            proof {
                assert(seq![c] + spec_strip(s@.skip(i + 1)) == spec_strip(s@.skip(i as int)));
                assert((r0 + seq![c]) + spec_strip(s@.skip(i + 1)) =~= r0 + spec_strip(
                    s@.skip(i as int),
                ));
            }
            r.push(c);
            assert(r@ =~= r0 + seq![c]);
        }
    }
    assert(s@.skip(n as int) =~= Seq::<char>::empty());
    assert(r@ =~= r@ + spec_strip(s@.skip(n as int)));
    r
}

/// The index of the first occurrence of `sep` in `s`, if any.
fn find_char(s: &Vec<char>, sep: char) -> (r: Option<usize>)
    ensures
        r matches Some(i) ==> i == spec_find(s@, sep),
        r is None ==> spec_find(s@, sep) < 0,
{
    let n = s.len();
    for i in 0..n
        invariant
            n == s@.len(),
            forall|j: int| 0 <= j < i ==> s@[j] != sep,
    {
        if s[i] == sep {
            proof {
                lemma_spec_find(s@, sep);
                let f = spec_find(s@, sep);
                if f < i {
                    assert(s@[f] == sep);
                }
            }
            return Some(i);
        }
    }
    proof {
        lemma_spec_find(s@, sep);
        let f = spec_find(s@, sep);
        if f >= 0 {
            assert(s@[f] == sep);
        }
    }
    None
}

/// The characters of `s` from `from` (inclusive) to `to` (exclusive).
fn subvec(s: &Vec<char>, from: usize, to: usize) -> (r: Vec<char>)
    requires
        from <= to <= s@.len(),
    ensures
        r@ == s@.subrange(from as int, to as int),
{
    let mut r: Vec<char> = Vec::new();
    for i in from..to
        invariant
            from <= i <= to <= s@.len(),
            r@ == s@.subrange(from as int, i as int),
    {
        r.push(s[i]);
        assert(s@.subrange(from as int, i + 1) =~= s@.subrange(from as int, i as int).push(
            s@[i as int],
        ));
    }
    r
}

/// The value of a number term: `None` where the term is not a number or
/// its value does not fit 16 bits.
fn parse_num(t: &Vec<char>) -> (r: Option<u32>)
    ensures
        r matches Some(v) ==> is_number(t@) && v == spec_digits_val(t@) && v <= 65535,
        r is None ==> !is_number(t@) || spec_digits_val(t@) > 65535,
{
    let n = t.len();
    if n == 0 {
        return None;
    }
    let mut acc: u32 = 0;
    let over: u32 = 70000;
    for i in 0..n
        invariant
            n == t@.len(),
            forall|j: int| 0 <= j < i ==> is_digit(#[trigger] t@[j]),
            spec_digits_val(t@.take(i as int)) <= 65535 ==> acc == spec_digits_val(
                t@.take(i as int),
            ),
            spec_digits_val(t@.take(i as int)) > 65535 ==> acc == over,
            over == 70000,
            acc <= over,
            spec_digits_val(t@.take(i as int)) >= 0,
    {
        let c = t[i];
        let cv = c as u32;
        if !(48 <= cv && cv <= 57) {
            return None;
        }
        let d = cv - 48;
        assert(is_digit(t@[i as int]));
        proof {
            assert(t@.take(i + 1).drop_last() =~= t@.take(i as int));
            assert(t@.take(i + 1).last() == t@[i as int]);
            assert(spec_digits_val(t@.take(i + 1)) == spec_digits_val(t@.take(i as int)) * 10 + (
            (t@[i as int] as u32) - 48));
        }
        let next = acc * 10 + d;
        if next > 65535 {
            acc = over;
        } else {
            acc = next;
        }
    }
    proof {
        assert(t@.take(n as int) =~= t@);
    }
    if acc == over {
        None
    } else {
        Some(acc)
    }
}

/// The token one term parses to.
pub fn make_request_token(in_token: &Vec<char>) -> (r: RequestToken)
    ensures
        r == spec_make_token(in_token@),
{
    match find_char(in_token, 'd') {
        None => {
            match parse_num(in_token) {
                Some(v) => {
                    if v <= 255 {
                        RequestToken::Modifier(DiceThrowModifier {
                            operator: ModifierOperators::Add,
                            value: v as u8,
                        })
                    } else {
                        RequestToken::Error
                    }
                },
                None => RequestToken::Error,
            }
        },
        Some(i) => {
            proof {
                lemma_spec_find(in_token@, 'd');
            }
            let n = in_token.len();
            assert(i < n);
            let left = subvec(in_token, 0, i);
            let right = subvec(in_token, i + 1, n);
            assert(left@ =~= in_token@.take(i as int));
            assert(right@ =~= in_token@.skip(i + 1));
            match find_char(&right, 'd') {
                Some(_) => RequestToken::Error,
                None => {
                    let number_of_dice: u16 = if left.len() == 0 {
                        1u16
                    } else {
                        match parse_num(&left) {
                            Some(v) => (v as u16),
                            None => {
                                return RequestToken::Error;
                            },
                        }
                    };
                    match parse_num(&right) {
                        Some(v) => {
                            if 1 <= v && v <= 255 {
                                RequestToken::Dice(DiceThrowDescription {
                                    number_of_dice,
                                    number_of_die_sides: v as u8,
                                })
                            } else {
                                RequestToken::Error
                            }
                        },
                        None => RequestToken::Error,
                    }
                },
            }
        },
    }
}

/// The terms of `request_string`, whitespace stripped, each parsed to its
/// token.
pub fn tokenize(request_string: String) -> (r: Vec<RequestToken>)
    ensures
        r@ == spec_parse_request(request_string@),
{
    let stripped = strip_spaces(&chars_of(request_string.as_str()));
    let segments: Vec<Vec<char>> = split_on_plus(stripped);
    let mut r: Vec<RequestToken> = Vec::new();
    let n = segments.len();
    let ghost segs = spec_split(spec_strip(request_string@), '+');
    for i in 0..n
        invariant
            n == segs.len(),
            segments@.map_values(|v: Vec<char>| v@) == segs,
            r@ == segs.map_values(|t: Seq<char>| spec_make_token(t)).take(i as int),
    {
        assert(segments@[i as int]@ == segs[i as int]);
        let tok = make_request_token(&segments[i]);
        r.push(tok);
        assert(r@ =~= segs.map_values(|t: Seq<char>| spec_make_token(t)).take(i + 1));
    }
    assert(r@ =~= segs.map_values(|t: Seq<char>| spec_make_token(t)));
    r
}

/// `s` cut at every `+`, the separators dropped.
fn split_on_plus(s: Vec<char>) -> (r: Vec<Vec<char>>)
    ensures
        r@.map_values(|v: Vec<char>| v@) == spec_split(s@, '+'),
        r@.len() >= 1,
    decreases s@.len(),
{
    match find_char(&s, '+') {
        None => {
            let mut r: Vec<Vec<char>> = Vec::new();
            r.push(s);
            assert(r@.map_values(|v: Vec<char>| v@) =~= spec_split(s@, '+'));
            r
        },
        Some(i) => {
            proof {
                lemma_spec_find(s@, '+');
            }
            let n = s.len();
            assert(i < n);
            let left = subvec(&s, 0, i);
            let rest = subvec(&s, i + 1, n);
            assert(left@ =~= s@.take(i as int));
            assert(rest@ =~= s@.skip(i + 1));
            let ghost restv = rest@;
            let mut r = split_on_plus(rest);
            r.insert(0, left);
            assert(r@.map_values(|v: Vec<char>| v@) =~= seq![s@.take(i as int)] + spec_split(
                restv,
                '+',
            ));
            r
        },
    }
}

/// Parses a dice expression; parsing always succeeds, unparseable terms
/// becoming `Error` tokens.
pub fn parse_request(request_string: &str) -> (r: Option<RollRequest>)
    ensures
        r matches Some(req) && req@ == spec_parse_request(request_string@),
        spec_tokens_wf(spec_parse_request(request_string@)),
{
    let tokens = tokenize(request_string.to_owned());
    proof {
        lemma_spec_parse_request_wf(request_string@);
    }
    Some(RollRequest { request_list: tokens })
}

/// `a + b`, stopping at the largest 16-bit value.
fn sat_add(a: u16, b: u16) -> (r: u16)
    ensures
        r == sat_add16(a, b),
{
    let s: u32 = a as u32 + b as u32;
    if s > 65535 {
        65535
    } else {
        s as u16
    }
}

/// The total of one dice roll.
pub struct RollResult {
    pub total: u16,
}

/// Rolls `num_dice` dice of `num_sides` sides against the chance source,
/// totalling the outcomes.
pub fn roll_dice(num_dice: u16, num_sides: u8, source: &mut ChanceSource) -> (r: RollResult)
    requires
        num_sides >= 1,
    ensures
        final(source).seeded == old(source).seeded,
        old(source).seeded ==> (r.total, final(source).state) == spec_roll_n(
            num_dice,
            num_sides,
            old(source).state,
            0,
        ),
        !old(source).seeded ==> final(source).state == old(source).state,
        r.total <= num_dice * num_sides,
        r.total >= num_dice,
{
    let mut roll_result = RollResult { total: 0 };
    let mut remaining: u16 = num_dice;
    let ghost total0 = spec_roll_n(num_dice, num_sides, old(source).state, 0);
    while remaining > 0
        invariant
            num_sides >= 1,
            remaining <= num_dice,
            source.seeded == old(source).seeded,
            old(source).seeded ==> spec_roll_n(remaining, num_sides, source.state, roll_result.total)
                == total0,
            !old(source).seeded ==> source.state == old(source).state,
            roll_result.total <= (num_dice - remaining) * num_sides,
            roll_result.total >= num_dice - remaining,
        decreases remaining,
    {
        let roll = source.roll(num_sides);
        proof {
            assert((num_dice - remaining) * num_sides + num_sides <= (num_dice - (remaining - 1))
                * num_sides) by (nonlinear_arith);
        }
        roll_result.total = sat_add(roll_result.total, roll as u16);
        remaining = remaining - 1;
    }
    roll_result
}

/// Rolls a parsed request against the chance source: each dice term in
/// order, each modifier added, error terms contributing nothing. The
/// total saturates at the largest 16-bit value.
pub fn throw_roll(roll_request_list: &RollRequest, source: &mut ChanceSource) -> (r: u16)
    requires
        spec_tokens_wf(roll_request_list@),
    ensures
        final(source).seeded == old(source).seeded,
        old(source).seeded ==> (r, final(source).state) == spec_throw(
            roll_request_list@,
            old(source).state,
            0,
        ),
        !old(source).seeded ==> final(source).state == old(source).state,
        sat16i(spec_min_total(roll_request_list@)) <= r as int <= sat16i(
            spec_max_total(roll_request_list@),
        ),
{
    proof {
        lemma_totals_ordered(roll_request_list@);
    }
    let mut mod_result: u16 = 0;
    let n = roll_request_list.request_list.len();
    let ghost total0 = spec_throw(roll_request_list@, old(source).state, 0);
    proof {
        assert(roll_request_list@.skip(0) =~= roll_request_list@);
    }
    for i in 0..n
        invariant
            n == roll_request_list@.len(),
            spec_tokens_wf(roll_request_list@),
            source.seeded == old(source).seeded,
            old(source).seeded ==> spec_throw(roll_request_list@.skip(i as int), source.state,
                mod_result) == total0,
            !old(source).seeded ==> source.state == old(source).state,
            0 <= spec_min_total(roll_request_list@.skip(i as int)) <= spec_max_total(
                roll_request_list@.skip(i as int),
            ),
            sat16i(
                spec_min_total(roll_request_list@) - spec_min_total(
                    roll_request_list@.skip(i as int),
                ),
            ) <= mod_result as int <= sat16i(
                spec_max_total(roll_request_list@) - spec_max_total(
                    roll_request_list@.skip(i as int),
                ),
            ),
    {
        let ghost rest = roll_request_list@.skip(i as int);
        proof {
            assert(rest.drop_first() =~= roll_request_list@.skip(i + 1));
            assert(rest[0] == roll_request_list@[i as int]);
            assert(spec_tokens_wf(rest)) by {
                assert(forall|j: int|
                    0 <= j < rest.len() ==> #[trigger] rest[j] == roll_request_list@[i + j]);
            }
            lemma_totals_ordered(rest);
            lemma_totals_ordered(rest.drop_first());
        }
        let token = roll_request_list.request_list[i];
        match token {
            RequestToken::Dice(roll) => {
                let ghost pre = (mod_result, source.state);
                let res = roll_dice(roll.number_of_dice, roll.number_of_die_sides, source);
                proof {
                    if old(source).seeded {
                        lemma_spec_roll_n_acc(
                            roll.number_of_dice,
                            roll.number_of_die_sides,
                            pre.1,
                            pre.0,
                        );
                    }
                }
                mod_result = sat_add(mod_result, res.total);
            },
            RequestToken::Modifier(modifier) => {
                mod_result = sat_add(mod_result, modifier.value as u16);
            },
            RequestToken::Error => {},
        }
    }
    proof {
        assert(roll_request_list@.skip(n as int) =~= Seq::<RequestToken>::empty());
    }
    mod_result
}

/// Rolling onto an accumulator is the roll from zero, saturated on top of
/// the accumulator, and leaves the same generator state.
proof fn lemma_spec_roll_n_acc(n: u16, sides: u8, state: u64, acc: u16)
    ensures
        spec_roll_n(n, sides, state, acc).0 == sat_add16(acc, spec_roll_n(n, sides, state, 0).0),
        spec_roll_n(n, sides, state, acc).1 == spec_roll_n(n, sides, state, 0).1,
    decreases n,
{
    if n > 0 {
        let first = spec_roll_value(state, sides) as u16;
        let s1 = spec_next_state(state);
        lemma_spec_roll_n_acc((n - 1) as u16, sides, s1, sat_add16(acc, first));
        lemma_spec_roll_n_acc((n - 1) as u16, sides, s1, sat_add16(0, first));
        lemma_spec_roll_n_acc((n - 1) as u16, sides, s1, first);
    }
}

} // verus!
