//! The parse: classifying tokens, taking parameters, filling the result table.

pub mod error;

use vstd::prelude::*;
use crate::arg::{
    arg_views, recorded, str_eq, Arg, ArgType, ArgView, Args, ParameterCount, Table,
};
use crate::config::Config;
use crate::parser::error::{ParseError, ParseErrorView};
use crate::text::{append_decimal, decimal, texts};

verus! {

/// A token is shaped like an option if it starts with `-`.
pub open spec fn is_option_shaped(t: Seq<char>) -> bool {
    t.len() >= 1 && t[0] == '-'
}

/// Whether the token `t` writes the option `a`: after `--` the rest of the
/// token is the option's long form; otherwise the token's second character
/// is the option's short form.
pub open spec fn flag_matches(a: ArgView, t: Seq<char>) -> bool {
    &&& a.kind is Option
    &&& if t.len() >= 2 && t[0] == '-' && t[1] == '-' {
        a.long == Some(t.subrange(2, t.len() as int))
    } else {
        t.len() >= 2 && a.short == Some(t[1])
    }
}

/// Whether the token `t` is the name of the subcommand `a`.
pub open spec fn name_matches(a: ArgView, t: Seq<char>) -> bool {
    a.kind is Subcommand && a.name == t
}

/// Whether `t` writes `a`, as an option or as a subcommand.
pub open spec fn denotes(a: ArgView, t: Seq<char>, option: bool) -> bool {
    if option {
        flag_matches(a, t)
    } else {
        name_matches(a, t)
    }
}

/// The first index from `from` on whose argument `t` writes.
pub open spec fn first_from(specs: Seq<ArgView>, t: Seq<char>, option: bool, from: int) -> Option<
    int,
>
    decreases specs.len() - from,
{
    if from < 0 || from >= specs.len() {
        None
    } else if denotes(specs[from], t, option) {
        Some(from)
    } else {
        first_from(specs, t, option, from + 1)
    }
}

/// The first declared option that `t` writes.
pub open spec fn option_index(specs: Seq<ArgView>, t: Seq<char>) -> Option<int> {
    first_from(specs, t, true, 0)
}

/// The first declared subcommand named `t`.
pub open spec fn subcommand_index(specs: Seq<ArgView>, t: Seq<char>) -> Option<int> {
    first_from(specs, t, false, 0)
}

/// What a token stands for: an option if it is shaped like one, else a subcommand.
pub open spec fn classify(specs: Seq<ArgView>, t: Seq<char>) -> Option<int> {
    if is_option_shaped(t) {
        option_index(specs, t)
    } else {
        subcommand_index(specs, t)
    }
}

/// Whether a token that was taken as one of an exact number of parameters
/// ends the run: it writes a declared option or names a declared subcommand.
pub open spec fn spoils_exact(specs: Seq<ArgView>, t: Seq<char>) -> bool {
    (is_option_shaped(t) && option_index(specs, t) is Some) || subcommand_index(specs, t) is Some
}

/// The first position from `pos` on whose token stands for a declared
/// argument, or the end of the tokens.
pub open spec fn boundary(specs: Seq<ArgView>, tokens: Seq<Seq<char>>, pos: int) -> int
    decreases tokens.len() - pos,
{
    if pos < 0 || pos >= tokens.len() {
        pos
    } else if classify(specs, tokens[pos]) is Some {
        pos
    } else {
        boundary(specs, tokens, pos + 1)
    }
}

/// How many of `n` wanted tokens from `pos` on can be taken before the
/// tokens end or one of them spoils the run.
pub open spec fn exact_taken(specs: Seq<ArgView>, tokens: Seq<Seq<char>>, pos: int, n: nat) -> nat
    decreases n,
{
    if n == 0 || pos < 0 || pos >= tokens.len() || spoils_exact(specs, tokens[pos]) {
        0
    } else {
        1 + exact_taken(specs, tokens, pos + 1, (n - 1) as nat)
    }
}

/// The description of a failed exact run: `got` is the number of tokens
/// that could be taken before the run failed, `wanted` the number asked for.
pub open spec fn shortage_message(arg: ArgView, got: nat, wanted: nat) -> Seq<char> {
    "There are only "@ + decimal(got) + " parameters to supply "@ + arg.text()
        + " with instead of "@ + decimal(wanted)
}

/// The description of a run that took `got` tokens where at least `least` are asked for.
pub open spec fn minimum_message(arg: ArgView, least: nat, got: nat) -> Seq<char> {
    arg.text() + " expected at least "@ + decimal(least) + " parameters but got "@ + decimal(got)
}

/// The largest number of tokens that `Less(n)` takes: one less than `n`, and none for zero.
pub open spec fn less_cap(n: nat) -> nat {
    if n == 0 {
        0
    } else {
        (n - 1) as nat
    }
}

/// The parameters that an argument matched just before `pos` takes, or the
/// description of why it cannot have them.
///
/// * `Zero` takes nothing.
/// * `Exact(n)` takes the next `n` tokens, and fails if the tokens end first
///   or one of the tokens taken stands for a declared argument.
/// * `More(n)` takes every token up to the boundary, and fails unless they
///   are more than `n`.
/// * `Less(n)` takes the tokens up to the boundary, but at most `n - 1`.
pub open spec fn consume(
    specs: Seq<ArgView>,
    tokens: Seq<Seq<char>>,
    pos: int,
    count: ParameterCount,
    arg: ArgView,
) -> Result<Seq<Seq<char>>, Seq<char>> {
    match count {
        ParameterCount::Zero => Ok(Seq::empty()),
        ParameterCount::Exact(n) => {
            let k = exact_taken(specs, tokens, pos, n as nat);
            if k == n {
                Ok(tokens.subrange(pos, pos + n))
            } else {
                Err(shortage_message(arg, k, n as nat))
            }
        },
        ParameterCount::More(n) => {
            let end = boundary(specs, tokens, pos);
            if end - pos > n {
                Ok(tokens.subrange(pos, end))
            } else {
                Err(minimum_message(arg, (n + 1) as nat, (end - pos) as nat))
            }
        },
        ParameterCount::Less(n) => {
            let end = boundary(specs, tokens, pos);
            let cap = less_cap(n as nat);
            if end - pos <= cap {
                Ok(tokens.subrange(pos, end))
            } else {
                Ok(tokens.subrange(pos, pos + cap))
            }
        },
    }
}

/// How many tokens an argument matched just before `pos` adds to its list,
/// whether it then has its number or not.
pub open spec fn appended(specs: Seq<ArgView>, tokens: Seq<Seq<char>>, pos: int, count: ParameterCount) -> nat {
    match count {
        ParameterCount::Zero => 0,
        ParameterCount::Exact(n) => exact_taken(specs, tokens, pos, n as nat),
        ParameterCount::More(n) => (boundary(specs, tokens, pos) - pos) as nat,
        ParameterCount::Less(n) => {
            let reach = (boundary(specs, tokens, pos) - pos) as nat;
            if reach <= less_cap(n as nat) {
                reach
            } else {
                less_cap(n as nat)
            }
        },
    }
}

/// How many tokens an argument matched just before `pos` uses up: those it
/// adds to its list and, for an exact number, the token that spoiled the run.
pub open spec fn advanced(specs: Seq<ArgView>, tokens: Seq<Seq<char>>, pos: int, count: ParameterCount) -> nat {
    let k = appended(specs, tokens, pos, count);
    match count {
        ParameterCount::Exact(n) => if k < n && pos + k < tokens.len() {
            k + 1
        } else {
            k
        },
        _ => k,
    }
}

/// From a position within the tokens, the boundary lies between that position
/// and the end, no token before it stands for a declared argument, and the
/// token at it, if there is one, does.
pub proof fn lemma_boundary(specs: Seq<ArgView>, tokens: Seq<Seq<char>>, pos: int)
    requires
        0 <= pos <= tokens.len(),
    ensures
        pos <= boundary(specs, tokens, pos) <= tokens.len(),
        forall|i: int| pos <= i < boundary(specs, tokens, pos) ==> classify(specs, #[trigger] tokens[i]) is None,
        boundary(specs, tokens, pos) < tokens.len() ==> classify(
            specs,
            tokens[boundary(specs, tokens, pos)],
        ) is Some,
    decreases tokens.len() - pos,
{
    if pos < tokens.len() && classify(specs, tokens[pos]) is None {
        lemma_boundary(specs, tokens, pos + 1);
    }
}

/// An exact run takes at most the number wanted, takes only tokens that exist
/// and do not spoil it, and stops short only at the end of the tokens or at a
/// token that spoils it.
pub proof fn lemma_exact_taken(specs: Seq<ArgView>, tokens: Seq<Seq<char>>, pos: int, n: nat)
    requires
        0 <= pos <= tokens.len(),
    ensures
        exact_taken(specs, tokens, pos, n) <= n,
        pos + exact_taken(specs, tokens, pos, n) <= tokens.len(),
        forall|i: int|
            pos <= i < pos + exact_taken(specs, tokens, pos, n) ==> !spoils_exact(specs, #[trigger] tokens[i]),
        exact_taken(specs, tokens, pos, n) < n ==> pos + exact_taken(specs, tokens, pos, n)
            == tokens.len() || spoils_exact(specs, tokens[pos + exact_taken(specs, tokens, pos, n)]),
    decreases n,
{
    if n > 0 && pos < tokens.len() && !spoils_exact(specs, tokens[pos]) {
        lemma_exact_taken(specs, tokens, pos + 1, (n - 1) as nat);
    }
}

/// What an argument takes on success is what it added to its list, and lies
/// within the tokens.
pub proof fn lemma_consume_fits(
    specs: Seq<ArgView>,
    tokens: Seq<Seq<char>>,
    pos: int,
    count: ParameterCount,
    arg: ArgView,
)
    requires
        0 <= pos <= tokens.len(),
    ensures
        pos + appended(specs, tokens, pos, count) <= pos + advanced(specs, tokens, pos, count)
            <= tokens.len(),
        consume(specs, tokens, pos, count, arg) matches Ok(c) ==> c == tokens.subrange(
            pos,
            pos + appended(specs, tokens, pos, count),
        ) && c.len() == appended(specs, tokens, pos, count) && advanced(specs, tokens, pos, count)
            == c.len(),
{
    lemma_boundary(specs, tokens, pos);
    match count {
        ParameterCount::Exact(n) => {
            lemma_exact_taken(specs, tokens, pos, n as nat);
        },
        _ => {},
    }
}

/// The table before the first token: nothing under any declared name, an
/// empty list under the program's name.
pub open spec fn initial_table(specs: Seq<ArgView>, program: Seq<char>) -> Table {
    Map::new(
        |k: Seq<char>| k == program || exists|i: int| 0 <= i < specs.len() && #[trigger] specs[i].name == k,
        |k: Seq<char>|
            if k == program {
                Some(Seq::<Seq<char>>::empty())
            } else {
                None
            },
    )
}

/// The outcome of the pass over the tokens from `pos` on, starting with `table`.
///
/// A token that stands for a declared argument has that argument take its
/// parameters, which are added under its name; the pass goes on behind them.
/// A token shaped like an option that writes none ends the pass with an
/// error. Any other token is added under the program's name.
pub open spec fn run(
    specs: Seq<ArgView>,
    tokens: Seq<Seq<char>>,
    program: Seq<char>,
    pos: int,
    table: Table,
) -> Result<Table, ParseErrorView>
    decreases tokens.len() - pos,
    via run_decreases
{
    if pos < 0 || pos >= tokens.len() {
        Ok(table)
    } else {
        let t = tokens[pos];
        match classify(specs, t) {
            Some(i) => match consume(specs, tokens, pos + 1, specs[i].parameter_count, specs[i]) {
                Ok(c) => run(
                    specs,
                    tokens,
                    program,
                    pos + 1 + c.len(),
                    recorded(table, specs[i].name, c),
                ),
                Err(m) => Err(ParseErrorView::InvalidNumberOfParameters(m)),
            },
            None => if is_option_shaped(t) {
                Err(ParseErrorView::InvalidOption(t))
            } else {
                run(specs, tokens, program, pos + 1, recorded(table, program, seq![t]))
            },
        }
    }
}

#[via_fn]
proof fn run_decreases(
    specs: Seq<ArgView>,
    tokens: Seq<Seq<char>>,
    program: Seq<char>,
    pos: int,
    table: Table,
) {
    if 0 <= pos < tokens.len() {
        match classify(specs, tokens[pos]) {
            Some(i) => {
                lemma_consume_fits(specs, tokens, pos + 1, specs[i].parameter_count, specs[i]);
            },
            None => {},
        }
    }
}

/// The outcome of parsing `tokens` against `specs` for the program `program`.
pub open spec fn parse_outcome(specs: Seq<ArgView>, tokens: Seq<Seq<char>>, program: Seq<char>) -> Result<
    Table,
    ParseErrorView,
> {
    run(specs, tokens, program, 0, initial_table(specs, program))
}

/// The error of an exact run that failed after it had taken `got` tokens.
fn shortage(arg: &Arg, got: usize, wanted: usize) -> (r: ParseError)
    ensures
        r@ == ParseErrorView::InvalidNumberOfParameters(
            shortage_message(arg@, got as nat, wanted as nat),
        ),
{
    let mut s = String::from_str("There are only ");
    append_decimal(&mut s, got as u128);
    s.append(" parameters to supply ");
    s.append(arg.to_text().as_str());
    s.append(" with instead of ");
    append_decimal(&mut s, wanted as u128);
    ParseError::InvalidNumberOfParameters(s)
}

/// The error of a run that took `got` tokens where more than `n` are asked for.
fn too_few(arg: &Arg, n: usize, got: usize) -> (r: ParseError)
    ensures
        r@ == ParseErrorView::InvalidNumberOfParameters(
            minimum_message(arg@, (n + 1) as nat, got as nat),
        ),
{
    let mut s = arg.to_text();
    s.append(" expected at least ");
    append_decimal(&mut s, n as u128 + 1);
    s.append(" parameters but got ");
    append_decimal(&mut s, got as u128);
    ParseError::InvalidNumberOfParameters(s)
}

/// The position of the next token that stands for a declared argument.
fn next_boundary(tokens: &Vec<String>, pos: usize, specs: &Vec<Arg>) -> (end: usize)
    requires
        pos <= tokens@.len(),
    ensures
        end == boundary(arg_views(specs@), texts(tokens@), pos as int),
        pos <= end <= tokens@.len(),
{
    let mut end: usize = pos;
    while end < tokens.len()
        invariant
            pos <= end <= tokens@.len(),
            boundary(arg_views(specs@), texts(tokens@), pos as int) == boundary(
                arg_views(specs@),
                texts(tokens@),
                end as int,
            ),
        decreases tokens@.len() - end,
    {
        if is_option_or_subcommand(tokens[end].as_str(), specs).is_some() {
            return end;
        }
        end += 1;
    }
    end
}

/// Adds copies of the tokens from `from` up to `to` at the end of `params`.
fn take_tokens(tokens: &Vec<String>, from: usize, to: usize, params: &mut Vec<String>)
    requires
        from <= to <= tokens@.len(),
    ensures
        texts(final(params)@) == texts(old(params)@) + texts(tokens@).subrange(from as int, to as int),
{
    let ghost before = texts(params@);
    let mut i: usize = from;
    proof {
        assert(texts(params@) =~= before + texts(tokens@).subrange(from as int, i as int));
    }
    while i < to
        invariant
            from <= i <= to <= tokens@.len(),
            texts(params@) == before + texts(tokens@).subrange(from as int, i as int),
        decreases to - i,
    {
        let ghost prev = params@;
        params.push(tokens[i].clone());
        proof {
            assert(texts(params@) =~= texts(prev).push(tokens@[i as int]@));
            assert(texts(params@) =~= before + texts(tokens@).subrange(from as int, i + 1));
        }
        i += 1;
    }
}

/// Gives the argument `arg`, matched by the token before `*pos`, its
/// parameters: tokens from `*pos` on are added to `params`, as many as
/// `parameter_count` rules, and `*pos` moves behind the tokens used up.
///
/// The result is an error exactly if the rule cannot be met; the error
/// describes the argument and both numbers.
pub fn assign_parameters(
    tokens: &Vec<String>,
    pos: &mut usize,
    parameter_count: ParameterCount,
    params: &mut Vec<String>,
    specs: &Vec<Arg>,
    arg: &Arg,
) -> (r: Result<(), ParseError>)
    requires
        *old(pos) <= tokens@.len(),
    ensures
        match consume(arg_views(specs@), texts(tokens@), *old(pos) as int, parameter_count, arg@) {
            Ok(c) => r is Ok && texts(final(params)@) == texts(old(params)@) + c,
            Err(m) => r matches Err(e) && e@ == ParseErrorView::InvalidNumberOfParameters(m),
        },
        texts(final(params)@) == texts(old(params)@) + texts(tokens@).subrange(
            *old(pos) as int,
            *old(pos) + appended(arg_views(specs@), texts(tokens@), *old(pos) as int, parameter_count),
        ),
        *final(pos) == *old(pos) + advanced(
            arg_views(specs@),
            texts(tokens@),
            *old(pos) as int,
            parameter_count,
        ),
        *final(pos) <= tokens@.len(),
{
    let ghost views = arg_views(specs@);
    let ghost toks = texts(tokens@);
    let ghost before = texts(params@);
    let start: usize = *pos;
    proof {
        lemma_consume_fits(views, toks, start as int, parameter_count, arg@);
        assert(before =~= before + toks.subrange(start as int, start as int));
    }
    match parameter_count {
        ParameterCount::Zero => Ok(()),
        ParameterCount::Exact(n) => {
            let mut i: usize = 0;
            while i < n
                invariant
                    i <= n,
                    views == arg_views(specs@),
                    toks == texts(tokens@),
                    before == texts(old(params)@),
                    start == *old(pos),
                    parameter_count == ParameterCount::Exact(n),
                    *pos == start + i,
                    *pos <= tokens@.len(),
                    exact_taken(views, toks, start as int, n as nat) == i + exact_taken(
                        views,
                        toks,
                        start + i,
                        (n - i) as nat,
                    ),
                    texts(params@) == before + toks.subrange(start as int, start + i),
                decreases n - i,
            {
                if *pos >= tokens.len() {
                    return Err(shortage(arg, i, n));
                }
                let param = &tokens[*pos];
                *pos = *pos + 1;
                proof {
                    assert(toks[start + i] == param@);
                }
                if (starts_with_dash(param.as_str()) && option_exists(param.as_str(), specs).is_some())
                    || subcommand_exists(param.as_str(), specs).is_some() {
                    return Err(shortage(arg, i, n));
                }
                let ghost prev = params@;
                params.push(param.clone());
                proof {
                    assert(texts(params@) =~= texts(prev).push(param@));
                    assert(texts(params@) =~= before + toks.subrange(start as int, start + i + 1));
                }
                i += 1;
            }
            Ok(())
        },
        ParameterCount::More(n) => {
            let end = next_boundary(tokens, start, specs);
            take_tokens(tokens, start, end, params);
            *pos = end;
            if end - start > n {
                Ok(())
            } else {
                Err(too_few(arg, n, end - start))
            }
        },
        ParameterCount::Less(n) => {
            let end = next_boundary(tokens, start, specs);
            let cap: usize = if n == 0 {
                0
            } else {
                n - 1
            };
            let stop: usize = if end - start <= cap {
                end
            } else {
                start + cap
            };
            take_tokens(tokens, start, stop, params);
            *pos = stop;
            Ok(())
        },
    }
}

fn starts_with_dash(s: &str) -> (r: bool)
    ensures
        r == is_option_shaped(s@),
{
    let n: usize = s.unicode_len();
    n >= 1 && s.get_char(0) == '-'
}

/// Looks `opt` up among the declared options: by its long form if it starts
/// with `--`, else by the character behind its first one.
pub fn option_exists<'a>(opt: &str, specs: &'a Vec<Arg>) -> (r: Option<&'a Arg>)
    ensures
        match option_index(arg_views(specs@), opt@) {
            Some(i) => r == Some(&specs@[i]),
            None => r is None,
        },
        option_index(arg_views(specs@), opt@) matches Some(i) ==> 0 <= i < specs@.len(),
{
    let n: usize = opt.unicode_len();
    let is_long = n >= 2 && opt.get_char(0) == '-' && opt.get_char(1) == '-';
    let long: &str = if is_long {
        opt.substring_char(2, n)
    } else {
        opt
    };
    let short: Option<char> = if n >= 2 {
        Some(opt.get_char(1))
    } else {
        None
    };
    let ghost views = arg_views(specs@);
    let mut i: usize = 0;
    while i < specs.len()
        invariant
            i <= specs@.len(),
            views == arg_views(specs@),
            n == opt@.len(),
            is_long == (n >= 2 && opt@[0] == '-' && opt@[1] == '-'),
            is_long ==> long@ == opt@.subrange(2, n as int),
            short == (if n >= 2 {
                Some(opt@[1])
            } else {
                None
            }),
            option_index(views, opt@) == first_from(views, opt@, true, i as int),
        decreases specs@.len() - i,
    {
        let a = &specs[i];
        let hit = match a.kind {
            ArgType::Subcommand => false,
            ArgType::Option => if is_long {
                match &a.long {
                    Some(l) => str_eq(l.as_str(), long),
                    None => false,
                }
            } else {
                match (a.short, short) {
                    (Some(x), Some(y)) => x == y,
                    _ => false,
                }
            },
        };
        proof {
            assert(views[i as int] == a@);
            assert(hit == flag_matches(a@, opt@));
        }
        if hit {
            return Some(a);
        }
        i += 1;
    }
    None
}

/// Looks `sub` up among the declared subcommands, by name.
pub fn subcommand_exists<'a>(sub: &str, specs: &'a Vec<Arg>) -> (r: Option<&'a Arg>)
    ensures
        match subcommand_index(arg_views(specs@), sub@) {
            Some(i) => r == Some(&specs@[i]),
            None => r is None,
        },
        subcommand_index(arg_views(specs@), sub@) matches Some(i) ==> 0 <= i < specs@.len(),
{
    let ghost views = arg_views(specs@);
    let mut i: usize = 0;
    while i < specs.len()
        invariant
            i <= specs@.len(),
            views == arg_views(specs@),
            subcommand_index(views, sub@) == first_from(views, sub@, false, i as int),
        decreases specs@.len() - i,
    {
        let a = &specs[i];
        let hit = match a.kind {
            ArgType::Subcommand => str_eq(a.name.as_str(), sub),
            ArgType::Option => false,
        };
        proof {
            assert(views[i as int] == a@);
            assert(hit == name_matches(a@, sub@));
        }
        if hit {
            return Some(a);
        }
        i += 1;
    }
    None
}

/// The declared argument that the token `s` stands for: an option if the
/// token starts with `-`, else a subcommand.
pub fn is_option_or_subcommand<'a>(s: &str, specs: &'a Vec<Arg>) -> (r: Option<&'a Arg>)
    ensures
        match classify(arg_views(specs@), s@) {
            Some(i) => r == Some(&specs@[i]),
            None => r is None,
        },
        classify(arg_views(specs@), s@) matches Some(i) ==> 0 <= i < specs@.len(),
{
    if starts_with_dash(s) {
        option_exists(s, specs)
    } else {
        subcommand_exists(s, specs)
    }
}

/// The mathematical content of what a parse returns.
pub open spec fn outcome_view(r: Result<Args, ParseError>) -> Result<Table, ParseErrorView> {
    match r {
        Ok(a) => Ok(a@),
        Err(e) => Err(e@),
    }
}

/// A token found by a lookup from `from` on lies at or behind `from`, within
/// the declared arguments, and writes the argument found.
pub proof fn lemma_first_from(specs: Seq<ArgView>, t: Seq<char>, option: bool, from: int)
    requires
        0 <= from,
    ensures
        first_from(specs, t, option, from) matches Some(i) ==> from <= i < specs.len() && denotes(
            specs[i],
            t,
            option,
        ),
    decreases specs.len() - from,
{
    if from < specs.len() && !denotes(specs[from], t, option) {
        lemma_first_from(specs, t, option, from + 1);
    }
}

/// A token that stands for a declared argument stands for one of the
/// declared arguments, and spoils an exact run.
pub proof fn lemma_classify(specs: Seq<ArgView>, t: Seq<char>)
    ensures
        classify(specs, t) matches Some(i) ==> 0 <= i < specs.len() && spoils_exact(specs, t),
{
    lemma_first_from(specs, t, true, 0);
    lemma_first_from(specs, t, false, 0);
}

/// The table that holds nothing under the names of the first `upto` declared arguments.
spec fn blank_table(specs: Seq<ArgView>, upto: int) -> Table {
    Map::new(
        |k: Seq<char>| exists|i: int| 0 <= i < upto && i < specs.len() && #[trigger] specs[i].name == k,
        |k: Seq<char>| None,
    )
}

/// Parses `tokens`, the command line behind the program's name, against the
/// declared arguments.
///
/// The result holds every declared name and `program_name`. Tokens are read
/// once, from left to right: a token that stands for a declared argument has
/// that argument take its parameters from the tokens that follow, a token that
/// starts with `-` and writes no declared option is an error, and every other
/// token is stored under `program_name`. The first error ends the parse.
pub fn parse_inputs(config: Config, tokens: Vec<String>, program_name: String) -> (r: Result<
    Args,
    ParseError,
>)
    ensures
        outcome_view(r) == parse_outcome(config@, texts(tokens@), program_name@),
{
    let ghost views = config@;
    let ghost toks = texts(tokens@);
    let mut result = Args::new();
    let mut i: usize = 0;
    proof {
        assert(result@ =~= blank_table(views, 0));
    }
    while i < config.args.len()
        invariant
            i <= config.args@.len(),
            views == arg_views(config.args@),
            result@ == blank_table(views, i as int),
        decreases config.args@.len() - i,
    {
        let ghost prev = result@;
        result.insert(config.args[i].name.clone(), None);
        proof {
            assert(views[i as int].name == config.args@[i as int].name@);
            assert(result@ =~= blank_table(views, i + 1));
        }
        i += 1;
    }
    result.insert(program_name.clone(), Some(Vec::new()));
    proof {
        assert(texts(Seq::<String>::empty()) =~= Seq::<Seq<char>>::empty());
        assert(result@ =~= initial_table(views, program_name@));
    }
    let mut pos: usize = 0;
    while pos < tokens.len()
        invariant
            pos <= tokens@.len(),
            views == arg_views(config.args@),
            toks == texts(tokens@),
            parse_outcome(views, toks, program_name@) == run(
                views,
                toks,
                program_name@,
                pos as int,
                result@,
            ),
        decreases tokens@.len() - pos,
    {
        let token = &tokens[pos];
        proof {
            assert(toks[pos as int] == token@);
        }
        let hit = is_option_or_subcommand(token.as_str(), &config.args);
        pos = pos + 1;
        match hit {
            Some(a) => {
                let ghost at = classify(views, token@).unwrap();
                proof {
                    assert(views[at] == a@);
                    lemma_consume_fits(views, toks, pos as int, a.parameter_count, a@);
                }
                let mut captured: Vec<String> = Vec::new();
                match assign_parameters(
                    &tokens,
                    &mut pos,
                    a.parameter_count,
                    &mut captured,
                    &config.args,
                    a,
                ) {
                    Err(e) => {
                        return Err(e);
                    },
                    Ok(()) => {
                        proof {
                            assert(texts(captured@) =~= Seq::<Seq<char>>::empty() + texts(captured@));
                        }
                        result.record(a.name.as_str(), captured);
                    },
                }
            },
            None => {
                if starts_with_dash(token.as_str()) {
                    return Err(ParseError::InvalidOption(token.clone()));
                } else {
                    let mut one: Vec<String> = Vec::new();
                    one.push(token.clone());
                    proof {
                        assert(texts(one@) =~= seq![token@]);
                    }
                    result.record(program_name.as_str(), one);
                }
            },
        }
    }
    Ok(result)
}

/// The outcome of parsing a whole command line, whose first token is the
/// program's name: an error if there is no token at all, else the outcome of
/// parsing the tokens behind the first for the program it names.
pub open spec fn invocation_outcome(specs: Seq<ArgView>, line: Seq<Seq<char>>) -> Result<
    Table,
    ParseErrorView,
> {
    if line.len() == 0 {
        Err(ParseErrorView::NoProgramName)
    } else {
        parse_outcome(specs, line.subrange(1, line.len() as int), line[0])
    }
}

/// Parses the command line `args`, program name first, against the declared
/// arguments.
pub fn parse(arg_config: Config, args: Vec<String>) -> (r: Result<Args, ParseError>)
    ensures
        outcome_view(r) == invocation_outcome(arg_config@, texts(args@)),
{
    let mut args = args;
    let ghost line = texts(args@);
    if args.len() == 0 {
        return Err(ParseError::NoProgramName);
    }
    let program_name = args.remove(0);
    proof {
        assert(texts(args@) =~= line.subrange(1, line.len() as int));
    }
    parse_inputs(arg_config, args, program_name)
}

} // verus!
