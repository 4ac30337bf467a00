//! What holds of every parse.

use vstd::prelude::*;
use crate::arg::{recorded, ArgView, Args, ParameterCount, Table};
use crate::parser::error::{ParseError, ParseErrorView};
use crate::parser::{
    boundary, classify, consume, initial_table, is_option_shaped, lemma_boundary, lemma_classify,
    lemma_consume_fits, lemma_exact_taken, less_cap, option_index, outcome_view, parse_outcome, run,
    spoils_exact,
};

verus! {

/// Whether the pass that starts at `pos` comes to read the token at `p` as
/// the next one to classify, without an error before it.
pub open spec fn reached(specs: Seq<ArgView>, tokens: Seq<Seq<char>>, pos: int, p: int) -> bool
    decreases tokens.len() - pos,
    via reached_decreases
{
    if pos == p {
        true
    } else if pos < 0 || pos >= tokens.len() {
        false
    } else {
        match classify(specs, tokens[pos]) {
            Some(i) => match consume(specs, tokens, pos + 1, specs[i].parameter_count, specs[i]) {
                Ok(c) => reached(specs, tokens, pos + 1 + c.len(), p),
                Err(_) => false,
            },
            None => !is_option_shaped(tokens[pos]) && reached(specs, tokens, pos + 1, p),
        }
    }
}

#[via_fn]
proof fn reached_decreases(specs: Seq<ArgView>, tokens: Seq<Seq<char>>, pos: int, p: int) {
    if 0 <= pos < tokens.len() {
        match classify(specs, tokens[pos]) {
            Some(i) => {
                lemma_consume_fits(specs, tokens, pos + 1, specs[i].parameter_count, specs[i]);
            },
            None => {},
        }
    }
}

/// Whether the pass from `pos` on reads the token at `p` and finds that it
/// stands for an argument named `name`.
pub open spec fn matched_from(
    specs: Seq<ArgView>,
    tokens: Seq<Seq<char>>,
    pos: int,
    p: int,
    name: Seq<char>,
) -> bool {
    &&& 0 <= p < tokens.len()
    &&& reached(specs, tokens, pos, p)
    &&& classify(specs, tokens[p]) matches Some(i) && specs[i].name == name
}

/// Whether `name` is the name of a declared argument.
pub open spec fn declared(specs: Seq<ArgView>, name: Seq<char>) -> bool {
    exists|i: int| 0 <= i < specs.len() && #[trigger] specs[i].name == name
}

/// The tokens that the pass from `pos` on reads and finds to stand for no
/// declared argument, in the order in which it reads them.
pub open spec fn loose_tokens(specs: Seq<ArgView>, tokens: Seq<Seq<char>>, pos: int) -> Seq<Seq<char>>
    decreases tokens.len() - pos,
    via loose_tokens_decreases
{
    if pos < 0 || pos >= tokens.len() {
        Seq::empty()
    } else {
        match classify(specs, tokens[pos]) {
            Some(i) => match consume(specs, tokens, pos + 1, specs[i].parameter_count, specs[i]) {
                Ok(c) => loose_tokens(specs, tokens, pos + 1 + c.len()),
                Err(_) => Seq::empty(),
            },
            None => seq![tokens[pos]] + loose_tokens(specs, tokens, pos + 1),
        }
    }
}

#[via_fn]
proof fn loose_tokens_decreases(specs: Seq<ArgView>, tokens: Seq<Seq<char>>, pos: int) {
    if 0 <= pos < tokens.len() {
        match classify(specs, tokens[pos]) {
            Some(i) => {
                lemma_consume_fits(specs, tokens, pos + 1, specs[i].parameter_count, specs[i]);
            },
            None => {},
        }
    }
}

proof fn lemma_reached_later(specs: Seq<ArgView>, tokens: Seq<Seq<char>>, pos: int, p: int)
    requires
        reached(specs, tokens, pos, p),
    ensures
        pos <= p,
    decreases tokens.len() - pos,
{
    if pos != p {
        match classify(specs, tokens[pos]) {
            Some(i) => {
                lemma_consume_fits(specs, tokens, pos + 1, specs[i].parameter_count, specs[i]);
                let c = consume(specs, tokens, pos + 1, specs[i].parameter_count, specs[i])->Ok_0;
                lemma_reached_later(specs, tokens, pos + 1 + c.len(), p);
            },
            None => {
                lemma_reached_later(specs, tokens, pos + 1, p);
            },
        }
    }
}

proof fn lemma_names_stay(
    specs: Seq<ArgView>,
    tokens: Seq<Seq<char>>,
    program: Seq<char>,
    pos: int,
    table: Table,
)
    requires
        0 <= pos,
        table.contains_key(program),
        forall|i: int| 0 <= i < specs.len() ==> table.contains_key(#[trigger] specs[i].name),
    ensures
        run(specs, tokens, program, pos, table) matches Ok(t) ==> t.dom() == table.dom(),
    decreases tokens.len() - pos,
{
    if pos < tokens.len() {
        lemma_classify(specs, tokens[pos]);
        match classify(specs, tokens[pos]) {
            Some(i) => {
                lemma_consume_fits(specs, tokens, pos + 1, specs[i].parameter_count, specs[i]);
                match consume(specs, tokens, pos + 1, specs[i].parameter_count, specs[i]) {
                    Ok(c) => {
                        let next = recorded(table, specs[i].name, c);
                        assert(next.dom() =~= table.dom());
                        lemma_names_stay(specs, tokens, program, pos + 1 + c.len(), next);
                    },
                    Err(_) => {},
                }
            },
            None => {
                if !is_option_shaped(tokens[pos]) {
                    let next = recorded(table, program, seq![tokens[pos]]);
                    assert(next.dom() =~= table.dom());
                    lemma_names_stay(specs, tokens, program, pos + 1, next);
                }
            },
        }
    }
}

proof fn lemma_untouched(
    specs: Seq<ArgView>,
    tokens: Seq<Seq<char>>,
    program: Seq<char>,
    pos: int,
    table: Table,
    name: Seq<char>,
)
    requires
        0 <= pos,
        name != program,
        table.contains_key(name),
        table[name] is None,
        forall|p: int| !matched_from(specs, tokens, pos, p, name),
        run(specs, tokens, program, pos, table) is Ok,
    ensures
        run(specs, tokens, program, pos, table) matches Ok(t) && t.contains_key(name) && t[name] is None,
    decreases tokens.len() - pos,
{
    if pos < tokens.len() {
        assert(!matched_from(specs, tokens, pos, pos, name));
        match classify(specs, tokens[pos]) {
            Some(i) => {
                lemma_consume_fits(specs, tokens, pos + 1, specs[i].parameter_count, specs[i]);
                let c = consume(specs, tokens, pos + 1, specs[i].parameter_count, specs[i])->Ok_0;
                let next = pos + 1 + c.len();
                assert forall|p: int| !matched_from(specs, tokens, next, p, name) by {
                    if matched_from(specs, tokens, next, p, name) {
                        lemma_reached_later(specs, tokens, next, p);
                        assert(matched_from(specs, tokens, pos, p, name));
                    }
                }
                lemma_untouched(specs, tokens, program, next, recorded(table, specs[i].name, c), name);
            },
            None => {
                let next = pos + 1;
                assert forall|p: int| !matched_from(specs, tokens, next, p, name) by {
                    if matched_from(specs, tokens, next, p, name) {
                        lemma_reached_later(specs, tokens, next, p);
                        assert(matched_from(specs, tokens, pos, p, name));
                    }
                }
                lemma_untouched(
                    specs,
                    tokens,
                    program,
                    pos + 1,
                    recorded(table, program, seq![tokens[pos]]),
                    name,
                );
            },
        }
    }
}

proof fn lemma_keeps_some(
    specs: Seq<ArgView>,
    tokens: Seq<Seq<char>>,
    program: Seq<char>,
    pos: int,
    table: Table,
    name: Seq<char>,
)
    requires
        0 <= pos,
        table.contains_key(name),
        table[name] is Some,
    ensures
        run(specs, tokens, program, pos, table) matches Ok(t) ==> t.contains_key(name) && t[name] is Some,
    decreases tokens.len() - pos,
{
    if pos < tokens.len() {
        match classify(specs, tokens[pos]) {
            Some(i) => {
                lemma_consume_fits(specs, tokens, pos + 1, specs[i].parameter_count, specs[i]);
                match consume(specs, tokens, pos + 1, specs[i].parameter_count, specs[i]) {
                    Ok(c) => {
                        lemma_keeps_some(
                            specs,
                            tokens,
                            program,
                            pos + 1 + c.len(),
                            recorded(table, specs[i].name, c),
                            name,
                        );
                    },
                    Err(_) => {},
                }
            },
            None => {
                if !is_option_shaped(tokens[pos]) {
                    lemma_keeps_some(
                        specs,
                        tokens,
                        program,
                        pos + 1,
                        recorded(table, program, seq![tokens[pos]]),
                        name,
                    );
                }
            },
        }
    }
}

proof fn lemma_matched_is_some(
    specs: Seq<ArgView>,
    tokens: Seq<Seq<char>>,
    program: Seq<char>,
    pos: int,
    table: Table,
    p: int,
    name: Seq<char>,
)
    requires
        0 <= pos,
        matched_from(specs, tokens, pos, p, name),
    ensures
        run(specs, tokens, program, pos, table) matches Ok(t) ==> t.contains_key(name) && t[name] is Some,
    decreases tokens.len() - pos,
{
    match classify(specs, tokens[pos]) {
        Some(i) => {
            lemma_consume_fits(specs, tokens, pos + 1, specs[i].parameter_count, specs[i]);
            match consume(specs, tokens, pos + 1, specs[i].parameter_count, specs[i]) {
                Ok(c) => {
                    let next = recorded(table, specs[i].name, c);
                    if pos == p {
                        lemma_keeps_some(specs, tokens, program, pos + 1 + c.len(), next, name);
                    } else {
                        lemma_matched_is_some(specs, tokens, program, pos + 1 + c.len(), next, p, name);
                    }
                },
                Err(_) => {},
            }
        },
        None => {
            if !is_option_shaped(tokens[pos]) {
                lemma_matched_is_some(
                    specs,
                    tokens,
                    program,
                    pos + 1,
                    recorded(table, program, seq![tokens[pos]]),
                    p,
                    name,
                );
            }
        },
    }
}

proof fn lemma_zero_stays_empty(
    specs: Seq<ArgView>,
    tokens: Seq<Seq<char>>,
    program: Seq<char>,
    pos: int,
    table: Table,
    name: Seq<char>,
)
    requires
        0 <= pos,
        name != program,
        forall|i: int| 0 <= i < specs.len() && #[trigger] specs[i].name == name ==> specs[i].parameter_count is Zero,
        table.contains_key(name) ==> table[name] is None || table[name] == Some(Seq::<Seq<char>>::empty()),
    ensures
        run(specs, tokens, program, pos, table) matches Ok(t) ==> (t.contains_key(name) ==> t[name] is None
            || t[name] == Some(Seq::<Seq<char>>::empty())),
    decreases tokens.len() - pos,
{
    if pos < tokens.len() {
        lemma_classify(specs, tokens[pos]);
        match classify(specs, tokens[pos]) {
            Some(i) => {
                lemma_consume_fits(specs, tokens, pos + 1, specs[i].parameter_count, specs[i]);
                match consume(specs, tokens, pos + 1, specs[i].parameter_count, specs[i]) {
                    Ok(c) => {
                        let next = recorded(table, specs[i].name, c);
                        if specs[i].name == name {
                            assert(c =~= Seq::<Seq<char>>::empty());
                            assert(next[name].unwrap() =~= Seq::<Seq<char>>::empty());
                        }
                        lemma_zero_stays_empty(specs, tokens, program, pos + 1 + c.len(), next, name);
                    },
                    Err(_) => {},
                }
            },
            None => {
                if !is_option_shaped(tokens[pos]) {
                    lemma_zero_stays_empty(
                        specs,
                        tokens,
                        program,
                        pos + 1,
                        recorded(table, program, seq![tokens[pos]]),
                        name,
                    );
                }
            },
        }
    }
}

proof fn lemma_loose(
    specs: Seq<ArgView>,
    tokens: Seq<Seq<char>>,
    program: Seq<char>,
    pos: int,
    table: Table,
    before: Seq<Seq<char>>,
)
    requires
        0 <= pos,
        !declared(specs, program),
        table.contains_key(program),
        table[program] == Some(before),
    ensures
        run(specs, tokens, program, pos, table) matches Ok(t) ==> t.contains_key(program) && t[program]
            == Some(before + loose_tokens(specs, tokens, pos)),
    decreases tokens.len() - pos,
{
    if pos < tokens.len() {
        lemma_classify(specs, tokens[pos]);
        match classify(specs, tokens[pos]) {
            Some(i) => {
                lemma_consume_fits(specs, tokens, pos + 1, specs[i].parameter_count, specs[i]);
                match consume(specs, tokens, pos + 1, specs[i].parameter_count, specs[i]) {
                    Ok(c) => {
                        assert(specs[i].name != program);
                        lemma_loose(
                            specs,
                            tokens,
                            program,
                            pos + 1 + c.len(),
                            recorded(table, specs[i].name, c),
                            before,
                        );
                    },
                    Err(_) => {},
                }
            },
            None => {
                if !is_option_shaped(tokens[pos]) {
                    let more = before + seq![tokens[pos]];
                    lemma_loose(
                        specs,
                        tokens,
                        program,
                        pos + 1,
                        recorded(table, program, seq![tokens[pos]]),
                        more,
                    );
                    assert(more + loose_tokens(specs, tokens, pos + 1) =~= before + loose_tokens(
                        specs,
                        tokens,
                        pos,
                    ));
                }
            },
        }
    } else {
        assert(before + loose_tokens(specs, tokens, pos) =~= before);
    }
}

proof fn lemma_unknown_option(
    specs: Seq<ArgView>,
    tokens: Seq<Seq<char>>,
    program: Seq<char>,
    pos: int,
    table: Table,
    p: int,
)
    requires
        0 <= pos,
        0 <= p < tokens.len(),
        reached(specs, tokens, pos, p),
        is_option_shaped(tokens[p]),
        option_index(specs, tokens[p]) is None,
    ensures
        run(specs, tokens, program, pos, table) == Err::<Table, ParseErrorView>(
            ParseErrorView::InvalidOption(tokens[p]),
        ),
    decreases tokens.len() - pos,
{
    if pos != p {
        match classify(specs, tokens[pos]) {
            Some(i) => {
                lemma_consume_fits(specs, tokens, pos + 1, specs[i].parameter_count, specs[i]);
                let c = consume(specs, tokens, pos + 1, specs[i].parameter_count, specs[i])->Ok_0;
                lemma_unknown_option(
                    specs,
                    tokens,
                    program,
                    pos + 1 + c.len(),
                    recorded(table, specs[i].name, c),
                    p,
                );
            },
            None => {
                lemma_unknown_option(
                    specs,
                    tokens,
                    program,
                    pos + 1,
                    recorded(table, program, seq![tokens[pos]]),
                    p,
                );
            },
        }
    }
}

/// A successful parse returns a table of the declared names and the
/// program's name, and of no other.
pub proof fn law_names(specs: Seq<ArgView>, tokens: Seq<Seq<char>>, program: Seq<char>)
    ensures
        parse_outcome(specs, tokens, program) matches Ok(t) ==> forall|k: Seq<char>|
            #[trigger] t.contains_key(k) <==> k == program || declared(specs, k),
{
    let start = initial_table(specs, program);
    lemma_names_stay(specs, tokens, program, 0, start);
}

/// Under the name of a declared argument that no token read by the pass
/// stands for, a successful parse returns `None`.
pub proof fn law_never_matched(
    specs: Seq<ArgView>,
    tokens: Seq<Seq<char>>,
    program: Seq<char>,
    name: Seq<char>,
)
    requires
        declared(specs, name),
        name != program,
        forall|p: int| !matched_from(specs, tokens, 0, p, name),
    ensures
        parse_outcome(specs, tokens, program) matches Ok(t) ==> t.contains_key(name) && t[name] is None,
{
    let start = initial_table(specs, program);
    if run(specs, tokens, program, 0, start) is Ok {
        lemma_untouched(specs, tokens, program, 0, start, name);
    }
}

/// Under a name that a token read by the pass stands for, a successful parse
/// returns a list; the list is empty if every argument of that name takes no
/// parameters and the name is not the program's.
pub proof fn law_matched(
    specs: Seq<ArgView>,
    tokens: Seq<Seq<char>>,
    program: Seq<char>,
    name: Seq<char>,
    p: int,
)
    requires
        matched_from(specs, tokens, 0, p, name),
    ensures
        parse_outcome(specs, tokens, program) matches Ok(t) ==> t.contains_key(name) && t[name] is Some
            && ((name != program && forall|i: int|
            0 <= i < specs.len() && #[trigger] specs[i].name == name ==> specs[i].parameter_count is Zero)
            ==> t[name] == Some(Seq::<Seq<char>>::empty())),
{
    let start = initial_table(specs, program);
    lemma_matched_is_some(specs, tokens, program, 0, start, p, name);
    if name != program && forall|i: int|
        0 <= i < specs.len() && #[trigger] specs[i].name == name ==> specs[i].parameter_count is Zero {
        lemma_zero_stays_empty(specs, tokens, program, 0, start, name);
    }
}

/// `Exact(n)` succeeds exactly if `n` tokens are left and none of them
/// stands for a declared argument; it then takes those `n` tokens, in order.
pub proof fn law_exact(
    specs: Seq<ArgView>,
    tokens: Seq<Seq<char>>,
    pos: int,
    n: usize,
    arg: ArgView,
)
    requires
        0 <= pos <= tokens.len(),
    ensures
        consume(specs, tokens, pos, ParameterCount::Exact(n), arg) is Ok <==> pos + n <= tokens.len()
            && forall|i: int| pos <= i < pos + n ==> !spoils_exact(specs, #[trigger] tokens[i]),
        consume(specs, tokens, pos, ParameterCount::Exact(n), arg) matches Ok(c) ==> c.len() == n && c
            == tokens.subrange(pos, pos + n),
{
    lemma_exact_taken(specs, tokens, pos, n as nat);
}

/// `More(n)` takes the tokens up to the next one that stands for a declared
/// argument, or up to the end, and succeeds exactly if they are more than `n`.
pub proof fn law_more(specs: Seq<ArgView>, tokens: Seq<Seq<char>>, pos: int, n: usize, arg: ArgView)
    requires
        0 <= pos <= tokens.len(),
    ensures
        pos <= boundary(specs, tokens, pos) <= tokens.len(),
        forall|i: int| pos <= i < boundary(specs, tokens, pos) ==> classify(specs, #[trigger] tokens[i]) is None,
        boundary(specs, tokens, pos) < tokens.len() ==> classify(
            specs,
            tokens[boundary(specs, tokens, pos)],
        ) is Some,
        consume(specs, tokens, pos, ParameterCount::More(n), arg) is Ok <==> boundary(specs, tokens, pos)
            - pos > n,
        consume(specs, tokens, pos, ParameterCount::More(n), arg) matches Ok(c) ==> c == tokens.subrange(
            pos,
            boundary(specs, tokens, pos),
        ),
{
    lemma_boundary(specs, tokens, pos);
}

/// `Less(n)` always succeeds. It takes at most `n - 1` tokens, none of which
/// stands for a declared argument, and takes fewer only where the tokens end
/// or the next one stands for a declared argument.
pub proof fn law_less(specs: Seq<ArgView>, tokens: Seq<Seq<char>>, pos: int, n: usize, arg: ArgView)
    requires
        0 <= pos <= tokens.len(),
    ensures
        consume(specs, tokens, pos, ParameterCount::Less(n), arg) matches Ok(c) && c.len() <= less_cap(
            n as nat,
        ) && pos + c.len() <= tokens.len() && c == tokens.subrange(pos, pos + c.len()) && (forall|i: int|
            pos <= i < pos + c.len() ==> classify(specs, #[trigger] tokens[i]) is None) && (c.len()
            < less_cap(n as nat) ==> pos + c.len() == tokens.len() || classify(
            specs,
            tokens[pos + c.len()],
        ) is Some),
{
    lemma_boundary(specs, tokens, pos);
}

/// A successful parse returns a list under the program's name. Where the
/// program's name is not a declared one, the list holds the tokens that the
/// pass read and found to stand for no declared argument, in their order.
pub proof fn law_loose_tokens(specs: Seq<ArgView>, tokens: Seq<Seq<char>>, program: Seq<char>)
    ensures
        parse_outcome(specs, tokens, program) matches Ok(t) ==> t.contains_key(program) && t[program] is Some
            && (!declared(specs, program) ==> t[program] == Some(loose_tokens(specs, tokens, 0))),
{
    let start = initial_table(specs, program);
    lemma_keeps_some(specs, tokens, program, 0, start, program);
    if !declared(specs, program) {
        lemma_loose(specs, tokens, program, 0, start, Seq::empty());
        assert(Seq::<Seq<char>>::empty() + loose_tokens(specs, tokens, 0) =~= loose_tokens(
            specs,
            tokens,
            0,
        ));
    }
}

/// If the pass reads a token that starts with `-` and writes no declared
/// option, the parse fails with `InvalidOption` of that token and returns no table.
pub proof fn law_unknown_option(
    specs: Seq<ArgView>,
    tokens: Seq<Seq<char>>,
    program: Seq<char>,
    p: int,
)
    requires
        0 <= p < tokens.len(),
        reached(specs, tokens, 0, p),
        is_option_shaped(tokens[p]),
        option_index(specs, tokens[p]) is None,
    ensures
        parse_outcome(specs, tokens, program) == Err::<Table, ParseErrorView>(
            ParseErrorView::InvalidOption(tokens[p]),
        ),
{
    lemma_unknown_option(specs, tokens, program, 0, initial_table(specs, program), p);
}

/// Two parses of the same tokens against the same declared arguments return
/// the same: both fail with the same error, or both succeed with tables that
/// hold the same names and the same list under each.
pub proof fn law_same_inputs_same_outcome(
    first: Result<Args, ParseError>,
    second: Result<Args, ParseError>,
    specs: Seq<ArgView>,
    tokens: Seq<Seq<char>>,
    program: Seq<char>,
)
    requires
        outcome_view(first) == parse_outcome(specs, tokens, program),
        outcome_view(second) == parse_outcome(specs, tokens, program),
    ensures
        outcome_view(first) == outcome_view(second),
        first is Ok <==> second is Ok,
        first matches Ok(a) ==> second matches Ok(b) && a@.dom() == b@.dom() && forall|k: Seq<char>|
            a@.contains_key(k) ==> a@[k] == b@[k],
        first matches Err(a) ==> second matches Err(b) && a@ == b@,
{
}

} // verus!
