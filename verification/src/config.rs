//! Declaring the arguments a program expects.

use vstd::prelude::*;
use crate::arg::{arg_views, Arg, ArgType, ArgView, ParameterCount};

verus! {

/// Collects declared arguments, one call at a time, in the order of the calls.
#[derive(Debug)]
pub struct ConfigBuilder {
    args: Vec<Arg>,
}

impl View for ConfigBuilder {
    type V = Seq<ArgView>;

    closed spec fn view(&self) -> Seq<ArgView> {
        arg_views(self.args@)
    }
}

impl Default for ConfigBuilder {
    fn default() -> (r: Self)
        ensures
            r@ == Seq::<ArgView>::empty(),
    {
        let r = ConfigBuilder { args: Vec::new() };
        proof {
            assert(r@ =~= Seq::<ArgView>::empty());
        }
        r
    }
}

impl ConfigBuilder {
    fn with(self, arg: Arg) -> (r: Self)
        ensures
            r@ == self@.push(arg@),
    {
        let mut args = self.args;
        args.push(arg);
        let r = ConfigBuilder { args };
        proof {
            assert(r@ =~= self@.push(arg@));
        }
        r
    }

    /// Adds an option that has only a short form.
    pub fn add_short_option(self, name: String, short: char, parameter_count: ParameterCount) -> (r:
        Self)
        ensures
            r@ == self@.push(
                (ArgView {
                    short: Some(short),
                    long: None,
                    name: name@,
                    kind: ArgType::Option,
                    parameter_count,
                }),
            ),
    {
        self.with(Arg { short: Some(short), long: None, name, kind: ArgType::Option, parameter_count })
    }

    /// Adds an option that has only a long form.
    pub fn add_long_option(self, name: String, long: String, parameter_count: ParameterCount) -> (r:
        Self)
        ensures
            r@ == self@.push(
                (ArgView {
                    short: None,
                    long: Some(long@),
                    name: name@,
                    kind: ArgType::Option,
                    parameter_count,
                }),
            ),
    {
        self.with(Arg { short: None, long: Some(long), name, kind: ArgType::Option, parameter_count })
    }

    /// Adds an option with a short and a long form.
    pub fn add_option(
        self,
        name: String,
        short: char,
        long: String,
        parameter_count: ParameterCount,
    ) -> (r: Self)
        ensures
            r@ == self@.push(
                (ArgView {
                    short: Some(short),
                    long: Some(long@),
                    name: name@,
                    kind: ArgType::Option,
                    parameter_count,
                }),
            ),
    {
        self.with(
            Arg { short: Some(short), long: Some(long), name, kind: ArgType::Option, parameter_count },
        )
    }

    /// Adds a flag: an option without parameters, with a short and a long form.
    pub fn add_flag(self, name: String, short: char, long: String) -> (r: Self)
        ensures
            r@ == self@.push(
                (ArgView {
                    short: Some(short),
                    long: Some(long@),
                    name: name@,
                    kind: ArgType::Option,
                    parameter_count: ParameterCount::Zero,
                }),
            ),
    {
        self.with(
            Arg {
                short: Some(short),
                long: Some(long),
                name,
                kind: ArgType::Option,
                parameter_count: ParameterCount::Zero,
            },
        )
    }

    /// Adds a flag that has only a short form.
    pub fn add_short_flag(self, name: String, short: char) -> (r: Self)
        ensures
            r@ == self@.push(
                (ArgView {
                    short: Some(short),
                    long: None,
                    name: name@,
                    kind: ArgType::Option,
                    parameter_count: ParameterCount::Zero,
                }),
            ),
    {
        self.with(
            Arg {
                short: Some(short),
                long: None,
                name,
                kind: ArgType::Option,
                parameter_count: ParameterCount::Zero,
            },
        )
    }

    /// Adds a flag that has only a long form.
    pub fn add_long_flag(self, name: String, long: String) -> (r: Self)
        ensures
            r@ == self@.push(
                (ArgView {
                    short: None,
                    long: Some(long@),
                    name: name@,
                    kind: ArgType::Option,
                    parameter_count: ParameterCount::Zero,
                }),
            ),
    {
        self.with(
            Arg {
                short: None,
                long: Some(long),
                name,
                kind: ArgType::Option,
                parameter_count: ParameterCount::Zero,
            },
        )
    }

    /// Adds a subcommand, matched by its name.
    pub fn add_subcommand(self, name: String, parameter_count: ParameterCount) -> (r: Self)
        ensures
            r@ == self@.push(
                (ArgView {
                    short: None,
                    long: None,
                    name: name@,
                    kind: ArgType::Subcommand,
                    parameter_count,
                }),
            ),
    {
        self.with(Arg { short: None, long: None, name, kind: ArgType::Subcommand, parameter_count })
    }

    /// Finishes the declaration.
    pub fn build(self) -> (r: Config)
        ensures
            r@ == self@,
    {
        Config { args: self.args }
    }
}

/// The declared arguments of a program, in the order of their declaration.
#[derive(Debug)]
pub struct Config {
    /// The declared arguments.
    pub args: Vec<Arg>,
}

impl View for Config {
    type V = Seq<ArgView>;

    open spec fn view(&self) -> Seq<ArgView> {
        arg_views(self.args@)
    }
}

} // verus!
