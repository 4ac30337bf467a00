//! A minimalist command line argument parser.
//!
//! A [`Config`] declares the options, flags and subcommands a program
//! expects, each with a rule for the number of parameters it takes.
//! [`parse_inputs`] walks a token sequence once and returns, for every
//! declared name, the parameters it captured.

pub mod text;
pub mod arg;
pub mod config;
pub mod parser;
pub mod laws;

pub use arg::{Arg, ArgType, ArgView, Args, ParameterCount, Table};
pub use arg::args::{appeared, parameters};
pub use config::{Config, ConfigBuilder};
pub use parser::{
    assign_parameters, is_option_or_subcommand, option_exists, parse, parse_inputs, subcommand_exists,
};
pub use parser::error::{ParseError, ParseErrorView};
