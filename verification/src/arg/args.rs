//! Reading a parsed result.

use vstd::prelude::*;
use crate::arg::Args;

verus! {

/// Whether the argument `name` appeared: the table holds a list under that
/// name. A declared name that no token matched did not appear, nor did a name
/// that the table does not hold.
pub fn appeared(name: &str, args: &Args) -> (r: bool)
    ensures
        r == (args@.contains_key(name@) && args@[name@] is Some),
{
    match args.get(name) {
        Some(Some(_)) => true,
        _ => false,
    }
}

/// The parameters stored under `name`: `Some` exactly if the name is in the
/// table and was matched.
pub fn parameters<'a>(name: &str, args: &'a Args) -> (r: Option<&'a Vec<String>>)
    ensures
        match r {
            Some(l) => args@.contains_key(name@) && args@[name@] == Some(crate::text::texts(l@)),
            None => !args@.contains_key(name@) || args@[name@] is None,
        },
{
    match args.get(name) {
        Some(v) => v.as_ref(),
        None => None,
    }
}

} // verus!
