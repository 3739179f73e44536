//! Picking the arguments of a command line apart.

use vstd::prelude::*;

verus! {

/// Why a command could not be read.
#[derive(Clone, Copy, Debug, PartialEq, Eq, Structural)]
pub enum ArgError {
    /// The command line has fewer arguments than the command needs.
    NotEnoughArguments,
}

/// Argument `argnum` of a command line, the command itself being argument 0.
pub fn get_arg(args: &Vec<&str>, argnum: usize) -> (arg: Result<String, ArgError>)
    ensures
        match arg {
            Ok(text) => argnum < args.len() && text@ == args[argnum as int]@,
            Err(error) => argnum >= args.len() && error == ArgError::NotEnoughArguments,
        },
{
    if args.len() > argnum {
        Ok(args[argnum].to_owned())
    } else {
        Err(ArgError::NotEnoughArguments)
    }
}

} // verus!
