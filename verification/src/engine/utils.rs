//! Errors of the command-line tool and the positional argument lookup.
use vstd::prelude::*;

verus! {

/// What can go wrong while running one of the tool's commands.
#[derive(Debug, Clone, PartialEq, Eq)]
pub enum CommandError {
    ProcessError(String),
    ExpectedArgument(String, usize),
    ArgumentError(String),
    ConfigError(String),
}

/// A value or the error that stopped its computation.
pub type ValueResult<T> = Result<T, CommandError>;

/// The argument at position `pos` of `args` (the program's own name stands
/// at position 0), or `ExpectedArgument` naming the missing argument.
pub fn get_arg(args: &Vec<String>, pos: usize, argument_name: &str) -> (res: Result<String, CommandError>)
    ensures
        pos < args.len() ==> (res matches Ok(s) && s@ == args@[pos as int]@),
        pos >= args.len() ==> (res matches Err(CommandError::ExpectedArgument(name, p))
            && name@ == argument_name@ && p == pos),
{
    if pos < args.len() {
        Ok(args[pos].clone())
    } else {
        Err(CommandError::ExpectedArgument(String::from_str(argument_name), pos))
    }
}

} // verus!
