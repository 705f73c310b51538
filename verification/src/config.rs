//! The parsed command line: the command word and its raw arguments, split
//! off the process argument list.

use vstd::prelude::*;

verus! {

/// The command word and the raw arguments that follow it. Field contents are
/// validated later, by the entry points the front end calls.
pub struct Config {
    pub command: String,
    pub arguments: Vec<String>,
}

impl Config {
    /// Splits the argument list (program name first) into the command word
    /// and the remaining arguments. Fails exactly when no command is given.
    pub fn build(args: Vec<String>) -> (r: Result<Config, &'static str>)
        ensures
            r is Ok <==> args@.len() >= 2,
            r matches Ok(c) ==> c.command == args@[1] && c.arguments@ == args@.subrange(
                2,
                args@.len() as int,
            ),
            r matches Err(e) ==> e@ == "not enough arguments"@,
    {
        if args.len() < 2 {
            return Err("not enough arguments");
        }
        let ghost orig = args@;
        let mut rest = args;
        let _program = rest.remove(0);
        let command = rest.remove(0);
        proof {
            assert(rest@ =~= orig.subrange(2, orig.len() as int));
        }
        Ok(Config { command, arguments: rest })
    }
}

} // verus!
