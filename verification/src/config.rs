//! The command line: which operation is asked for, and on what.

use crate::error::Error;
use vstd::prelude::*;
use vstd::std_specs::iter::IteratorSpec;
use vstd::string::StringExecFns;

verus! {

/// An operation's name and its arguments, as they stood on the command
/// line.
#[derive(Debug)]
pub struct Config {
    pub operate: String,
    pub argument: Vec<String>,
}

/// What a command line asks for.
#[derive(Clone, Copy, PartialEq, Eq, Structural, Debug)]
pub enum Operation {
    /// Make a repository; the first argument names it.
    Init,
    /// Stage the paths given as arguments.
    Add,
    /// Unstage the paths given as arguments.
    Rm,
    /// Commit what is staged; the first argument is the message.
    Commit,
    /// List the branches.
    Branch,
}

/// The operation that the word `operate` names, with `given` arguments on
/// the command line. `init` and `commit` need an argument; `checkout` and
/// `merge` are known but not supported yet.
pub open spec fn operation_of(operate: Seq<char>, given: nat) -> Result<Operation, Error> {
    if operate == "init"@ {
        if given > 0 {
            Ok(Operation::Init)
        } else {
            Err(Error::MissingArgument)
        }
    } else if operate == "add"@ {
        Ok(Operation::Add)
    } else if operate == "rm"@ {
        Ok(Operation::Rm)
    } else if operate == "commit"@ {
        if given > 0 {
            Ok(Operation::Commit)
        } else {
            Err(Error::MissingArgument)
        }
    } else if operate == "branch"@ {
        Ok(Operation::Branch)
    } else if operate == "checkout"@ || operate == "merge"@ {
        Err(Error::NotYetSupported)
    } else {
        Err(Error::UnknownOperation)
    }
}

/// Tells which operation a configuration asks for, so that the caller can
/// carry it out.
pub fn run(config: &Config) -> (operation: Result<Operation, Error>)
    ensures
        operation == operation_of(config.operate@, config.argument@.len()),
{
    let given = config.argument.len();
    if config.operate == String::from_str("init") {
        if given > 0 {
            Ok(Operation::Init)
        } else {
            Err(Error::MissingArgument)
        }
    } else if config.operate == String::from_str("add") {
        Ok(Operation::Add)
    } else if config.operate == String::from_str("rm") {
        Ok(Operation::Rm)
    } else if config.operate == String::from_str("commit") {
        if given > 0 {
            Ok(Operation::Commit)
        } else {
            Err(Error::MissingArgument)
        }
    } else if config.operate == String::from_str("branch") {
        Ok(Operation::Branch)
    } else if config.operate == String::from_str("checkout") {
        checkout()
    } else if config.operate == String::from_str("merge") {
        merge()
    } else {
        Err(Error::UnknownOperation)
    }
}

/// Checking out a branch is not supported yet.
pub fn checkout() -> (operation: Result<Operation, Error>)
    ensures
        operation == Err::<Operation, Error>(Error::NotYetSupported),
{
    Err(Error::NotYetSupported)
}

/// Merging a branch is not supported yet.
pub fn merge() -> (operation: Result<Operation, Error>)
    ensures
        operation == Err::<Operation, Error>(Error::NotYetSupported),
{
    Err(Error::NotYetSupported)
}

impl Config {
    /// Builds the configuration from the words of a command line. The first
    /// word names the program and is passed over; the second names the
    /// operation; the others are its arguments. A command line of fewer
    /// than two words is refused.
    pub fn build<I: Iterator<Item = String>>(args: I) -> (config: Result<Config, &'static str>)
        requires
            args.obeys_prophetic_iter_laws(),
            args.decrease() is Some,
        ensures
            args.remaining().len() < 2 ==> config is Err && config->Err_0@
                == "Didn't get operate string in input"@,
            args.remaining().len() >= 2 ==> {
                &&& config is Ok
                &&& config->Ok_0.operate == args.remaining()[1]
                &&& config->Ok_0.argument@ == args.remaining().skip(2)
            },
    {
        let mut words = args;
        let ghost all = args.remaining();
        words.next();
        let operate = match words.next() {
            Some(op) => op,
            None => {
                return Err("Didn't get operate string in input");
            },
        };
        assert(words.remaining() =~= all.skip(2));
        let mut argument: Vec<String> = Vec::new();
        loop
            invariant
                words.obeys_prophetic_iter_laws(),
                words.decrease() is Some,
                all == args.remaining(),
                all.len() >= 2,
                operate == all[1],
                argument@ + words.remaining() == all.skip(2),
            decreases words.decrease()->0,
        {
            match words.next() {
                Some(arg) => {
                    argument.push(arg);
                    assert(argument@ + words.remaining() =~= all.skip(2));
                },
                None => {
                    assert(argument@ =~= all.skip(2));
                    return Ok(Config { operate, argument });
                },
            }
        }
    }
}

} // verus!
