//! The two restore flows a caller can ask for.

use vstd::prelude::*;

use crate::strutil::str_eq;

verus! {

/// Which restore flow to run: take the newest version, or let the caller
/// choose among the distinct versions.
#[derive(Clone, Copy, Debug, PartialEq, Eq, Structural)]
pub enum Mode {
    MostRecentVersion,
    ChooseVersionInteractively,
}

impl Mode {
    /// Reads the mode off the end of the argument list: a trailing `-V`
    /// asks for interactive choice and is consumed; anything else leaves
    /// the arguments alone and picks the newest version.
    pub fn get_from_args(args: &mut Vec<String>) -> (r: Mode)
        requires
            old(args)@.len() > 0,
        ensures
            old(args)@.last()@ == "-V"@ ==> r == Mode::ChooseVersionInteractively && final(args)@
                == old(args)@.drop_last(),
            old(args)@.last()@ != "-V"@ ==> r == Mode::MostRecentVersion && final(args)@ == old(
                args,
            )@,
    {
        let n = args.len();
        if str_eq(args[n - 1].as_str(), "-V") {
            args.pop();
            Mode::ChooseVersionInteractively
        } else {
            Mode::MostRecentVersion
        }
    }
}

} // verus!
