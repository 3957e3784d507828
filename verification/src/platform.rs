//! Where the manager's command line tools are found.

use vstd::prelude::*;

verus! {

/// The command that runs the tool of the given name: the name itself, to be looked up on the
/// search path.
pub fn get_cmd(name: &str) -> (command: String)
    ensures
        command@ == name@,
{
    String::from_str(name)
}

} // verus!
