//! The command lines that change the run state of a virtual machine.

use crate::strutils::views;
use crate::utils::push_word;
use crate::vmid::VmId;
use crate::RunContext;
use vstd::prelude::*;

verus! {

/// The word that names a run context on the command line.
pub open spec fn context_word(ctx: RunContext) -> Seq<char> {
    match ctx {
        RunContext::GUI => "gui"@,
        RunContext::Headless => "headless"@,
    }
}

/// The arguments that start a virtual machine in the given context: `startvm`, the machine,
/// `--type` and the context.
pub fn start_args(vid: &VmId, ctx: &RunContext) -> (args: Vec<String>)
    ensures
        views(args@) == seq!["startvm"@, vid.text(), "--type"@, context_word(*ctx)],
{
    let mut args: Vec<String> = Vec::new();
    push_word(&mut args, "startvm");
    push_word(&mut args, vid.to_string().as_str());
    push_word(&mut args, "--type");
    match ctx {
        RunContext::GUI => push_word(&mut args, "gui"),
        RunContext::Headless => push_word(&mut args, "headless"),
    }
    assert(views(args@) =~= seq!["startvm"@, vid.text(), "--type"@, context_word(*ctx)]);
    args
}

/// The arguments that switch a virtual machine off at once: `controlvm`, the machine and
/// `poweroff`.
pub fn kill_args(vid: &VmId) -> (args: Vec<String>)
    ensures
        views(args@) == seq!["controlvm"@, vid.text(), "poweroff"@],
{
    let mut args: Vec<String> = Vec::new();
    push_word(&mut args, "controlvm");
    push_word(&mut args, vid.to_string().as_str());
    push_word(&mut args, "poweroff");
    assert(views(args@) =~= seq!["controlvm"@, vid.text(), "poweroff"@]);
    args
}

/// The arguments that reset a virtual machine: `controlvm`, the machine and `reset`.
pub fn reset_args(vid: &VmId) -> (args: Vec<String>)
    ensures
        views(args@) == seq!["controlvm"@, vid.text(), "reset"@],
{
    let mut args: Vec<String> = Vec::new();
    push_word(&mut args, "controlvm");
    push_word(&mut args, vid.to_string().as_str());
    push_word(&mut args, "reset");
    assert(views(args@) =~= seq!["controlvm"@, vid.text(), "reset"@]);
    args
}

} // verus!
