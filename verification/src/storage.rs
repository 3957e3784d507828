//! The command line that attaches a medium to a storage controller.

use crate::branch::{decimal, push_decimal};
use crate::strutils::views;
use crate::utils::push_word;
use crate::vmid::VmId;
use vstd::prelude::*;

verus! {

/// The kind of a storage device.
#[derive(Clone, Copy, Debug, PartialEq, Eq, Structural)]
pub enum Type {
    DvdDrive,
}

/// A place on an IDE controller.
#[derive(Clone, Copy, Debug)]
pub struct IdeInfo {
    pub port: u8,
    pub device: u8,
    pub stype: Type,
}

/// A place on a storage controller.
#[derive(Clone, Copy, Debug)]
pub enum Info {
    IDE(IdeInfo),
}

/// The word that names a kind of device on the command line.
pub open spec fn type_word(stype: Type) -> Seq<char> {
    match stype {
        Type::DvdDrive => "dvddrive"@,
    }
}

/// The words that name a place on a controller: the controller, the port, the device and the
/// kind of device.
pub open spec fn place_words(info: Info) -> Seq<Seq<char>> {
    match info {
        Info::IDE(ide) => seq![
            "--storagectl"@,
            "IDE"@,
            "--port"@,
            decimal(ide.port as nat),
            "--device"@,
            decimal(ide.device as nat),
            "--type"@,
            type_word(ide.stype),
        ],
    }
}

/// The arguments that attach a medium at the given place of a virtual machine, up to the
/// medium itself: `storageattach`, the machine, the place and `--medium`. The path of the
/// medium, which need not be text, follows as the last argument.
pub fn attach_args(vid: &VmId, info: &Info) -> (args: Vec<String>)
    ensures
        views(args@) == seq!["storageattach"@, vid.text()] + place_words(*info) + seq![
            "--medium"@,
        ],
{
    let mut args: Vec<String> = Vec::new();
    push_word(&mut args, "storageattach");
    push_word(&mut args, vid.to_string().as_str());
    match info {
        Info::IDE(ide) => {
            let mut port = String::new();
            push_decimal(&mut port, ide.port as usize);
            let mut device = String::new();
            push_decimal(&mut device, ide.device as usize);
            assert(port@ =~= decimal(ide.port as nat));
            assert(device@ =~= decimal(ide.device as nat));
            push_word(&mut args, "--storagectl");
            push_word(&mut args, "IDE");
            push_word(&mut args, "--port");
            push_word(&mut args, port.as_str());
            push_word(&mut args, "--device");
            push_word(&mut args, device.as_str());
            push_word(&mut args, "--type");
            match ide.stype {
                Type::DvdDrive => push_word(&mut args, "dvddrive"),
            }
        },
    }
    push_word(&mut args, "--medium");
    assert(views(args@) =~= seq!["storageattach"@, vid.text()] + place_words(*info) + seq![
        "--medium"@,
    ]);
    args
}

} // verus!
