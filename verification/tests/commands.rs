use vboxhelper::controlvm::{kill_args, reset_args, start_args};
use vboxhelper::platform::get_cmd;
use vboxhelper::storage::{attach_args, IdeInfo, Info, Type};
use vboxhelper::utils::{push_word, same_text};
use vboxhelper::{RunContext, VmId};

#[test]
fn the_command_is_the_name_of_the_tool() {
    assert_eq!(get_cmd("VBoxManage"), "VBoxManage");
    assert_eq!(get_cmd(""), "");
}

#[test]
fn the_arguments_that_start_a_machine() {
    let vm = VmId::from("box");
    assert_eq!(start_args(&vm, &RunContext::GUI), vec!["startvm", "box", "--type", "gui"]);
    assert_eq!(
        start_args(&vm, &RunContext::Headless),
        vec!["startvm", "box", "--type", "headless"]
    );
    assert_eq!(
        start_args(&VmId::Uuid(1), &RunContext::Headless),
        vec!["startvm", "{00000000-0000-0000-0000-000000000001}", "--type", "headless"]
    );
}

#[test]
fn the_arguments_that_kill_and_reset_a_machine() {
    let vm = VmId::from("my box");
    assert_eq!(kill_args(&vm), vec!["controlvm", "my box", "poweroff"]);
    assert_eq!(reset_args(&vm), vec!["controlvm", "my box", "reset"]);
}

#[test]
fn the_arguments_that_attach_a_medium() {
    let vm = VmId::from("box");
    let place = Info::IDE(IdeInfo { port: 1, device: 0, stype: Type::DvdDrive });
    assert_eq!(
        attach_args(&vm, &place),
        vec![
            "storageattach",
            "box",
            "--storagectl",
            "IDE",
            "--port",
            "1",
            "--device",
            "0",
            "--type",
            "dvddrive",
            "--medium",
        ]
    );
    let far = Info::IDE(IdeInfo { port: 255, device: 17, stype: Type::DvdDrive });
    let args = attach_args(&vm, &far);
    assert_eq!(args[5], "255");
    assert_eq!(args[7], "17");
}

#[test]
fn words_are_compared_and_appended() {
    assert!(same_text("abc", "abc"));
    assert!(!same_text("abc", "abd"));
    assert!(!same_text("abc", "ab"));
    assert!(same_text("", ""));
    let mut words = vec!["a".to_string()];
    push_word(&mut words, "b");
    assert_eq!(words, vec!["a", "b"]);
}
