//! The decisions behind the dashboard's commands and menu.
use vstd::prelude::*;
use crate::text::{push_str, push_decimal, decimal, str_equal, decode_lossy, utf8_lossy};

verus! {

/// The greeting for `name`.
pub open spec fn greeting(name: Seq<char>) -> Seq<char> {
    "Hello, "@ + name + "! You've been greeted from Rust!"@
}

/// Greets `name`.
pub fn greet(name: &str) -> (g: String)
    ensures
        g@ == greeting(name@),
{
    let mut g = String::new();
    push_str(&mut g, "Hello, ");
    push_str(&mut g, name);
    push_str(&mut g, "! You've been greeted from Rust!");
    assert(g@ =~= greeting(name@));
    g
}

/// The arguments of the `kill` command that stops process `pid` at once:
/// `-9` and the process id in decimal.
pub fn kill_arguments(pid: u32) -> (args: Vec<String>)
    ensures
        args@.len() == 2,
        args@[0]@ == "-9"@,
        args@[1]@ == decimal(pid as nat),
{
    let mut signal = String::new();
    push_str(&mut signal, "-9");
    let mut target = String::new();
    push_decimal(&mut target, pid);
    assert(target@ =~= decimal(pid as nat));
    assert(signal@ =~= "-9"@);
    let mut args: Vec<String> = Vec::new();
    args.push(signal);
    args.push(target);
    args
}

/// The outcome of a `kill` run: success, or the error output as the message.
pub fn kill_outcome(success: bool, stderr: &[u8]) -> (res: Result<(), String>)
    ensures
        success <==> res is Ok,
        res matches Err(msg) ==> msg@ == utf8_lossy(stderr@),
{
    if success {
        Ok(())
    } else {
        Err(decode_lossy(stderr))
    }
}

/// What a click on a tray menu entry does.
#[derive(Clone, Copy, Debug, PartialEq, Eq, Structural)]
pub enum MenuAction {
    /// Leave the application.
    Quit,
    /// Copy the feedback address to the clipboard.
    CopyFeedback,
    /// Nothing (the entry is informational).
    Nothing,
}

/// The action of the menu entry with identifier `id`.
pub open spec fn menu_action_of(id: Seq<char>) -> MenuAction {
    if id == "quit"@ {
        MenuAction::Quit
    } else if id == "feedback"@ {
        MenuAction::CopyFeedback
    } else {
        MenuAction::Nothing
    }
}

/// The action of the menu entry with identifier `id`.
pub fn menu_action(id: &str) -> (action: MenuAction)
    ensures
        action == menu_action_of(id@),
{
    if str_equal(id, "quit") {
        MenuAction::Quit
    } else if str_equal(id, "feedback") {
        MenuAction::CopyFeedback
    } else {
        MenuAction::Nothing
    }
}

} // verus!
