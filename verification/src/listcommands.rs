//! The commands of the interactive session on a list of text values: which
//! command an option number selects, what it asks the user for, and what it
//! does to the list.

use crate::linkedlist::{
    index_deleted, index_found, inserted_after, inserted_before, text_listing, value_deleted,
    value_found, LinkedList,
};
use vstd::prelude::*;

verus! {

/// One command of the session.
#[derive(Clone, Copy, Debug, PartialEq, Eq, Structural)]
pub enum Command {
    Append,
    DeleteValue,
    DeleteIndex,
    FindIndex,
    FindValue,
    AppendAfter,
    AppendBefore,
    Print,
    Exit,
    Invalid,
}

/// What a command answers.
pub enum Reply {
    /// The command changed the list, or found nothing to change.
    Done,
    /// The position that a search found.
    Position(Option<usize>),
    /// The value that a lookup found.
    Value(Option<String>),
    /// The printed form of the list.
    Listing(String),
    /// The session is over.
    Exit,
    /// The option selects no command.
    Invalid,
}

/// The command that an option number selects.
pub open spec fn command_of(option: int) -> Command {
    if option == 1 {
        Command::Append
    } else if option == 2 {
        Command::DeleteValue
    } else if option == 3 {
        Command::DeleteIndex
    } else if option == 4 {
        Command::FindIndex
    } else if option == 5 {
        Command::FindValue
    } else if option == 6 {
        Command::AppendAfter
    } else if option == 7 {
        Command::AppendBefore
    } else if option == 8 {
        Command::Print
    } else if option == -1 {
        Command::Exit
    } else {
        Command::Invalid
    }
}

/// What `command` does to a list holding `pre` when asked with `index` and
/// `value`: the values it leaves and the reply it gives.
pub open spec fn outcome(
    command: Command,
    pre: Seq<String>,
    index: usize,
    value: String,
    post: Seq<String>,
    reply: Reply,
) -> bool {
    match command {
        Command::Append => post == pre.push(value) && reply is Done,
        Command::DeleteValue => value_deleted(pre, post, value) && reply is Done,
        Command::DeleteIndex => index_deleted(pre, post, index) && reply is Done,
        Command::FindIndex => post == pre && (reply matches Reply::Position(found) && index_found(
            pre,
            value,
            found,
        )),
        Command::FindValue => post == pre && (reply matches Reply::Value(found) && value_found(
            pre,
            index,
            found,
        )),
        Command::AppendAfter => inserted_after(pre, post, index, value) && reply is Done,
        Command::AppendBefore => inserted_before(pre, post, index, value) && reply is Done,
        Command::Print => post == pre && (reply matches Reply::Listing(text) && text@
            == text_listing(pre)),
        Command::Exit => post == pre && reply is Exit,
        Command::Invalid => post == pre && reply is Invalid,
    }
}

/// The command that the option number typed by the user selects.
pub fn command_for(option: i32) -> (command: Command)
    ensures
        command == command_of(option as int),
{
    if option == 1 {
        Command::Append
    } else if option == 2 {
        Command::DeleteValue
    } else if option == 3 {
        Command::DeleteIndex
    } else if option == 4 {
        Command::FindIndex
    } else if option == 5 {
        Command::FindValue
    } else if option == 6 {
        Command::AppendAfter
    } else if option == 7 {
        Command::AppendBefore
    } else if option == 8 {
        Command::Print
    } else if option == -1 {
        Command::Exit
    } else {
        Command::Invalid
    }
}

impl Command {
    /// Whether the command asks the user for a position.
    pub fn needs_index(&self) -> (needed: bool)
        ensures
            needed <==> (*self == Command::DeleteIndex || *self == Command::FindValue || *self
                == Command::AppendAfter || *self == Command::AppendBefore),
    {
        match self {
            Command::DeleteIndex
            | Command::FindValue
            | Command::AppendAfter
            | Command::AppendBefore => true,
            _ => false,
        }
    }

    /// Whether the command asks the user for a value.
    pub fn needs_value(&self) -> (needed: bool)
        ensures
            needed <==> (*self == Command::Append || *self == Command::DeleteValue || *self
                == Command::FindIndex || *self == Command::AppendAfter || *self
                == Command::AppendBefore),
    {
        match self {
            Command::Append
            | Command::DeleteValue
            | Command::FindIndex
            | Command::AppendAfter
            | Command::AppendBefore => true,
            _ => false,
        }
    }
}

/// Carries out `command` on `list`. A command uses `index` and `value` only
/// where it asks for them.
pub fn execute(
    list: &mut LinkedList<String>,
    command: Command,
    index: usize,
    value: String,
) -> (reply: Reply)
    requires
        old(list).wf(),
    ensures
        final(list).wf(),
        outcome(command, old(list)@, index, value, final(list)@, reply),
{
    match command {
        Command::Append => {
            list.append(value);
            Reply::Done
        },
        Command::DeleteValue => {
            list.delete_val(value);
            Reply::Done
        },
        Command::DeleteIndex => {
            list.delete_index(index);
            Reply::Done
        },
        Command::FindIndex => Reply::Position(list.find_index(&value)),
        Command::FindValue => Reply::Value(list.find_value(index)),
        Command::AppendAfter => {
            list.append_after_index(index, value);
            Reply::Done
        },
        Command::AppendBefore => {
            list.append_before_index(index, value);
            Reply::Done
        },
        Command::Print => Reply::Listing(list.print_texts()),
        Command::Exit => Reply::Exit,
        Command::Invalid => Reply::Invalid,
    }
}

} // verus!
