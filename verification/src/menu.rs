//! The table of exercises that the top-level menu offers, and what each
//! number typed there starts.

use vstd::prelude::*;

verus! {

/// One line of the menu: the number to type and what it starts.
pub struct MenuOption {
    pub number: u32,
    pub description: &'static str,
}

/// The text of the menu line at position `i`.
pub open spec fn menu_text(i: int) -> Seq<char> {
    if i == 0 {
        "Guess the number"@
    } else if i == 1 {
        "Read file"@
    } else if i == 2 {
        "Write to file"@
    } else if i == 3 {
        "Basic calculator"@
    } else if i == 4 {
        "Hello world"@
    } else {
        "Exit"@
    }
}

/// The menu: six lines, numbered from 1 in the order in which they are shown.
pub fn get_menu_options() -> (options: Vec<MenuOption>)
    ensures
        options@.len() == 6,
        forall|i: int|
            0 <= i < 6 ==> (#[trigger] options@[i]).number == i + 1 && options@[i].description@
                == menu_text(i),
{
    vec![
        MenuOption { number: 1, description: "Guess the number" },
        MenuOption { number: 2, description: "Read file" },
        MenuOption { number: 3, description: "Write to file" },
        MenuOption { number: 4, description: "Basic calculator" },
        MenuOption { number: 5, description: "Hello world" },
        MenuOption { number: 6, description: "Exit" },
    ]
}

/// What a number typed at the menu starts.
#[derive(Clone, Copy, Debug, PartialEq, Eq, Structural)]
pub enum Selection {
    GuessNumber,
    ReadFile,
    WriteFile,
    Calculator,
    HelloWorld,
    AppendFile,
    Quit,
    Invalid,
}

/// The selection that `number` stands for.
pub open spec fn selection_of(number: u32) -> Selection {
    if number == 1 {
        Selection::GuessNumber
    } else if number == 2 {
        Selection::ReadFile
    } else if number == 3 {
        Selection::WriteFile
    } else if number == 4 {
        Selection::Calculator
    } else if number == 5 {
        Selection::HelloWorld
    } else if number == 6 {
        Selection::AppendFile
    } else if number == 7 {
        Selection::Quit
    } else {
        Selection::Invalid
    }
}

/// The selection that the number typed at the menu stands for.
pub fn selection_for(number: u32) -> (selection: Selection)
    ensures
        selection == selection_of(number),
{
    if number == 1 {
        Selection::GuessNumber
    } else if number == 2 {
        Selection::ReadFile
    } else if number == 3 {
        Selection::WriteFile
    } else if number == 4 {
        Selection::Calculator
    } else if number == 5 {
        Selection::HelloWorld
    } else if number == 6 {
        Selection::AppendFile
    } else if number == 7 {
        Selection::Quit
    } else {
        Selection::Invalid
    }
}

} // verus!
