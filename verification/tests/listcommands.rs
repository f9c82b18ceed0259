use exercises::linkedlist::LinkedList;
use exercises::listcommands::{command_for, execute, Command, Reply};

fn values(list: &LinkedList<String>) -> Vec<String> {
    let mut out = Vec::new();
    let mut i = 0usize;
    while let Some(v) = list.find_value(i) {
        out.push(v);
        i += 1;
    }
    out
}

fn text(s: &str) -> String {
    String::from(s)
}

#[test]
fn option_numbers_select_commands() {
    assert_eq!(command_for(1), Command::Append);
    assert_eq!(command_for(2), Command::DeleteValue);
    assert_eq!(command_for(3), Command::DeleteIndex);
    assert_eq!(command_for(4), Command::FindIndex);
    assert_eq!(command_for(5), Command::FindValue);
    assert_eq!(command_for(6), Command::AppendAfter);
    assert_eq!(command_for(7), Command::AppendBefore);
    assert_eq!(command_for(8), Command::Print);
    assert_eq!(command_for(-1), Command::Exit);
}

#[test]
fn other_option_numbers_are_invalid() {
    assert_eq!(command_for(0), Command::Invalid);
    assert_eq!(command_for(9), Command::Invalid);
    assert_eq!(command_for(-2), Command::Invalid);
    assert_eq!(command_for(i32::MAX), Command::Invalid);
    assert_eq!(command_for(i32::MIN), Command::Invalid);
}

#[test]
fn commands_ask_for_their_operands() {
    let all = [
        (Command::Append, false, true),
        (Command::DeleteValue, false, true),
        (Command::DeleteIndex, true, false),
        (Command::FindIndex, false, true),
        (Command::FindValue, true, false),
        (Command::AppendAfter, true, true),
        (Command::AppendBefore, true, true),
        (Command::Print, false, false),
        (Command::Exit, false, false),
        (Command::Invalid, false, false),
    ];
    for (command, index, value) in all {
        assert_eq!(command.needs_index(), index);
        assert_eq!(command.needs_value(), value);
    }
}

#[test]
fn execute_runs_a_session() {
    let mut list: LinkedList<String> = LinkedList::new();
    assert!(matches!(execute(&mut list, Command::Append, 0, text("b")), Reply::Done));
    assert!(matches!(execute(&mut list, Command::Append, 0, text("d")), Reply::Done));
    assert!(matches!(
        execute(&mut list, Command::AppendAfter, 0, text("c")),
        Reply::Done
    ));
    assert_eq!(values(&list), vec!["b", "c", "d"]);
    assert!(matches!(
        execute(&mut list, Command::AppendBefore, 0, text("a")),
        Reply::Done
    ));
    assert_eq!(values(&list), vec!["a", "b", "c", "d"]);
    assert!(matches!(
        execute(&mut list, Command::FindIndex, 0, text("c")),
        Reply::Position(Some(2))
    ));
    assert!(matches!(
        execute(&mut list, Command::FindIndex, 0, text("z")),
        Reply::Position(None)
    ));
    match execute(&mut list, Command::FindValue, 3, text("")) {
        Reply::Value(Some(found)) => assert_eq!(found, "d"),
        _ => panic!("no value"),
    }
    assert!(matches!(
        execute(&mut list, Command::FindValue, 4, text("")),
        Reply::Value(None)
    ));
    assert!(matches!(
        execute(&mut list, Command::DeleteValue, 0, text("b")),
        Reply::Done
    ));
    assert_eq!(values(&list), vec!["a", "c", "d"]);
    assert!(matches!(
        execute(&mut list, Command::DeleteIndex, 0, text("")),
        Reply::Done
    ));
    assert_eq!(values(&list), vec!["c", "d"]);
    match execute(&mut list, Command::Print, 0, text("")) {
        Reply::Listing(listing) => assert_eq!(listing, "\n\"c\" -> \"d\" -> None\n"),
        _ => panic!("no listing"),
    }
    assert!(matches!(
        execute(&mut list, Command::Invalid, 0, text("")),
        Reply::Invalid
    ));
    assert!(matches!(execute(&mut list, Command::Exit, 0, text("")), Reply::Exit));
    assert_eq!(values(&list), vec!["c", "d"]);
}

#[test]
fn commands_without_effect_leave_the_list() {
    let mut list: LinkedList<String> = LinkedList::new();
    execute(&mut list, Command::DeleteIndex, 0, text(""));
    execute(&mut list, Command::DeleteValue, 0, text("x"));
    execute(&mut list, Command::AppendAfter, 0, text("x"));
    execute(&mut list, Command::AppendBefore, 3, text("x"));
    assert_eq!(values(&list), Vec::<String>::new());
    match execute(&mut list, Command::Print, 0, text("")) {
        Reply::Listing(listing) => assert_eq!(listing, "\nNone\n"),
        _ => panic!("no listing"),
    }
}
