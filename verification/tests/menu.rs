use exercises::menu::{get_menu_options, selection_for, MenuOption, Selection};

#[test]
fn menu_has_six_numbered_lines() {
    let options: Vec<MenuOption> = get_menu_options();
    assert_eq!(options.len(), 6);
    for (i, option) in options.iter().enumerate() {
        assert_eq!(option.number as usize, i + 1);
    }
}

#[test]
fn menu_texts() {
    let options = get_menu_options();
    let texts: Vec<&str> = options.iter().map(|o| o.description).collect();
    assert_eq!(
        texts,
        vec![
            "Guess the number",
            "Read file",
            "Write to file",
            "Basic calculator",
            "Hello world",
            "Exit"
        ]
    );
}

#[test]
fn menu_numbers_select_exercises() {
    assert_eq!(selection_for(1), Selection::GuessNumber);
    assert_eq!(selection_for(2), Selection::ReadFile);
    assert_eq!(selection_for(3), Selection::WriteFile);
    assert_eq!(selection_for(4), Selection::Calculator);
    assert_eq!(selection_for(5), Selection::HelloWorld);
    assert_eq!(selection_for(6), Selection::AppendFile);
    assert_eq!(selection_for(7), Selection::Quit);
    assert_eq!(selection_for(0), Selection::Invalid);
    assert_eq!(selection_for(8), Selection::Invalid);
    assert_eq!(selection_for(u32::MAX), Selection::Invalid);
}
