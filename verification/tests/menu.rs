use dual::menu::MenuOption;

#[test]
fn menu_lists_options_in_order() {
    let all = MenuOption::all();
    assert_eq!(all, &[MenuOption::Resume, MenuOption::Disconnect, MenuOption::Quit]);
}

#[test]
fn menu_labels() {
    assert_eq!(MenuOption::Resume.label(), "Resume");
    assert_eq!(MenuOption::Disconnect.label(), "Disconnect");
    assert_eq!(MenuOption::Quit.label(), "Quit");
}
