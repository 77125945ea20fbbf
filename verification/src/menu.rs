use vstd::prelude::*;

verus! {

/// Entries of the in-game menu.
#[derive(Debug, Clone, Copy, PartialEq, Eq, Structural)]
pub enum MenuOption {
    Resume,
    Disconnect,
    Quit,
}

/// Menu entries in display order.
pub const MENU_OPTIONS: [MenuOption; 3] = [MenuOption::Resume, MenuOption::Disconnect, MenuOption::Quit];

impl MenuOption {
    /// Every entry, in display order.
    pub fn all() -> (r: &'static [MenuOption])
        ensures
            r@ == seq![MenuOption::Resume, MenuOption::Disconnect, MenuOption::Quit],
    {
        let r: &'static [MenuOption] = &MENU_OPTIONS;
        assert(r@ =~= seq![MenuOption::Resume, MenuOption::Disconnect, MenuOption::Quit]);
        r
    }

    /// The text shown for the entry.
    pub fn label(&self) -> (r: &'static str)
        ensures
            r@ == (match *self {
                MenuOption::Resume => "Resume"@,
                MenuOption::Disconnect => "Disconnect"@,
                MenuOption::Quit => "Quit"@,
            }),
    {
        match self {
            MenuOption::Resume => "Resume",
            MenuOption::Disconnect => "Disconnect",
            MenuOption::Quit => "Quit",
        }
    }
}

} // verus!
