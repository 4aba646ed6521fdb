//! Platform-neutral menu data; each platform backend renders it natively.

use vstd::prelude::*;

verus! {

/// One menu entry. `id == 0` marks a separator or a submenu header.
pub struct MenuEntry {
    /// Command id (0 = separator).
    pub id: usize,
    pub text: String,
    pub checked: bool,
    /// Child entries (second-level menu).
    pub children: Option<Vec<MenuEntry>>,
}

impl MenuEntry {
    /// A plain command entry.
    pub fn item(id: usize, text: &str) -> (e: MenuEntry)
        ensures
            e.id == id,
            e.text@ == text@,
            !e.checked,
            e.children is None,
    {
        MenuEntry { id, text: text.to_owned(), checked: false, children: None }
    }

    /// A command entry with a check mark state.
    pub fn check(id: usize, text: &str, checked: bool) -> (e: MenuEntry)
        ensures
            e.id == id,
            e.text@ == text@,
            e.checked == checked,
            e.children is None,
    {
        MenuEntry { id, text: text.to_owned(), checked, children: None }
    }

    /// A submenu holding `children`.
    pub fn submenu(text: &str, children: Vec<MenuEntry>) -> (e: MenuEntry)
        ensures
            e.id == 0,
            e.text@ == text@,
            !e.checked,
            e.children == Some(children),
    {
        MenuEntry { id: 0, text: text.to_owned(), checked: false, children: Some(children) }
    }

    /// A separator line.
    pub fn separator() -> (e: MenuEntry)
        ensures
            e.id == 0,
            e.text@ == Seq::<char>::empty(),
            !e.checked,
            e.children is None,
    {
        MenuEntry { id: 0, text: String::new(), checked: false, children: None }
    }

    /// Whether this entry is a separator: id 0 and no children.
    pub fn is_separator(&self) -> (b: bool)
        ensures
            b == (self.id == 0 && self.children is None),
    {
        self.id == 0 && self.children.is_none()
    }
}

} // verus!
