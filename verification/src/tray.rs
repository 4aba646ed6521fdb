//! Tray icon state and the tray menu's command ids. Adding and removing the
//! icon is a platform call made by the caller.

use vstd::prelude::*;

verus! {

/// Show or hide the pet.
pub const TRAY_TOGGLE_VISIBLE: usize = 1001;
/// Start with the system on or off.
pub const TRAY_AUTOSTART: usize = 1002;
/// Quit.
pub const TRAY_QUIT: usize = 1003;

/// Whether the tray icon is currently shown.
pub struct Tray {
    pub added: bool,
}

impl Tray {
    /// A tray without an icon yet.
    pub fn new() -> (r: Tray)
        ensures
            !r.added,
    {
        Tray { added: false }
    }
}

impl Default for Tray {
    fn default() -> (r: Tray)
        ensures
            !r.added,
    {
        Tray::new()
    }
}

} // verus!
