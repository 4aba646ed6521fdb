//! Start with the system: on Windows the registry key, value and command; on
//! macOS the LaunchAgent file and its contents. Reading and writing the
//! registry and the file system is done by the caller.

use vstd::prelude::*;
use vstd::string::StringExecFns;
use crate::text::{utf16, wide};

verus! {

/// The per-user key listing programs started at log-in.
pub const RUN_KEY: &'static str = "Software\\Microsoft\\Windows\\CurrentVersion\\Run";
/// The value naming this program under [`RUN_KEY`].
pub const VALUE_NAME: &'static str = "deskpet";

/// [`RUN_KEY`] as a zero-terminated UTF-16 string.
pub fn run_key_path() -> (r: Vec<u16>)
    ensures
        r@ == utf16(RUN_KEY@).push(0),
{
    wide(RUN_KEY)
}

/// [`VALUE_NAME`] as a zero-terminated UTF-16 string.
pub fn value_name() -> (r: Vec<u16>)
    ensures
        r@ == utf16(VALUE_NAME@).push(0),
{
    wide(VALUE_NAME)
}

/// The registry command that starts the program: its path in double quotes.
pub open spec fn run_command_text(exe: Seq<char>) -> Seq<char> {
    seq!['"'] + exe + seq!['"']
}

/// The registry command for the program at `exe`, as a zero-terminated
/// UTF-16 string.
pub fn run_command(exe: &str) -> (r: Vec<u16>)
    ensures
        r@ == utf16(run_command_text(exe@)).push(0),
{
    let mut t = String::from_str("\"");
    t.append(exe);
    t.append("\"");
    proof {
        reveal_strlit("\"");
        assert("\""@ =~= seq!['"']);
    }
    wide(t.as_str())
}

/// The LaunchAgent file, relative to the home folder.
pub const PLIST_RELATIVE_PATH: &'static str = "Library/LaunchAgents/com.kiry.deskpet.plist";

/// The LaunchAgent file up to the program path.
pub const PLIST_HEAD: &'static str = "<?xml version=\"1.0\" encoding=\"UTF-8\"?>\n<!DOCTYPE plist PUBLIC \"-//Apple//DTD PLIST 1.0//EN\" \"http://www.apple.com/DTDs/PropertyList-1.0.dtd\">\n<plist version=\"1.0\">\n<dict>\n<key>Label</key><string>com.kiry.deskpet</string>\n<key>ProgramArguments</key>\n<array><string>";

/// The LaunchAgent file after the program path.
pub const PLIST_TAIL: &'static str = "</string></array>\n<key>RunAtLoad</key><true/>\n</dict>\n</plist>\n";

/// The LaunchAgent file that starts the program at `exe` at log-in; the path
/// is written as it is.
pub fn launch_agent_plist(exe: &str) -> (r: String)
    ensures
        r@ == PLIST_HEAD@ + exe@ + PLIST_TAIL@,
{
    let mut t = String::from_str(PLIST_HEAD);
    t.append(exe);
    t.append(PLIST_TAIL);
    t
}

} // verus!
