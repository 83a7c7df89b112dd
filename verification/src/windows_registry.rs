//! What is written to the registry to make the shell open database files
//! with this program: the keys and their values.

use vstd::prelude::*;

verus! {

/// The program id under which the file type is registered.
pub const PROG_ID: &'static str = "Linkfield.redb";

/// The name of the file type as the shell shows it.
pub const FRIENDLY_NAME: &'static str = "Linkfield Database File";

/// The key of the file extension.
pub const EXTENSION_KEY: &'static str = "Software\\Classes\\.redb";

/// The key under which classes are registered for the current user.
pub const CLASSES_KEY: &'static str = "Software\\Classes\\";

/// The subkey of the command that opens a file.
pub const OPEN_COMMAND_SUBKEY: &'static str = "\\shell\\open\\command";

/// The subkey of the icon of the file type.
pub const DEFAULT_ICON_SUBKEY: &'static str = "\\DefaultIcon";

/// The command that opens a file with the program at `exe`: the program's
/// path and the file's placeholder, each in quotes.
pub open spec fn open_command(exe: Seq<char>) -> Seq<char> {
    "\""@ + exe + "\" \"%1\""@
}

/// The icon of the file type: the first icon of the program at `exe`.
pub open spec fn default_icon(exe: Seq<char>) -> Seq<char> {
    "\""@ + exe + "\",0"@
}

/// The keys and values that register the file type for the program at
/// `exe`: the extension with the program id, the program id with the
/// friendly name, the command that opens a file, and the icon.
pub open spec fn association_values(exe: Seq<char>) -> Seq<(Seq<char>, Seq<char>)> {
    seq![
        (EXTENSION_KEY@, PROG_ID@),
        (CLASSES_KEY@ + PROG_ID@, FRIENDLY_NAME@),
        (CLASSES_KEY@ + PROG_ID@ + OPEN_COMMAND_SUBKEY@, open_command(exe)),
        (CLASSES_KEY@ + PROG_ID@ + DEFAULT_ICON_SUBKEY@, default_icon(exe)),
    ]
}

/// The key of the program id, with a subkey.
fn class_key(subkey: &str) -> (key: String)
    ensures
        key@ == CLASSES_KEY@ + PROG_ID@ + subkey@,
{
    let mut key: String = CLASSES_KEY.to_owned();
    key.append(PROG_ID);
    key.append(subkey);
    key
}

/// The path of the program in quotes, followed by `tail`.
fn quoted(exe: &str, tail: &str) -> (text: String)
    ensures
        text@ == "\""@ + exe@ + tail@,
{
    let mut text: String = "\"".to_owned();
    text.append(exe);
    text.append(tail);
    text
}

/// The keys and values that register the file type for the program at
/// `exe_path`, in the order in which they are written.
pub fn association_entries(exe_path: &str) -> (entries: Vec<(String, String)>)
    ensures
        entries.deep_view() == association_values(exe_path@),
{
    let mut entries: Vec<(String, String)> = Vec::new();
    entries.push((EXTENSION_KEY.to_owned(), PROG_ID.to_owned()));
    let plain = class_key("");
    assert(plain@ =~= CLASSES_KEY@ + PROG_ID@) by {
        reveal_strlit("");
    }
    entries.push((plain, FRIENDLY_NAME.to_owned()));
    entries.push((class_key(OPEN_COMMAND_SUBKEY), quoted(exe_path, "\" \"%1\"")));
    entries.push((class_key(DEFAULT_ICON_SUBKEY), quoted(exe_path, "\",0")));
    assert(entries.deep_view() =~= association_values(exe_path@));
    entries
}

/// Whether the value found under the extension's key says that the file
/// type is registered: it is the program id.
pub fn is_registered_value(value: &str) -> (registered: bool)
    ensures
        registered == (value@ == PROG_ID@),
{
    value.to_owned() == PROG_ID.to_owned()
}

} // verus!
