//! What the program asks of the operating system.

use crate::text::{cat, cat3};
use vstd::prelude::*;
use vstd::string::*;

verus! {

/// Whether the entry of the file manager's menu is registered. Without such a menu it is not.
pub fn check_registry_integration() -> (registered: bool)
    ensures
        !registered,
{
    false
}

/// Registers the entry of the file manager's menu, or takes it out. Without such a menu there is
/// nothing to do.
pub fn set_registry_integration(_integrate: bool) -> (r: Result<(), String>)
    ensures
        r == Ok::<(), String>(()),
{
    Ok(())
}

/// Whether the program runs with the rights of an administrator. Without such a notion it does
/// not.
pub fn is_admin() -> (admin: bool)
    ensures
        !admin,
{
    false
}

/// Whether a process is elevated, by the number that its token gives; one whose token cannot be
/// read is not.
pub fn is_elevated(elevation: Option<i32>) -> (r: bool)
    ensures
        r == (elevation is Some && elevation->0 != 0),
{
    match elevation {
        Some(n) => n != 0,
        None => false,
    }
}

/// Whether the menu entry is registered: for a folder or for the background of one.
pub fn is_registered(folder: bool, background: bool) -> (r: bool)
    ensures
        r == (folder || background),
{
    folder || background
}

/// The keys of the menu entry: for a folder and for the background of one.
pub fn menu_keys() -> (keys: Vec<String>)
    ensures
        keys@.len() == 2,
        keys@[0]@ == folder_key(),
        keys@[1]@ == background_key(),
{
    vec![
        "Software\\Classes\\Directory\\shell\\RemoveEmptyDirs".to_owned(),
        "Software\\Classes\\Directory\\Background\\shell\\RemoveEmptyDirs".to_owned(),
    ]
}

/// The key of the menu entry for a folder.
pub open spec fn folder_key() -> Seq<char> {
    "Software\\Classes\\Directory\\shell\\RemoveEmptyDirs"@
}

/// The key of the menu entry for the background of a folder.
pub open spec fn background_key() -> Seq<char> {
    "Software\\Classes\\Directory\\Background\\shell\\RemoveEmptyDirs"@
}

/// A value of the registry.
pub struct RegistryValue {
    pub key: String,
    /// The name of the value; none for the value of the key itself.
    pub name: String,
    pub text: String,
}

impl RegistryValue {
    /// Whether this is the value `text` with the name `name` under `key`.
    pub open spec fn is(self, key: Seq<char>, name: Seq<char>, text: Seq<char>) -> bool {
        self.key@ == key && self.name@ == name && self.text@ == text
    }
}

/// The command of a menu entry: the program and what stands for the folder, both in quotes.
pub open spec fn menu_command(exe: Seq<char>, folder: Seq<char>) -> Seq<char> {
    "\""@ + exe + "\" \""@ + folder + "\""@
}

fn make_menu_command(exe: &str, folder: &str) -> (command: String)
    ensures
        command@ == menu_command(exe@, folder@),
{
    let start = cat3("\"", exe, "\" \"");
    cat3(start.as_str(), folder, "\"")
}

/// Adds the values of the menu entry under one key.
fn add_entry(values: &mut Vec<RegistryValue>, key: &str, exe: &str, folder: &str)
    ensures
        final(values)@.len() == old(values)@.len() + 3,
        final(values)@.take(old(values)@.len() as int) == old(values)@,
        ({
            let n = old(values)@.len() as int;
            &&& final(values)@[n].is(key@, ""@, "Remove empty folders here"@)
            &&& final(values)@[n + 1].is(key@, "Icon"@, exe@)
            &&& final(values)@[n + 2].is(
                key@ + "\\command"@,
                ""@,
                menu_command(exe@, folder@),
            )
        }),
{
    let ghost before = values@;
    values.push(
        RegistryValue {
            key: key.to_owned(),
            name: "".to_owned(),
            text: "Remove empty folders here".to_owned(),
        },
    );
    values.push(
        RegistryValue { key: key.to_owned(), name: "Icon".to_owned(), text: exe.to_owned() },
    );
    values.push(
        RegistryValue {
            key: cat(key, "\\command"),
            name: "".to_owned(),
            text: make_menu_command(exe, folder),
        },
    );
    assert(values@.take(before.len() as int) =~= before);
}

/// The values that register the menu entry, in the order in which they are set: its text, its
/// icon and its command, for a folder and then for the background of one.
pub fn registry_values(exe: &str) -> (values: Vec<RegistryValue>)
    ensures
        values@.len() == 6,
        values@[0].is(folder_key(), ""@, "Remove empty folders here"@),
        values@[1].is(folder_key(), "Icon"@, exe@),
        values@[2].is(folder_key() + "\\command"@, ""@, menu_command(exe@, "%1"@)),
        values@[3].is(background_key(), ""@, "Remove empty folders here"@),
        values@[4].is(background_key(), "Icon"@, exe@),
        values@[5].is(background_key() + "\\command"@, ""@, menu_command(exe@, "%V"@)),
{
    let keys = menu_keys();
    let mut values: Vec<RegistryValue> = Vec::new();
    add_entry(&mut values, keys[0].as_str(), exe, "%1");
    let ghost first = values@;
    add_entry(&mut values, keys[1].as_str(), exe, "%V");
    proof {
        assert forall|i: int| 0 <= i < 3 implies values@[i] == #[trigger] first[i] by {
            assert(values@.take(3)[i] == first[i]);
        }
        assert(first[0] == values@[0] && first[1] == values@[1] && first[2] == values@[2]);
    }
    values
}

/// The report that the program's own path is not known.
pub fn exe_error(error: &str) -> (s: String)
    ensures
        s@ == "Failed to resolve current executable path: "@ + error@,
{
    cat("Failed to resolve current executable path: ", error)
}

} // verus!
