//! What startup does for the platform it runs on.

use vstd::prelude::*;

verus! {

/// What is to be done at startup.
#[derive(Debug, Clone, Copy, PartialEq, Eq, Structural)]
pub enum StartupAction {
    /// Register the database file type with the shell.
    RegisterExtension,
    /// Nothing.
    Nothing,
}

/// What startup does: on Windows the database file type is registered
/// unless it is registered already; elsewhere there is nothing to do.
pub fn handle_platform_startup(on_windows: bool, registered: bool) -> (action: StartupAction)
    ensures
        action == if on_windows && !registered {
            StartupAction::RegisterExtension
        } else {
            StartupAction::Nothing
        },
{
    if on_windows && !registered {
        StartupAction::RegisterExtension
    } else {
        StartupAction::Nothing
    }
}

} // verus!
