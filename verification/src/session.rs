//! Session and power actions shared by the applets.
use vstd::prelude::*;

verus! {

/// What the power entries of the menu do.
#[derive(Debug, Clone, Copy, PartialEq, Eq, Structural)]
pub enum PowerAction {
    Sleep,
    Restart,
    ShutDown,
    Lock,
    LogOut,
}

/// The destructive actions, which `cosmic-osd` confirms first.
pub open spec fn destructive(a: PowerAction) -> bool {
    a == PowerAction::Restart || a == PowerAction::ShutDown || a == PowerAction::LogOut
}

impl PowerAction {
    /// Argument understood by `cosmic-osd` for its confirmation dialog, if any.
    pub fn osd_confirmation_arg(self) -> (r: Option<&'static str>)
        ensures
            r is Some <==> destructive(self),
            self == PowerAction::Restart ==> r == Some("restart"),
            self == PowerAction::ShutDown ==> r == Some("shutdown"),
            self == PowerAction::LogOut ==> r == Some("log-out"),
    {
        match self {
            PowerAction::Restart => Some("restart"),
            PowerAction::ShutDown => Some("shutdown"),
            PowerAction::LogOut => Some("log-out"),
            PowerAction::Sleep | PowerAction::Lock => None,
        }
    }

    /// Short, untranslated verb used in logs.
    pub fn verb(self) -> (r: &'static str)
        ensures
            r == (match self {
                PowerAction::Sleep => "suspend",
                PowerAction::Restart => "restart",
                PowerAction::ShutDown => "shut down",
                PowerAction::Lock => "lock the screen",
                PowerAction::LogOut => "log out",
            }),
    {
        match self {
            PowerAction::Sleep => "suspend",
            PowerAction::Restart => "restart",
            PowerAction::ShutDown => "shut down",
            PowerAction::Lock => "lock the screen",
            PowerAction::LogOut => "log out",
        }
    }

    /// How the menu carries the action out: `Some(arg)` runs `cosmic-osd
    /// arg` to ask first (when confirmation is on, the dialog is installed and
    /// the action is destructive); `None` performs it at once.
    pub fn confirmation(self, confirm: bool, has_osd: bool) -> (r: Option<&'static str>)
        ensures
            r is Some <==> confirm && has_osd && destructive(self),
            r is Some ==> r == self.osd_confirmation_arg_spec(),
    {
        if confirm && has_osd {
            self.osd_confirmation_arg()
        } else {
            None
        }
    }

    /// The `cosmic-osd` argument of a destructive action.
    pub open spec fn osd_confirmation_arg_spec(self) -> Option<&'static str> {
        match self {
            PowerAction::Restart => Some("restart"),
            PowerAction::ShutDown => Some("shutdown"),
            PowerAction::LogOut => Some("log-out"),
            _ => None,
        }
    }
}

} // verus!
