//! macOS-style three-finger drag through linux-3-finger-drag: what is still
//! missing before its user service can work.
use vstd::prelude::*;
use crate::text::{chars_of, string_from};

verus! {

/// The user service of linux-3-finger-drag.
pub const UNIT: &'static str = "three-finger-drag.service";
/// Where linux-3-finger-drag is published.
pub const PROJECT_URL: &'static str = "https://github.com/lmr97/linux-3-finger-drag";

/// Not installed.
pub const NOT_INSTALLED: &'static str = "linux-3-finger-drag is not installed (no three-finger-drag.service)";
/// Touchpads are unreadable.
pub const NO_INPUT: &'static str = "this session cannot read touchpads in /dev/input (join the `input` group, then log out and back in)";
/// `/dev/uinput` is not writable.
pub const NO_UINPUT: &'static str = "this session cannot write /dev/uinput (udev rule 60-uinput.rules and the uinput module)";

/// The missing prerequisites, in the order to fix them.
pub open spec fn missing_list(unit_installed: bool, input_readable: bool, uinput_writable: bool) -> Seq<Seq<char>> {
    (if unit_installed { Seq::empty() } else { seq![NOT_INSTALLED@] })
        + (if input_readable { Seq::empty() } else { seq![NO_INPUT@] })
        + (if uinput_writable { Seq::empty() } else { seq![NO_UINPUT@] })
}

/// What stops the drag service from working, in the order to fix it.
pub fn missing_prerequisites(unit_installed: bool, input_readable: bool, uinput_writable: bool) -> (r: Vec<&'static str>)
    ensures
        r@.map_values(|s: &str| s@) == missing_list(unit_installed, input_readable, uinput_writable),
{
    let mut missing: Vec<&'static str> = Vec::new();
    if !unit_installed {
        missing.push(NOT_INSTALLED);
    }
    if !input_readable {
        missing.push(NO_INPUT);
    }
    if !uinput_writable {
        missing.push(NO_UINPUT);
    }
    assert(missing@.map_values(|s: &str| s@) =~= missing_list(unit_installed, input_readable, uinput_writable));
    missing
}

/// Shell commands that install linux-3-finger-drag.
pub const INSTALL_COMMANDS: &'static str = "git clone https://github.com/lmr97/linux-3-finger-drag\ncd linux-3-finger-drag && sudo ./install.sh\nreboot";

/// The missing prerequisites as an indented list, one per line.
pub open spec fn bullet_list(missing: Seq<Seq<char>>) -> Seq<char>
    decreases missing.len(),
{
    if missing.len() == 0 {
        Seq::empty()
    } else {
        bullet_list(missing.drop_last()) + "\n  - "@ + missing.last()
    }
}

/// The message that refuses switching the drag on.
pub open spec fn not_ready(missing: Seq<Seq<char>>) -> Seq<char> {
    "three-finger drag is not ready:"@ + bullet_list(missing)
        + "\n\nInstall linux-3-finger-drag once (needs sudo):\n\n    git clone "@ + PROJECT_URL@
        + "\n    cd linux-3-finger-drag && sudo ./install.sh\n\nthen reboot and run `cosmic-macos-setup apply --three-finger-drag` again."@
}

fn push_str(out: &mut Vec<char>, s: &str)
    ensures
        final(out)@ == old(out)@ + s@,
{
    let v = chars_of(s);
    let ghost start = out@;
    let mut i: usize = 0;
    while i < v.len()
        invariant
            i <= v@.len(),
            out@ == start + v@.take(i as int),
        decreases v@.len() - i,
    {
        out.push(v[i]);
        assert(out@ =~= start + v@.take(i + 1));
        i = i + 1;
    }
    assert(v@.take(i as int) =~= v@);
}

/// Fail early, before anything is written, when enabling cannot work:
/// with every missing prerequisite listed and how to install the project.
pub fn check_can_enable(missing: &[&str]) -> (r: Result<(), String>)
    ensures
        match r {
            Ok(()) => missing@.len() == 0,
            Err(e) => missing@.len() > 0 && e@ == not_ready(missing@.map_values(|s: &str| s@)),
        },
{
    if missing.len() == 0 {
        return Ok(());
    }
    let ghost ms = missing@.map_values(|s: &str| s@);
    let mut out: Vec<char> = Vec::new();
    push_str(&mut out, "three-finger drag is not ready:");
    let ghost head = out@;
    let mut i: usize = 0;
    assert(ms.take(0) =~= Seq::<Seq<char>>::empty());
    while i < missing.len()
        invariant
            i <= missing@.len(),
            ms == missing@.map_values(|s: &str| s@),
            out@ == head + bullet_list(ms.take(i as int)),
        decreases missing@.len() - i,
    {
        assert(ms.take(i + 1).drop_last() =~= ms.take(i as int));
        assert(ms.take(i + 1).last() == missing@[i as int]@);
        push_str(&mut out, "\n  - ");
        push_str(&mut out, missing[i]);
        assert(out@ =~= head + bullet_list(ms.take(i + 1)));
        i = i + 1;
    }
    assert(ms.take(i as int) =~= ms);
    push_str(&mut out, "\n\nInstall linux-3-finger-drag once (needs sudo):\n\n    git clone ");
    push_str(&mut out, PROJECT_URL);
    push_str(
        &mut out,
        "\n    cd linux-3-finger-drag && sudo ./install.sh\n\nthen reboot and run `cosmic-macos-setup apply --three-finger-drag` again.",
    );
    assert(out@ =~= not_ready(ms));
    Err(string_from(&out))
}

/// What switching the service on or off asks of `systemctl`.
#[derive(Debug, Clone, Copy, PartialEq, Eq, Structural)]
pub enum UnitAction {
    EnableNow,
    DisableNow,
    Nothing,
}

/// Switching on enables and starts the unit; switching off stops and
/// disables it when it is installed, and does nothing otherwise.
pub fn set_enabled(enable: bool, installed: bool) -> (r: UnitAction)
    ensures
        r == (if enable {
            UnitAction::EnableNow
        } else if installed {
            UnitAction::DisableNow
        } else {
            UnitAction::Nothing
        }),
{
    if enable {
        UnitAction::EnableNow
    } else if installed {
        UnitAction::DisableNow
    } else {
        UnitAction::Nothing
    }
}

} // verus!
