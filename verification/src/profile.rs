//! Planning the whole profile: which session services change, which of this
//! project's applets are missing, whether the profile is applied, and which
//! backup a restore uses.
use vstd::prelude::*;
use crate::panel_profile::{LEFT, OWN_APPLETS};
use crate::three_finger_drag::not_ready;

verus! {

/// A session tweak that lives in a user service rather than in cosmic-config.
#[derive(Debug, Clone, Copy, PartialEq, Eq, Structural)]
pub enum Service {
    WindowControlsLeft,
    ThreeFingerDrag,
}

/// The stable name of a service, used in backups.
pub open spec fn service_name(s: Service) -> Seq<char> {
    match s {
        Service::WindowControlsLeft => "window-controls-left"@,
        Service::ThreeFingerDrag => "three-finger-drag"@,
    }
}

/// The service named `name`.
pub open spec fn service_named(name: Seq<char>) -> Option<Service> {
    if name == service_name(Service::WindowControlsLeft) {
        Some(Service::WindowControlsLeft)
    } else if name == service_name(Service::ThreeFingerDrag) {
        Some(Service::ThreeFingerDrag)
    } else {
        None
    }
}

/// The services a profile run may switch: `None` leaves a service as it is.
#[derive(Debug, Clone, Copy, PartialEq, Eq, Structural)]
pub struct ServiceRequests {
    /// Window controls on the left for GTK/Chromium apps.
    pub window_controls_left: Option<bool>,
    /// Three-finger drag through linux-3-finger-drag.
    pub three_finger_drag: Option<bool>,
}

/// What `requests` asks of service `s`.
pub open spec fn requested(requests: ServiceRequests, s: Service) -> Option<bool> {
    match s {
        Service::WindowControlsLeft => requests.window_controls_left,
        Service::ThreeFingerDrag => requests.three_finger_drag,
    }
}

impl Service {
    /// Every service, in a stable order.
    pub const ALL: [Service; 2] = [Service::WindowControlsLeft, Service::ThreeFingerDrag];

    /// Stable name used in backups.
    pub fn name(self) -> (r: &'static str)
        ensures
            r@ == service_name(self),
    {
        match self {
            Service::WindowControlsLeft => "window-controls-left",
            Service::ThreeFingerDrag => "three-finger-drag",
        }
    }

    /// The service with the stable name `name`.
    pub fn from_name(name: &str) -> (r: Option<Service>)
        ensures
            r == service_named(name@),
    {
        if crate::text::str_eq(name, Service::WindowControlsLeft.name()) {
            Some(Service::WindowControlsLeft)
        } else if crate::text::str_eq(name, Service::ThreeFingerDrag.name()) {
            Some(Service::ThreeFingerDrag)
        } else {
            None
        }
    }

    fn requested(self, requests: &ServiceRequests) -> (r: Option<bool>)
        ensures
            r == requested(*requests, self),
    {
        match self {
            Service::WindowControlsLeft => requests.window_controls_left,
            Service::ThreeFingerDrag => requests.three_finger_drag,
        }
    }
}

/// Every service's name leads back to it.
pub proof fn law_service_names_round_trip(s: Service)
    ensures
        service_named(service_name(s)) == Some(s),
{
    reveal_strlit("window-controls-left");
    reveal_strlit("three-finger-drag");
    assert(service_name(Service::WindowControlsLeft).len() != service_name(Service::ThreeFingerDrag).len());
}

/// `on` or `off`.
pub fn on_off(enabled: bool) -> (r: &'static str)
    ensures
        r == (if enabled {
            "on"
        } else {
            "off"
        }),
{
    if enabled {
        "on"
    } else {
        "off"
    }
}

/// The change for one service: its requested state, when that differs from
/// its current state.
pub open spec fn change_for(requests: ServiceRequests, s: Service, current: bool) -> Seq<(Service, bool)> {
    match requested(requests, s) {
        Some(want) => if current != want {
            seq![(s, want)]
        } else {
            Seq::empty()
        },
        None => Seq::empty(),
    }
}

/// Services whose requested state differs from `current`, in a stable order.
/// `current` is asked once about each requested service.
pub fn service_changes<F: Fn(Service) -> bool>(requests: &ServiceRequests, current: F) -> (r: Vec<(Service, bool)>)
    requires
        forall|s: Service| current.requires((s,)),
    ensures
        exists|c0: bool, c1: bool| {
            &&& (requested(*requests, Service::WindowControlsLeft) is Some ==> current.ensures((Service::WindowControlsLeft,), c0))
            &&& (requested(*requests, Service::ThreeFingerDrag) is Some ==> current.ensures((Service::ThreeFingerDrag,), c1))
            &&& r@ == change_for(*requests, Service::WindowControlsLeft, c0) + change_for(*requests, Service::ThreeFingerDrag, c1)
        },
{
    let mut out: Vec<(Service, bool)> = Vec::new();
    let mut c0 = false;
    let mut c1 = false;
    if let Some(want) = Service::WindowControlsLeft.requested(requests) {
        c0 = current(Service::WindowControlsLeft);
        if c0 != want {
            out.push((Service::WindowControlsLeft, want));
        }
    }
    let ghost first = out@;
    assert(first == change_for(*requests, Service::WindowControlsLeft, c0));
    if let Some(want) = Service::ThreeFingerDrag.requested(requests) {
        c1 = current(Service::ThreeFingerDrag);
        if c1 != want {
            out.push((Service::ThreeFingerDrag, want));
        }
    }
    assert(out@ =~= change_for(*requests, Service::WindowControlsLeft, c0) + change_for(*requests, Service::ThreeFingerDrag, c1));
    out
}

/// This project's applets, in order.
pub open spec fn own_applets() -> Seq<Seq<char>> {
    seq![
        crate::config::MENU_APP_ID@,
        crate::config::ACTIVE_APP_APP_ID@,
        crate::config::CONTROL_CENTER_APP_ID@,
    ]
}

/// The applets for which `installed` answered `false`, in order.
pub open spec fn not_installed(ids: Seq<Seq<char>>, answers: Seq<bool>) -> Seq<Seq<char>>
    decreases ids.len(),
{
    if ids.len() == 0 {
        Seq::empty()
    } else {
        let rest = not_installed(ids.drop_last(), answers);
        if answers[ids.len() - 1] {
            rest
        } else {
            rest.push(ids.last())
        }
    }
}

proof fn lemma_not_installed_prefix(ids: Seq<Seq<char>>, a: Seq<bool>, b: Seq<bool>)
    requires
        ids.len() <= a.len(),
        ids.len() <= b.len(),
        forall|k: int| 0 <= k < ids.len() ==> a[k] == b[k],
    ensures
        not_installed(ids, a) == not_installed(ids, b),
    decreases ids.len(),
{
    if ids.len() > 0 {
        lemma_not_installed_prefix(ids.drop_last(), a, b);
    }
}

/// Our applets that have no desktop entry, so the panel cannot load them.
/// `installed` is asked once about each, in order.
pub fn missing_applets<F: Fn(&str) -> bool>(installed: F) -> (r: Vec<&'static str>)
    requires
        forall|id: &str| installed.requires((id,)),
    ensures
        exists|asked: Seq<&str>, answers: Seq<bool>| #![trigger asked.len(), answers.len()] {
            &&& asked.len() == 3
            &&& answers.len() == 3
            &&& forall|k: int| 0 <= k < 3 ==> (#[trigger] asked[k])@ == own_applets()[k] && installed.ensures((asked[k],), answers[k])
            &&& r@.map_values(|s: &str| s@) == not_installed(own_applets(), answers)
        },
{
    let ids: Vec<&'static str> = vec![OWN_APPLETS[0], OWN_APPLETS[1], OWN_APPLETS[2]];
    assert(ids@.map_values(|s: &str| s@) =~= own_applets());
    let ghost iv = ids@.map_values(|s: &str| s@);
    let mut out: Vec<&'static str> = Vec::new();
    let ghost mut answers: Seq<bool> = Seq::empty();
    let mut i: usize = 0;
    while i < 3
        invariant
            ids@.len() == 3,
            iv == ids@.map_values(|s: &str| s@),
            iv == own_applets(),
            i <= 3,
            answers.len() == i,
            forall|id: &str| installed.requires((id,)),
            forall|k: int| 0 <= k < i ==> installed.ensures((#[trigger] ids@[k],), answers[k]),
            out@.map_values(|s: &str| s@) == not_installed(iv.take(i as int), answers),
        decreases 3 - i,
    {
        let id = ids[i];
        let answer = installed(id);
        if !answer {
            out.push(id);
        }
        let ghost before = answers;
        proof {
            answers = answers.push(answer);
            assert forall|k: int| 0 <= k < i + 1 implies installed.ensures((#[trigger] ids@[k],), answers[k]) by {
                if k < i {
                    assert(answers[k] == before[k]);
                }
            }
            lemma_not_installed_prefix(iv.take(i as int), before, answers);
            let t = iv.take(i + 1);
            assert(t.drop_last() =~= iv.take(i as int));
            assert(t.last() == id@);
        }
        assert(out@.map_values(|s: &str| s@) =~= not_installed(iv.take(i + 1), answers));
        i = i + 1;
    }
    assert(iv.take(3) =~= iv);
    let ghost asked = ids@;
    assert forall|k: int| 0 <= k < 3 implies (#[trigger] asked[k])@ == own_applets()[k] && installed.ensures((asked[k],), answers[k]) by {
        assert(iv[k] == ids@[k]@);
    }
    out
}

/// The left side of this profile, as texts.
pub open spec fn left_ids() -> Seq<Seq<char>> {
    seq![crate::config::MENU_APP_ID@, crate::config::ACTIVE_APP_APP_ID@]
}

/// `true` when the panel's left side holds exactly this project's applets.
pub fn profile_applied(left: &[String]) -> (r: bool)
    ensures
        r == (left@.map_values(|s: String| s@) == left_ids()),
{
    let ghost lv = left@.map_values(|s: String| s@);
    if left.len() != 2 {
        assert(lv.len() != left_ids().len());
        return false;
    }
    let a = crate::text::str_eq(left[0].as_str(), LEFT[0]);
    let b = crate::text::str_eq(left[1].as_str(), LEFT[1]);
    if a && b {
        assert(lv =~= left_ids());
        true
    } else {
        proof {
            if lv == left_ids() {
                assert(lv[0] == left_ids()[0]);
                assert(lv[1] == left_ids()[1]);
            }
        }
        false
    }
}

/// How running a plan ended.
#[derive(Debug, Clone, Copy, PartialEq, Eq, Structural)]
pub enum ExecOutcome {
    /// The plan was empty: nothing was backed up or changed.
    NothingToDo,
    /// Backed up, then every change applied.
    Applied,
    /// The backup failed; nothing was changed.
    BackupFailed,
    /// A change failed and the backup was restored.
    ApplyFailedRestored,
    /// A change failed and restoring the backup failed too.
    RollbackFailed,
}

/// What the runner of a plan reports back.
#[derive(Debug, Clone, Copy, PartialEq, Eq, Structural)]
pub enum ExecEvent {
    /// Running starts; whether the plan has nothing to do.
    Start { plan_empty: bool },
    /// The backup was made (`true`) or failed.
    BackupDone(bool),
    /// Every change was applied (`true`), or one failed.
    ApplyDone(bool),
    /// The backup was restored (`true`), or restoring it failed.
    RollbackDone(bool),
}

/// What the runner of a plan does next.
#[derive(Debug, Clone, Copy, PartialEq, Eq, Structural)]
pub enum ExecAction {
    /// Back up the configuration and the services.
    Backup,
    /// Apply the plan's changes, then its services.
    Apply,
    /// Restore the backup just made.
    Rollback,
    /// Stop, with this outcome.
    Done(ExecOutcome),
}

/// The step after `event`: back up first, apply only after a backup, and
/// roll back when applying failed.
pub open spec fn exec_next(event: ExecEvent) -> ExecAction {
    match event {
        ExecEvent::Start { plan_empty } => if plan_empty {
            ExecAction::Done(ExecOutcome::NothingToDo)
        } else {
            ExecAction::Backup
        },
        ExecEvent::BackupDone(ok) => if ok {
            ExecAction::Apply
        } else {
            ExecAction::Done(ExecOutcome::BackupFailed)
        },
        ExecEvent::ApplyDone(ok) => if ok {
            ExecAction::Done(ExecOutcome::Applied)
        } else {
            ExecAction::Rollback
        },
        ExecEvent::RollbackDone(ok) => if ok {
            ExecAction::Done(ExecOutcome::ApplyFailedRestored)
        } else {
            ExecAction::Done(ExecOutcome::RollbackFailed)
        },
    }
}

/// Decide the next step of running a plan (back up, then apply, rolling
/// everything back on failure) from what the last step reported.
pub fn execute_step(event: ExecEvent) -> (r: ExecAction)
    ensures
        r == exec_next(event),
{
    match event {
        ExecEvent::Start { plan_empty } => if plan_empty {
            ExecAction::Done(ExecOutcome::NothingToDo)
        } else {
            ExecAction::Backup
        },
        ExecEvent::BackupDone(ok) => if ok {
            ExecAction::Apply
        } else {
            ExecAction::Done(ExecOutcome::BackupFailed)
        },
        ExecEvent::ApplyDone(ok) => if ok {
            ExecAction::Done(ExecOutcome::Applied)
        } else {
            ExecAction::Rollback
        },
        ExecEvent::RollbackDone(ok) => if ok {
            ExecAction::Done(ExecOutcome::ApplyFailedRestored)
        } else {
            ExecAction::Done(ExecOutcome::RollbackFailed)
        },
    }
}

/// The outcome of running a plan whose steps report `backup_ok`,
/// `apply_ok` and `rollback_ok` (each asked only when its step runs).
pub open spec fn exec_outcome(plan_empty: bool, backup_ok: bool, apply_ok: bool, rollback_ok: bool) -> ExecOutcome {
    if plan_empty {
        ExecOutcome::NothingToDo
    } else if !backup_ok {
        ExecOutcome::BackupFailed
    } else if apply_ok {
        ExecOutcome::Applied
    } else if rollback_ok {
        ExecOutcome::ApplyFailedRestored
    } else {
        ExecOutcome::RollbackFailed
    }
}

/// Running a plan step by step: nothing is changed before a backup exists,
/// a failed apply is always followed by a rollback, and the run ends after
/// at most four steps with the outcome the step results give.
pub proof fn law_execute_runs(plan_empty: bool, backup_ok: bool, apply_ok: bool, rollback_ok: bool)
    ensures
        !(exec_next(ExecEvent::Start { plan_empty }) is Apply),
        exec_next(ExecEvent::BackupDone(backup_ok)) is Apply <==> backup_ok,
        exec_next(ExecEvent::ApplyDone(apply_ok)) is Rollback <==> !apply_ok,
        ({
            let first = exec_next(ExecEvent::Start { plan_empty });
            let second = exec_next(ExecEvent::BackupDone(backup_ok));
            let third = exec_next(ExecEvent::ApplyDone(apply_ok));
            let fourth = exec_next(ExecEvent::RollbackDone(rollback_ok));
            let end = if first is Done {
                first
            } else if second is Done {
                second
            } else if third is Done {
                third
            } else {
                fourth
            };
            end == ExecAction::Done(exec_outcome(plan_empty, backup_ok, apply_ok, rollback_ok))
        }),
{
}

/// Which backup a restore uses.
#[derive(Debug, PartialEq, Eq)]
pub enum RestoreTarget {
    Latest,
    First,
    Dir(String),
}

/// What a restore changed.
#[derive(Debug)]
pub struct Restored {
    pub backup: String,
    pub keys: usize,
    pub services: Vec<(Service, bool)>,
}

/// The backup directory a restore uses, given the complete backups oldest
/// first; `Err` says no backup exists.
pub fn restore(target: RestoreTarget, backups: Vec<String>) -> (r: Result<String, String>)
    ensures
        match target {
            RestoreTarget::Dir(d) => r == Ok::<String, String>(d),
            RestoreTarget::Latest => match r {
                Ok(d) => backups@.len() > 0 && d == backups@.last(),
                Err(e) => backups@.len() == 0 && e@ == "no backups found"@,
            },
            RestoreTarget::First => match r {
                Ok(d) => backups@.len() > 0 && d == backups@[0],
                Err(e) => backups@.len() == 0 && e@ == "no backups found"@,
            },
        },
{
    let mut backups = backups;
    match target {
        RestoreTarget::Dir(d) => Ok(d),
        RestoreTarget::Latest => match backups.pop() {
            Some(d) => Ok(d),
            None => Err("no backups found".to_owned()),
        },
        RestoreTarget::First => {
            if backups.len() == 0 {
                Err("no backups found".to_owned())
            } else {
                Ok(backups.remove(0))
            }
        },
    }
}

/// The switches that put the services saved in a backup back: each saved
/// service, by name, whose current state differs; unknown names are skipped.
pub open spec fn restore_steps(saved: Seq<(Seq<char>, bool)>, current: Seq<bool>) -> Seq<(Service, bool)>
    decreases saved.len(),
{
    if saved.len() == 0 {
        Seq::empty()
    } else {
        let rest = restore_steps(saved.drop_last(), current);
        let (name, want) = saved.last();
        match service_named(name) {
            Some(s) => if current[saved.len() - 1] != want {
                rest.push((s, want))
            } else {
                rest
            },
            None => rest,
        }
    }
}

proof fn lemma_restore_steps_prefix(saved: Seq<(Seq<char>, bool)>, a: Seq<bool>, b: Seq<bool>)
    requires
        saved.len() <= a.len(),
        saved.len() <= b.len(),
        forall|k: int| 0 <= k < saved.len() ==> a[k] == b[k],
    ensures
        restore_steps(saved, a) == restore_steps(saved, b),
    decreases saved.len(),
{
    if saved.len() > 0 {
        lemma_restore_steps_prefix(saved.drop_last(), a, b);
    }
}

/// The services a restore switches, in the order they were saved: `enabled`
/// is asked about each known service once.
pub fn restore_from<F: Fn(Service) -> bool>(saved: &[(String, bool)], enabled: F) -> (r: Vec<(Service, bool)>)
    requires
        forall|s: Service| enabled.requires((s,)),
    ensures
        exists|current: Seq<bool>| #![trigger current.len()] {
            &&& current.len() == saved@.len()
            &&& forall|k: int| 0 <= k < saved@.len() ==> (#[trigger] service_named(saved@[k].0@) matches Some(s) ==> enabled.ensures((s,), current[k]))
            &&& r@ == restore_steps(saved@.map_values(|e: (String, bool)| (e.0@, e.1)), current)
        },
{
    let ghost sv = saved@.map_values(|e: (String, bool)| (e.0@, e.1));
    let mut out: Vec<(Service, bool)> = Vec::new();
    let ghost mut current: Seq<bool> = Seq::empty();
    let n = saved.len();
    let mut i: usize = 0;
    while i < n
        invariant
            n == saved@.len(),
            sv == saved@.map_values(|e: (String, bool)| (e.0@, e.1)),
            i <= n,
            current.len() == i,
            forall|s: Service| enabled.requires((s,)),
            forall|k: int| 0 <= k < i ==> (#[trigger] service_named(saved@[k].0@) matches Some(s) ==> enabled.ensures((s,), current[k])),
            out@ == restore_steps(sv.take(i as int), current),
        decreases n - i,
    {
        let entry = &saved[i];
        let mut now = false;
        if let Some(service) = Service::from_name(entry.0.as_str()) {
            now = enabled(service);
            if now != entry.1 {
                out.push((service, entry.1));
            }
        }
        let ghost before = current;
        proof {
            current = current.push(now);
            assert forall|k: int| 0 <= k < i + 1 implies (#[trigger] service_named(saved@[k].0@) matches Some(s) ==> enabled.ensures((s,), current[k])) by {
                if k < i {
                    assert(current[k] == before[k]);
                }
            }
            lemma_restore_steps_prefix(sv.take(i as int), before, current);
            let t = sv.take(i + 1);
            assert(t.drop_last() =~= sv.take(i as int));
            assert(t.last() == (entry.0@, entry.1));
        }
        assert(out@ =~= restore_steps(sv.take(i + 1), current));
        i = i + 1;
    }
    assert(sv.take(n as int) =~= sv);
    assert(current.len() == saved@.len());
    out
}

/// Is switching the three-finger drag on among `services`?
pub open spec fn wants_drag(services: Seq<(Service, bool)>) -> bool {
    exists|k: int| 0 <= k < services.len() && #[trigger] services[k] == (Service::ThreeFingerDrag, true)
}

/// Fail before anything is written when switching a service on cannot work:
/// window controls always can; the three-finger drag cannot while any of its
/// prerequisites (`drag_missing`) is missing.
pub fn check_services(services: &[(Service, bool)], drag_missing: &[&str]) -> (r: Result<(), String>)
    ensures
        match r {
            Ok(()) => !wants_drag(services@) || drag_missing@.len() == 0,
            Err(e) => wants_drag(services@) && drag_missing@.len() > 0 && e@ == not_ready(
                drag_missing@.map_values(|s: &str| s@),
            ),
        },
{
    let mut i: usize = 0;
    while i < services.len()
        invariant
            i <= services@.len(),
            forall|k: int| 0 <= k < i ==> services@[k] != (Service::ThreeFingerDrag, true),
        decreases services@.len() - i,
    {
        let (service, want) = services[i];
        if want && service == Service::ThreeFingerDrag {
            assert(services@[i as int] == (Service::ThreeFingerDrag, true));
            return crate::three_finger_drag::check_can_enable(drag_missing);
        }
        i = i + 1;
    }
    Ok(())
}

} // verus!
