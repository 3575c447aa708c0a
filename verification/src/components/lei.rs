//! The `lei` component: the status of the maildir synchronisation, and the
//! steps of one synchronisation run.

use vstd::prelude::*;

use crate::action::Action;
use crate::key::Key;

verus! {

/// Ticks that the "finished" notice stays on screen.
pub const MAX_NOTIFICATION_TICKS: usize = 8;

/// Frames of the progress spinner.
pub const MAX_SPINNER: usize = 4;

/// The `lei` query for the patches of the last month.
pub const LAST_MONTH_QUERY: &'static str = "((s:patch OR s:rfc) AND NOT s:re:) AND rt:1.month.ago..";

/// The archive that the maildir mirrors.
pub const LORE_URL: &'static str = "https://lore.kernel.org";

/// The mailing list that the maildir mirrors.
pub const MAILING_LIST: &'static str = "amd-gfx";

/// What the `lei` component is doing.
#[derive(Debug, Clone, Copy, PartialEq, Eq, Structural)]
pub enum LocalMode {
    Idle,
    Processing,
    Creating,
    Updating,
    ExitingProcessing,
}

/// A request to synchronise the maildir of `list` from `lore_url` with the
/// messages that `query` selects.
#[derive(Debug)]
pub struct MaildirJob {
    pub lore_url: String,
    pub list: String,
    pub query: String,
}

/// What `Lei::update` hands back: an action to emit and a synchronisation
/// to start.
#[derive(Debug)]
pub struct LeiUpdate {
    pub action: Option<Action>,
    pub job: Option<MaildirJob>,
}

/// The colour of the status box.
#[derive(Debug, Clone, Copy, PartialEq, Eq, Structural)]
pub enum StatusColor {
    Cyan,
    Yellow,
}

/// The text and colour of the status box.
#[derive(Debug)]
pub struct LeiStatus {
    pub text: String,
    pub color: StatusColor,
}

/// The `lei` component: its mode, the spinner frame and the ticks that the
/// "finished" notice has been shown.
pub struct Lei {
    local_mode: LocalMode,
    spinner: usize,
    notification_ticks: usize,
}

/// The state of the component: mode, spinner frame, notice ticks.
pub type LeiState = (LocalMode, nat, nat);

/// The state after `action`, and the action emitted in reply.
pub open spec fn lei_next(s: LeiState, action: Action) -> (LeiState, Option<Action>) {
    let (mode, spinner, ticks) = s;
    match action {
        Action::Tick => if mode == LocalMode::ExitingProcessing {
            if ticks + 1 >= MAX_NOTIFICATION_TICKS {
                ((mode, spinner, 0), Some(Action::LeiEnterIdle))
            } else {
                ((mode, spinner, ticks + 1), None)
            }
        } else if mode != LocalMode::Idle {
            if spinner + 1 >= MAX_SPINNER {
                ((mode, 0, ticks), None)
            } else {
                ((mode, spinner + 1, ticks), None)
            }
        } else {
            (s, None)
        },
        Action::LeiSetMode(m) => ((m, spinner, ticks), None),
        Action::LeiEnterProcessing => ((LocalMode::Processing, 0, ticks), None),
        Action::LeiExitProcessing => ((LocalMode::ExitingProcessing, spinner, 0), None),
        Action::LeiEnterIdle => ((LocalMode::Idle, spinner, ticks), None),
        _ => (s, None),
    }
}

/// `n` dots.
pub open spec fn dots(n: nat) -> Seq<char> {
    Seq::new(n, |_i: int| '.')
}

/// The text of the status box.
pub open spec fn status_text(mode: LocalMode, spinner: nat) -> Seq<char> {
    match mode {
        LocalMode::Idle => "Idle"@,
        LocalMode::Processing => "Processing"@ + dots(spinner),
        LocalMode::Creating => "Creating maildir"@ + dots(spinner),
        LocalMode::Updating => "Updating maildir"@ + dots(spinner),
        LocalMode::ExitingProcessing => "Finished processing!"@,
    }
}

/// The colour of the status box: yellow while working, cyan otherwise.
pub open spec fn status_color(mode: LocalMode) -> StatusColor {
    match mode {
        LocalMode::Processing | LocalMode::Creating | LocalMode::Updating => StatusColor::Yellow,
        LocalMode::Idle | LocalMode::ExitingProcessing => StatusColor::Cyan,
    }
}

/// The text `prefix` followed by `n` dots.
fn with_dots(prefix: &str, n: usize) -> (res: String)
    ensures
        res@ == prefix@ + dots(n as nat),
{
    let mut res = String::from_str(prefix);
    let mut k: usize = 0;
    proof {
        reveal_strlit(".");
    }
    assert(res@ =~= prefix@ + dots(0));
    while k < n
        invariant
            k <= n,
            res@ == prefix@ + dots(k as nat),
            "."@ == seq!['.'],
        decreases n - k,
    {
        res.append(".");
        assert(res@ =~= prefix@ + dots((k + 1) as nat));
        k = k + 1;
    }
    res
}

impl View for Lei {
    type V = LeiState;

    closed spec fn view(&self) -> LeiState {
        (self.local_mode, self.spinner as nat, self.notification_ticks as nat)
    }
}

/// The spinner frame and the notice ticks stay below their limits.
pub open spec fn lei_state_ok(s: LeiState) -> bool {
    s.1 < MAX_SPINNER && s.2 < MAX_NOTIFICATION_TICKS
}

impl Lei {
    /// An idle component.
    pub fn new() -> (res: Self)
        ensures
            res@ == (LocalMode::Idle, 0nat, 0nat),
            lei_state_ok(res@),
    {
        Lei { local_mode: LocalMode::Idle, spinner: 0, notification_ticks: 0 }
    }

    /// The action that a key press asks for: `r` starts a synchronisation
    /// while idle.
    pub fn handle_key_event(&self, key: Key) -> (res: Option<Action>)
        ensures
            res == if self@.0 == LocalMode::Idle && key == Key::Char('r') {
                Some(Action::LeiUpdateMaildir)
            } else {
                None
            },
    {
        match self.local_mode {
            LocalMode::Idle => match key {
                Key::Char('r') => Some(Action::LeiUpdateMaildir),
                _ => None,
            },
            _ => None,
        }
    }

    /// Handles an action: the state moves as `lei_next` says, and a request
    /// to update the maildir hands back the synchronisation to run.
    pub fn update(&mut self, action: Action) -> (res: LeiUpdate)
        requires
            lei_state_ok(old(self)@),
        ensures
            lei_state_ok(final(self)@),
            (final(self)@, res.action) == lei_next(old(self)@, action),
            match res.job {
                Some(job) => action is LeiUpdateMaildir && job.lore_url@ == LORE_URL@
                    && job.list@ == MAILING_LIST@ && job.query@ == LAST_MONTH_QUERY@,
                None => !(action is LeiUpdateMaildir),
            },
    {
        let mut reply: Option<Action> = None;
        let mut job: Option<MaildirJob> = None;
        match action {
            Action::Tick => {
                match self.local_mode {
                    LocalMode::ExitingProcessing => {
                        let ticks = self.notification_ticks + 1;
                        if ticks >= MAX_NOTIFICATION_TICKS {
                            self.notification_ticks = 0;
                            reply = Some(Action::LeiEnterIdle);
                        } else {
                            self.notification_ticks = ticks;
                        }
                    },
                    LocalMode::Idle => {},
                    _ => {
                        let spinner = self.spinner + 1;
                        if spinner >= MAX_SPINNER {
                            self.spinner = 0;
                        } else {
                            self.spinner = spinner;
                        }
                    },
                }
            },
            Action::LeiSetMode(local_mode) => self.local_mode = local_mode,
            Action::LeiUpdateMaildir => {
                job = Some(
                    MaildirJob {
                        lore_url: String::from_str(LORE_URL),
                        list: String::from_str(MAILING_LIST),
                        query: String::from_str(LAST_MONTH_QUERY),
                    },
                );
            },
            Action::LeiEnterProcessing => {
                self.spinner = 0;
                self.local_mode = LocalMode::Processing;
            },
            Action::LeiExitProcessing => {
                self.notification_ticks = 0;
                self.local_mode = LocalMode::ExitingProcessing;
            },
            Action::LeiEnterIdle => {
                self.local_mode = LocalMode::Idle;
            },
            _ => {},
        }
        LeiUpdate { action: reply, job }
    }

    /// What the status box shows: nothing while idle.
    pub fn status(&self) -> (res: Option<LeiStatus>)
        requires
            lei_state_ok(self@),
        ensures
            match res {
                Some(st) => self@.0 != LocalMode::Idle && st.text@ == status_text(self@.0, self@.1)
                    && st.color == status_color(self@.0),
                None => self@.0 == LocalMode::Idle,
            },
    {
        let (text, color) = match self.local_mode {
            LocalMode::Idle => {
                return None;
            },
            LocalMode::Processing => (with_dots("Processing", self.spinner), StatusColor::Yellow),
            LocalMode::Creating => (with_dots("Creating maildir", self.spinner), StatusColor::Yellow),
            LocalMode::Updating => (with_dots("Updating maildir", self.spinner), StatusColor::Yellow),
            LocalMode::ExitingProcessing => (
                String::from_str("Finished processing!"),
                StatusColor::Cyan,
            ),
        };
        Some(LeiStatus { text, color })
    }
}

/// Where a maildir synchronisation run stands: the last effect asked for.
#[derive(Debug, Clone, Copy, PartialEq, Eq, Structural)]
pub enum SyncStep {
    /// Nothing done yet.
    Start,
    /// Processing was announced.
    Announced,
    /// The caller was asked whether the maildir exists.
    Probed,
    /// Creation of the maildir was announced.
    CreateAnnounced,
    /// The query that creates the maildir was run.
    Created,
    /// The update was announced.
    UpdateAnnounced,
    /// The update was run.
    Updated,
    /// The end of processing was announced.
    Finished,
}

/// What the caller reports after performing an effect.
#[derive(Debug, Clone, Copy, PartialEq, Eq, Structural)]
pub enum SyncEvent {
    /// The effect was performed (a command's outcome does not change the run).
    Done,
    /// The answer to a probe: whether the maildir exists.
    Exists(bool),
}

/// An effect for the caller to perform.
#[derive(Debug)]
pub enum SyncEffect {
    /// Emit an action.
    Send(Action),
    /// Find out whether the maildir exists, and report `SyncEvent::Exists`.
    ProbeMaildir,
    /// Run `lei` with these arguments.
    RunLei(Vec<String>),
    /// The run is over.
    Stop,
}

/// The step after `step` when the caller reports `event`.
pub open spec fn next_step(step: SyncStep, event: SyncEvent) -> SyncStep {
    match step {
        SyncStep::Start => SyncStep::Announced,
        SyncStep::Announced => SyncStep::Probed,
        SyncStep::Probed => match event {
            SyncEvent::Exists(false) => SyncStep::CreateAnnounced,
            SyncEvent::Exists(true) => SyncStep::UpdateAnnounced,
            SyncEvent::Done => SyncStep::Probed,
        },
        SyncStep::CreateAnnounced => SyncStep::Created,
        SyncStep::Created => SyncStep::UpdateAnnounced,
        SyncStep::UpdateAnnounced => SyncStep::Updated,
        SyncStep::Updated => SyncStep::Finished,
        SyncStep::Finished => SyncStep::Finished,
    }
}

/// The arguments of the `lei q` run that creates the maildir `maildir`.
pub open spec fn query_args(lore_url: Seq<char>, list: Seq<char>, query: Seq<char>, maildir: Seq<char>) -> Seq<Seq<char>> {
    seq![
        "q"@,
        "--include="@ + lore_url + "/"@ + list + "/"@,
        "--output="@ + maildir,
        "--threads"@,
        "--dedupe=mid"@,
        query,
    ]
}

/// The arguments of the `lei up` run that updates the maildir `maildir`.
pub open spec fn update_args(maildir: Seq<char>) -> Seq<Seq<char>> {
    seq!["up"@, maildir]
}

pub open spec fn args_view(v: Seq<String>) -> Seq<Seq<char>> {
    v.map_values(|a: String| a@)
}

/// The effect asked for on entering the step `next_step(step, event)`.
pub open spec fn effect_ok(
    step: SyncStep,
    event: SyncEvent,
    job: MaildirJob,
    maildir: Seq<char>,
    effect: SyncEffect,
) -> bool {
    match next_step(step, event) {
        SyncStep::Announced => effect == SyncEffect::Send(Action::LeiEnterProcessing),
        SyncStep::Probed => effect is ProbeMaildir,
        SyncStep::CreateAnnounced => effect == SyncEffect::Send(Action::LeiSetMode(LocalMode::Creating)),
        SyncStep::Created => effect matches SyncEffect::RunLei(args) && args_view(args@)
            == query_args(job.lore_url@, job.list@, job.query@, maildir),
        SyncStep::UpdateAnnounced => effect == SyncEffect::Send(Action::LeiSetMode(LocalMode::Updating)),
        SyncStep::Updated => effect matches SyncEffect::RunLei(args) && args_view(args@)
            == update_args(maildir),
        SyncStep::Finished => if step == SyncStep::Finished {
            effect is Stop
        } else {
            effect == SyncEffect::Send(Action::LeiExitProcessing)
        },
        SyncStep::Start => false,
    }
}

/// The text `a` followed by `b`.
fn joined(a: &str, b: &str) -> (res: String)
    ensures
        res@ == a@ + b@,
{
    let mut res = String::from_str(a);
    res.append(b);
    res
}

/// One step of a maildir synchronisation run of `job` into `maildir`: the
/// step reached and the effect for the caller to perform. A run announces
/// processing, probes the maildir, creates it with `lei q` if it is
/// missing, updates it with `lei up`, and announces the end.
pub fn sync_step(step: SyncStep, event: SyncEvent, job: &MaildirJob, maildir: &String) -> (res: (
    SyncStep,
    SyncEffect,
))
    ensures
        res.0 == next_step(step, event),
        effect_ok(step, event, *job, maildir@, res.1),
{
    match step {
        SyncStep::Start => (SyncStep::Announced, SyncEffect::Send(Action::LeiEnterProcessing)),
        SyncStep::Announced => (SyncStep::Probed, SyncEffect::ProbeMaildir),
        SyncStep::Probed => match event {
            SyncEvent::Exists(false) => (
                SyncStep::CreateAnnounced,
                SyncEffect::Send(Action::LeiSetMode(LocalMode::Creating)),
            ),
            SyncEvent::Exists(true) => (
                SyncStep::UpdateAnnounced,
                SyncEffect::Send(Action::LeiSetMode(LocalMode::Updating)),
            ),
            SyncEvent::Done => (SyncStep::Probed, SyncEffect::ProbeMaildir),
        },
        SyncStep::CreateAnnounced => {
            let mut source_arg = joined("--include=", job.lore_url.as_str());
            source_arg.append("/");
            source_arg.append(job.list.as_str());
            source_arg.append("/");
            let mut args: Vec<String> = Vec::new();
            args.push(String::from_str("q"));
            args.push(source_arg);
            args.push(joined("--output=", maildir.as_str()));
            args.push(String::from_str("--threads"));
            args.push(String::from_str("--dedupe=mid"));
            args.push(job.query.clone());
            assert(args_view(args@) =~= query_args(job.lore_url@, job.list@, job.query@, maildir@));
            (SyncStep::Created, SyncEffect::RunLei(args))
        },
        SyncStep::Created => (
            SyncStep::UpdateAnnounced,
            SyncEffect::Send(Action::LeiSetMode(LocalMode::Updating)),
        ),
        SyncStep::UpdateAnnounced => {
            let mut args: Vec<String> = Vec::new();
            args.push(String::from_str("up"));
            args.push(maildir.clone());
            assert(args_view(args@) =~= update_args(maildir@));
            (SyncStep::Updated, SyncEffect::RunLei(args))
        },
        SyncStep::Updated => (SyncStep::Finished, SyncEffect::Send(Action::LeiExitProcessing)),
        SyncStep::Finished => (SyncStep::Finished, SyncEffect::Stop),
    }
}

/// The step reached after `n` steps of a run whose probe answers `exists`
/// (every other effect reports `Done`).
pub open spec fn run_steps(exists: bool, n: nat) -> SyncStep
    decreases n,
{
    if n == 0 {
        SyncStep::Start
    } else {
        let prev = run_steps(exists, (n - 1) as nat);
        next_step(
            prev,
            if prev == SyncStep::Probed {
                SyncEvent::Exists(exists)
            } else {
                SyncEvent::Done
            },
        )
    }
}

/// Law: a run always ends, announcing processing first and its end last;
/// the maildir is created (with `lei q`) exactly when the probe finds it
/// missing, and updated (with `lei up`) in either case. A run over an
/// existing maildir takes five steps, one over a missing maildir seven.
pub proof fn lemma_sync_run(exists: bool)
    ensures
        run_steps(exists, 1) == SyncStep::Announced,
        run_steps(exists, 2) == SyncStep::Probed,
        !exists ==> run_steps(exists, 3) == SyncStep::CreateAnnounced && run_steps(exists, 4)
            == SyncStep::Created && run_steps(exists, 5) == SyncStep::UpdateAnnounced
            && run_steps(exists, 6) == SyncStep::Updated && run_steps(exists, 7)
            == SyncStep::Finished,
        exists ==> run_steps(exists, 3) == SyncStep::UpdateAnnounced && run_steps(exists, 4)
            == SyncStep::Updated && run_steps(exists, 5) == SyncStep::Finished,
        forall|n: nat|
            #![trigger run_steps(exists, n)]
            run_steps(exists, n) == SyncStep::CreateAnnounced ==> !exists,
        forall|n: nat|
            #![trigger run_steps(exists, n)]
            n >= (if exists {
                5nat
            } else {
                7nat
            }) ==> run_steps(exists, n) == SyncStep::Finished,
{
    reveal_with_fuel(run_steps, 8);
    assert forall|n: nat| #![trigger run_steps(exists, n)]
        n >= (if exists { 5nat } else { 7nat }) implies run_steps(exists, n) == SyncStep::Finished by {
        lemma_run_finished(exists, n);
    }
    assert forall|n: nat| #![trigger run_steps(exists, n)]
        run_steps(exists, n) == SyncStep::CreateAnnounced implies !exists by {
        if exists {
            if n >= 5 {
                lemma_run_finished(exists, n);
            } else {
                assert(n < 5);
            }
        }
    }
}

proof fn lemma_run_finished(exists: bool, n: nat)
    requires
        n >= (if exists {
            5nat
        } else {
            7nat
        }),
    ensures
        run_steps(exists, n) == SyncStep::Finished,
    decreases n,
{
    reveal_with_fuel(run_steps, 8);
    if n > (if exists {
        5nat
    } else {
        7nat
    }) {
        lemma_run_finished(exists, (n - 1) as nat);
    }
}

/// The state after `n` ticks.
pub open spec fn after_ticks(s: LeiState, n: nat) -> LeiState
    decreases n,
{
    if n == 0 {
        s
    } else {
        lei_next(after_ticks(s, (n - 1) as nat), Action::Tick).0
    }
}

proof fn lemma_notice_counts(spinner: nat, n: nat)
    requires
        n < MAX_NOTIFICATION_TICKS,
    ensures
        after_ticks((LocalMode::ExitingProcessing, spinner, 0), n) == (
            LocalMode::ExitingProcessing,
            spinner,
            n,
        ),
    decreases n,
{
    if n > 0 {
        lemma_notice_counts(spinner, (n - 1) as nat);
    }
}

/// Law: once processing is over, the "finished" notice stays for
/// `MAX_NOTIFICATION_TICKS` ticks; the last of them, and no earlier one,
/// asks for the idle mode, and the count starts over.
pub proof fn lemma_notice_expires(spinner: nat)
    ensures
        forall|n: nat|
            n + 1 < MAX_NOTIFICATION_TICKS ==> (#[trigger] lei_next(
                after_ticks((LocalMode::ExitingProcessing, spinner, 0), n),
                Action::Tick,
            )).1 is None,
        lei_next(
            after_ticks(
                (LocalMode::ExitingProcessing, spinner, 0),
                (MAX_NOTIFICATION_TICKS - 1) as nat,
            ),
            Action::Tick,
        ) == ((LocalMode::ExitingProcessing, spinner, 0nat), Some(Action::LeiEnterIdle)),
{
    assert forall|n: nat|
        n + 1 < MAX_NOTIFICATION_TICKS implies (#[trigger] lei_next(
            after_ticks((LocalMode::ExitingProcessing, spinner, 0), n),
            Action::Tick,
        )).1 is None by {
        lemma_notice_counts(spinner, n);
    }
    lemma_notice_counts(spinner, (MAX_NOTIFICATION_TICKS - 1) as nat);
}

/// Law: every action keeps the spinner frame and the notice count below
/// their limits, so the status box always has a frame to show.
pub proof fn lemma_state_stays_ok(s: LeiState, action: Action)
    requires
        lei_state_ok(s),
    ensures
        lei_state_ok(lei_next(s, action).0),
{
}

/// Law: every run starts its spinner afresh: from any state, entering
/// processing shows "Processing" with no dots, keeps the notice count and
/// emits nothing.
pub proof fn lemma_processing_starts_fresh(s: LeiState)
    ensures
        lei_next(s, Action::LeiEnterProcessing).0.0 == LocalMode::Processing,
        lei_next(s, Action::LeiEnterProcessing).0.1 == 0,
        lei_next(s, Action::LeiEnterProcessing).0.2 == s.2,
        lei_next(s, Action::LeiEnterProcessing).1 is None,
        status_text(lei_next(s, Action::LeiEnterProcessing).0.0, lei_next(s, Action::LeiEnterProcessing).0.1)
            == "Processing"@,
{
    assert("Processing"@ + dots(0) =~= "Processing"@);
}

/// Law: from any state, the end of processing shows the "finished" notice
/// with its count at zero, so the notice lasts its full time.
pub proof fn lemma_exit_restarts_notice(s: LeiState)
    ensures
        lei_next(s, Action::LeiExitProcessing).0.0 == LocalMode::ExitingProcessing,
        lei_next(s, Action::LeiExitProcessing).0.2 == 0,
        lei_next(s, Action::LeiExitProcessing).1 is None,
{
}

} // verus!
