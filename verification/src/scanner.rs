//! What the background scanner does next.
use vstd::prelude::*;
use crate::worktree::ScanState;

verus! {

/// How far the background scanner is.
#[derive(Debug, Clone, Copy, PartialEq, Eq, Structural)]
pub enum ScannerPhase {
    /// It is telling that the first scan begins.
    Announcing,
    /// It is at the first scan.
    Scanning,
    /// It is telling that the first scan failed.
    Reporting,
    /// It is telling that it has nothing more to do for now.
    Settling,
    /// It is waiting for events.
    Watching,
    /// It is telling that it has events to process.
    Noticing,
    /// It is at a batch of events.
    Processing,
    /// It has stopped.
    Stopped,
}

/// What the scanner is to do.
pub enum ScannerAction {
    /// Send a state to whoever observes the scanner.
    Send(ScanState),
    /// Scan the tree from its root.
    ScanDirs,
    /// Wait for events.
    AwaitEvents,
    /// Process the batch of events that has come.
    ProcessEvents,
    /// Stop.
    Stop,
}

/// What came of what the scanner did.
pub enum ScannerOutcome {
    /// The state was sent.
    Sent,
    /// Nobody observes the scanner any more.
    Unheard,
    /// The scan, or the batch of events, is done.
    Done,
    /// The scan failed, with the given message.
    Failed(String),
    /// A batch of events has come.
    Events,
}

/// Whether the scanner is sending a state.
pub open spec fn is_sending(phase: ScannerPhase) -> bool {
    phase is Announcing || phase is Reporting || phase is Settling || phase is Noticing
}

/// Whether `outcome` can come of what is done in `phase`.
pub open spec fn is_awaited(phase: ScannerPhase, outcome: ScannerOutcome) -> bool {
    match outcome {
        ScannerOutcome::Sent | ScannerOutcome::Unheard => is_sending(phase),
        ScannerOutcome::Done => phase is Scanning || phase is Processing,
        ScannerOutcome::Failed(_) => phase is Scanning,
        ScannerOutcome::Events => phase is Watching,
    }
}

/// What follows on `outcome` in `phase`: nothing more once nobody observes the scanner.
pub open spec fn following(phase: ScannerPhase, outcome: ScannerOutcome) -> (
    ScannerPhase,
    ScannerAction,
) {
    match outcome {
        ScannerOutcome::Sent => match phase {
            ScannerPhase::Announcing => (ScannerPhase::Scanning, ScannerAction::ScanDirs),
            ScannerPhase::Noticing => (ScannerPhase::Processing, ScannerAction::ProcessEvents),
            ScannerPhase::Reporting => (
                ScannerPhase::Settling,
                ScannerAction::Send(ScanState::Idle),
            ),
            _ => (ScannerPhase::Watching, ScannerAction::AwaitEvents),
        },
        ScannerOutcome::Unheard => (ScannerPhase::Stopped, ScannerAction::Stop),
        ScannerOutcome::Done => (ScannerPhase::Settling, ScannerAction::Send(ScanState::Idle)),
        ScannerOutcome::Failed(message) => (
            ScannerPhase::Reporting,
            ScannerAction::Send(ScanState::Failed(message)),
        ),
        ScannerOutcome::Events => (
            ScannerPhase::Noticing,
            ScannerAction::Send(ScanState::Scanning),
        ),
    }
}

impl ScannerPhase {
    /// Where the scanner begins.
    pub fn start() -> (begun: (ScannerPhase, ScannerAction))
        ensures
            begun == (ScannerPhase::Announcing, ScannerAction::Send(ScanState::Scanning)),
    {
        (ScannerPhase::Announcing, ScannerAction::Send(ScanState::Scanning))
    }

    /// Whether `outcome` can come of what is done in this phase.
    pub fn awaits(&self, outcome: &ScannerOutcome) -> (awaits: bool)
        ensures
            awaits == is_awaited(*self, *outcome),
    {
        match (self, outcome) {
            (ScannerPhase::Announcing, ScannerOutcome::Sent | ScannerOutcome::Unheard) => true,
            (ScannerPhase::Reporting, ScannerOutcome::Sent | ScannerOutcome::Unheard) => true,
            (ScannerPhase::Settling, ScannerOutcome::Sent | ScannerOutcome::Unheard) => true,
            (ScannerPhase::Noticing, ScannerOutcome::Sent | ScannerOutcome::Unheard) => true,
            (ScannerPhase::Scanning, ScannerOutcome::Done | ScannerOutcome::Failed(_)) => true,
            (ScannerPhase::Processing, ScannerOutcome::Done) => true,
            (ScannerPhase::Watching, ScannerOutcome::Events) => true,
            _ => false,
        }
    }

    /// What follows on `outcome`.
    pub fn follow(self, outcome: ScannerOutcome) -> (next: (ScannerPhase, ScannerAction))
        requires
            is_awaited(self, outcome),
        ensures
            next == following(self, outcome),
    {
        match outcome {
            ScannerOutcome::Sent => match self {
                ScannerPhase::Announcing => (ScannerPhase::Scanning, ScannerAction::ScanDirs),
                ScannerPhase::Noticing => (ScannerPhase::Processing, ScannerAction::ProcessEvents),
                ScannerPhase::Reporting => (
                    ScannerPhase::Settling,
                    ScannerAction::Send(ScanState::Idle),
                ),
                _ => (ScannerPhase::Watching, ScannerAction::AwaitEvents),
            },
            ScannerOutcome::Unheard => (ScannerPhase::Stopped, ScannerAction::Stop),
            ScannerOutcome::Done => (ScannerPhase::Settling, ScannerAction::Send(ScanState::Idle)),
            ScannerOutcome::Failed(message) => (
                ScannerPhase::Reporting,
                ScannerAction::Send(ScanState::Failed(message)),
            ),
            ScannerOutcome::Events => (
                ScannerPhase::Noticing,
                ScannerAction::Send(ScanState::Scanning),
            ),
        }
    }
}

/// Whether `phases` and `actions` are those of a scanner to which `outcomes` happen one after the
/// other.
pub open spec fn is_run(
    phases: Seq<ScannerPhase>,
    actions: Seq<ScannerAction>,
    outcomes: Seq<ScannerOutcome>,
) -> bool {
    &&& phases.len() == outcomes.len() + 1
    &&& actions.len() == outcomes.len() + 1
    &&& phases[0] == ScannerPhase::Announcing
    &&& actions[0] == ScannerAction::Send(ScanState::Scanning)
    &&& forall|i: int|
        #![trigger outcomes[i]]
        0 <= i < outcomes.len() ==> is_awaited(phases[i], outcomes[i]) && (
        phases[i + 1],
        actions[i + 1],
    ) == following(phases[i], outcomes[i])
}

/// Whether the scanner does in `phase` what it is told to.
pub open spec fn acts(phase: ScannerPhase, action: ScannerAction) -> bool {
    match phase {
        ScannerPhase::Announcing | ScannerPhase::Noticing => action == ScannerAction::Send(
            ScanState::Scanning,
        ),
        ScannerPhase::Scanning => action is ScanDirs,
        ScannerPhase::Reporting => action is Send && action->0 is Failed,
        ScannerPhase::Settling => action == ScannerAction::Send(ScanState::Idle),
        ScannerPhase::Watching => action is AwaitEvents,
        ScannerPhase::Processing => action is ProcessEvents,
        ScannerPhase::Stopped => action is Stop,
    }
}

proof fn lemma_run_acts(
    phases: Seq<ScannerPhase>,
    actions: Seq<ScannerAction>,
    outcomes: Seq<ScannerOutcome>,
    n: int,
)
    requires
        is_run(phases, actions, outcomes),
        0 <= n < actions.len(),
    ensures
        acts(phases[n], actions[n]),
{
    if n > 0 {
        assert(is_awaited(phases[n - 1], outcomes[n - 1]));
    }
}

/// In every run, the scanner works only when it has just sent that it is scanning, and waits for
/// events only when it has just sent that it is idle.
pub proof fn law_scanner_tells_what_it_does(
    phases: Seq<ScannerPhase>,
    actions: Seq<ScannerAction>,
    outcomes: Seq<ScannerOutcome>,
    n: int,
)
    requires
        is_run(phases, actions, outcomes),
        0 <= n < actions.len(),
    ensures
        actions[n] is ScanDirs || actions[n] is ProcessEvents ==> n > 0 && outcomes[n - 1] is Sent
            && actions[n - 1] == ScannerAction::Send(ScanState::Scanning),
        actions[n] is AwaitEvents ==> n > 0 && outcomes[n - 1] is Sent && actions[n - 1]
            == ScannerAction::Send(ScanState::Idle),
{
    lemma_run_acts(phases, actions, outcomes, n);
    if n > 0 {
        lemma_run_acts(phases, actions, outcomes, n - 1);
        assert(is_awaited(phases[n - 1], outcomes[n - 1]));
    }
}

/// Once nobody observes the scanner, nothing more happens.
pub proof fn law_scanner_stops_unheard(
    phases: Seq<ScannerPhase>,
    actions: Seq<ScannerAction>,
    outcomes: Seq<ScannerOutcome>,
    n: int,
)
    requires
        is_run(phases, actions, outcomes),
        0 <= n < outcomes.len(),
        outcomes[n] is Unheard,
    ensures
        n == outcomes.len() - 1,
        actions.last() is Stop,
{
    assert(is_awaited(phases[n], outcomes[n]));
    if n + 1 < outcomes.len() {
        assert(is_awaited(phases[n + 1], outcomes[n + 1]));
    }
}

/// A scan that fails is reported, and the scanner then settles as after any other.
pub proof fn law_failed_scan_is_reported(
    phases: Seq<ScannerPhase>,
    actions: Seq<ScannerAction>,
    outcomes: Seq<ScannerOutcome>,
    n: int,
)
    requires
        is_run(phases, actions, outcomes),
        0 <= n < outcomes.len(),
        outcomes[n] is Failed,
    ensures
        actions[n + 1] == ScannerAction::Send(ScanState::Failed(outcomes[n]->Failed_0)),
        n + 1 < outcomes.len() && outcomes[n + 1] is Sent ==> actions[n + 2] == ScannerAction::Send(
            ScanState::Idle,
        ),
{
    assert(is_awaited(phases[n], outcomes[n]));
    if n + 1 < outcomes.len() {
        assert(is_awaited(phases[n + 1], outcomes[n + 1]));
    }
}

/// What the scanner did last and what came of it decide what it does next: it stops when nobody
/// heard what it sent. Having sent that it scans, it scans the tree, if that is the first it does,
/// and processes events otherwise. When a scan or a batch is done, it sends that it is idle; when a
/// scan failed, it sends so, with the message, and that it is idle behind that. Being idle, it
/// waits for events, and sends that it scans when some have come.
pub proof fn law_scanner_takes_turns(
    phases: Seq<ScannerPhase>,
    actions: Seq<ScannerAction>,
    outcomes: Seq<ScannerOutcome>,
    n: int,
)
    requires
        is_run(phases, actions, outcomes),
        0 <= n < outcomes.len(),
    ensures
        match (actions[n], outcomes[n]) {
            (ScannerAction::Send(_), ScannerOutcome::Unheard) => actions[n + 1] is Stop,
            (ScannerAction::Send(ScanState::Scanning), ScannerOutcome::Sent) => if n == 0 {
                actions[n + 1] is ScanDirs
            } else {
                actions[n + 1] is ProcessEvents
            },
            (ScannerAction::Send(ScanState::Failed(_)), ScannerOutcome::Sent) => actions[n + 1]
                == ScannerAction::Send(ScanState::Idle),
            (ScannerAction::Send(ScanState::Idle), ScannerOutcome::Sent) => actions[n
                + 1] is AwaitEvents,
            (ScannerAction::ScanDirs, ScannerOutcome::Failed(message)) => actions[n + 1]
                == ScannerAction::Send(ScanState::Failed(message)),
            (ScannerAction::ScanDirs, ScannerOutcome::Done) => actions[n + 1]
                == ScannerAction::Send(ScanState::Idle),
            (ScannerAction::ProcessEvents, ScannerOutcome::Done) => actions[n + 1]
                == ScannerAction::Send(ScanState::Idle),
            (ScannerAction::AwaitEvents, ScannerOutcome::Events) => actions[n + 1]
                == ScannerAction::Send(ScanState::Scanning),
            _ => false,
        },
{
    lemma_run_acts(phases, actions, outcomes, n);
    assert(is_awaited(phases[n], outcomes[n]));
    if n > 0 {
        assert(is_awaited(phases[n - 1], outcomes[n - 1]));
    }
}

/// At every moment of a run, all that can come of what the scanner does is awaited, and nothing
/// else: a state is sent or not heard, a scan is done or fails, a batch is done, events come.
pub proof fn law_scanner_awaits_what_can_come(
    phases: Seq<ScannerPhase>,
    actions: Seq<ScannerAction>,
    outcomes: Seq<ScannerOutcome>,
    n: int,
    outcome: ScannerOutcome,
)
    requires
        is_run(phases, actions, outcomes),
        0 <= n < actions.len(),
    ensures
        is_awaited(phases[n], outcome) <==> match (actions[n], outcome) {
            (ScannerAction::Send(_), ScannerOutcome::Sent | ScannerOutcome::Unheard) => true,
            (ScannerAction::ScanDirs, ScannerOutcome::Done | ScannerOutcome::Failed(_)) => true,
            (ScannerAction::ProcessEvents, ScannerOutcome::Done) => true,
            (ScannerAction::AwaitEvents, ScannerOutcome::Events) => true,
            _ => false,
        },
{
    lemma_run_acts(phases, actions, outcomes, n);
}

/// A scanner that starts begins a run, with telling that it scans.
pub proof fn law_scanner_begins_a_run(begun: (ScannerPhase, ScannerAction))
    requires
        call_ensures(ScannerPhase::start, (), begun),
    ensures
        begun.1 == ScannerAction::Send(ScanState::Scanning),
        is_run(seq![begun.0], seq![begun.1], Seq::empty()),
{
}

/// What follows on an outcome that is awaited goes on with the run.
pub proof fn law_scanner_goes_on_with_its_run(
    phases: Seq<ScannerPhase>,
    actions: Seq<ScannerAction>,
    outcomes: Seq<ScannerOutcome>,
    outcome: ScannerOutcome,
    awaits: bool,
    next: (ScannerPhase, ScannerAction),
)
    requires
        is_run(phases, actions, outcomes),
        call_ensures(ScannerPhase::awaits, (&phases.last(), &outcome), awaits),
        awaits ==> call_ensures(ScannerPhase::follow, (phases.last(), outcome), next),
    ensures
        awaits ==> is_run(phases.push(next.0), actions.push(next.1), outcomes.push(outcome)),
        awaits <==> match (actions.last(), outcome) {
            (ScannerAction::Send(_), ScannerOutcome::Sent | ScannerOutcome::Unheard) => true,
            (ScannerAction::ScanDirs, ScannerOutcome::Done | ScannerOutcome::Failed(_)) => true,
            (ScannerAction::ProcessEvents, ScannerOutcome::Done) => true,
            (ScannerAction::AwaitEvents, ScannerOutcome::Events) => true,
            _ => false,
        },
{
    let n = outcomes.len() as int;
    lemma_run_acts(phases, actions, outcomes, n);
    if awaits {
        let more = outcomes.push(outcome);
        assert forall|i: int|
            #![trigger more[i]]
            0 <= i < more.len() implies is_awaited(phases.push(next.0)[i], more[i]) && (
        phases.push(next.0)[i + 1],
        actions.push(next.1)[i + 1],
    ) == following(phases.push(next.0)[i], more[i]) by {
            if i < n {
                assert(more[i] == outcomes[i]);
            }
        }
    }
}

} // verus!
