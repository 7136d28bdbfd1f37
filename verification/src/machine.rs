use vstd::prelude::*;
use crate::error::Error;
use crate::watch::WatchEvent;

verus! {

/// The state of one watcher's connection loop.
#[derive(Debug, Clone, Copy, PartialEq, Eq, Structural)]
pub enum WatcherState {
    /// Opening a fresh stream to the provider.
    Connecting,
    /// Waiting on the open stream for the next frame.
    Streaming,
    /// Running a full reconciliation pass, on the same connection.
    Reconciling,
    /// Waiting out the fixed delay before reconnecting.
    Backoff,
    /// Terminal: the watcher's task exits.
    Stopped,
}

/// What the watcher's surroundings report to the state machine.
#[derive(Debug, Clone, Copy, PartialEq, Eq, Structural)]
pub enum WatcherInput {
    /// The stream opened.
    ConnectOk,
    /// The stream could not be opened.
    ConnectFailed,
    /// A complete frame arrived and classified to this event.
    Frame(WatchEvent),
    /// A complete frame arrived but could not be classified.
    FrameError,
    /// The process-wide shutdown signal fired.
    StopRequested,
    /// No frame arrived within the idle tolerance.
    IdleTimeout,
    /// The stream failed or ended.
    StreamFailed,
    /// The reconciliation pass finished cleanly.
    ReconcileOk,
    /// The reconciliation pass failed; retried on the next relevant event.
    ReconcileFailed,
    /// The backoff delay elapsed.
    BackoffElapsed,
}

/// What the surrounding loop must do next, determined by the state.
#[derive(Debug, Clone, Copy, PartialEq, Eq, Structural)]
pub enum WatcherAction {
    /// Open a stream to the provider.
    OpenStream,
    /// Wait for the next frame, the stop signal, or the idle timeout.
    AwaitFrame,
    /// Run a full reconciliation pass to completion.
    RunReconcile,
    /// Wait out the backoff delay, or the stop signal.
    Delay,
    /// Exit the watcher's task.
    Exit,
}

/// One watcher's runtime state: where it stands, and whether a stop was
/// requested and is still pending.
#[derive(Debug, Clone, Copy, PartialEq, Eq, Structural)]
pub struct WatcherMachine {
    pub state: WatcherState,
    pub stop_requested: bool,
}

/// The activity each state owes.
pub open spec fn action_for(state: WatcherState) -> WatcherAction {
    match state {
        WatcherState::Connecting => WatcherAction::OpenStream,
        WatcherState::Streaming => WatcherAction::AwaitFrame,
        WatcherState::Reconciling => WatcherAction::RunReconcile,
        WatcherState::Backoff => WatcherAction::Delay,
        WatcherState::Stopped => WatcherAction::Exit,
    }
}

/// The transition relation of the watcher loop.  A stop request wins at
/// every waiting state; only a reconciliation pass already in flight runs
/// to completion first, so no service is left half-updated.  An input a
/// state does not wait for changes nothing.
pub open spec fn step(m: WatcherMachine, input: WatcherInput) -> WatcherMachine {
    let stop = m.stop_requested || input == WatcherInput::StopRequested;
    match m.state {
        WatcherState::Connecting => match input {
            WatcherInput::ConnectOk => WatcherMachine { state: WatcherState::Streaming, stop_requested: stop },
            WatcherInput::ConnectFailed => WatcherMachine { state: WatcherState::Backoff, stop_requested: stop },
            WatcherInput::StopRequested => WatcherMachine { state: WatcherState::Stopped, stop_requested: stop },
            _ => WatcherMachine { state: WatcherState::Connecting, stop_requested: stop },
        },
        WatcherState::Streaming => match input {
            WatcherInput::Frame(WatchEvent::SecretsUpdate) => WatcherMachine { state: WatcherState::Reconciling, stop_requested: stop },
            WatcherInput::Frame(_) => WatcherMachine { state: WatcherState::Streaming, stop_requested: stop },
            WatcherInput::FrameError => WatcherMachine { state: WatcherState::Backoff, stop_requested: stop },
            WatcherInput::IdleTimeout => WatcherMachine { state: WatcherState::Backoff, stop_requested: stop },
            WatcherInput::StreamFailed => WatcherMachine { state: WatcherState::Backoff, stop_requested: stop },
            WatcherInput::StopRequested => WatcherMachine { state: WatcherState::Stopped, stop_requested: stop },
            _ => WatcherMachine { state: WatcherState::Streaming, stop_requested: stop },
        },
        WatcherState::Reconciling => match input {
            WatcherInput::ReconcileOk => WatcherMachine {
                state: if stop { WatcherState::Stopped } else { WatcherState::Streaming },
                stop_requested: stop,
            },
            WatcherInput::ReconcileFailed => WatcherMachine {
                state: if stop { WatcherState::Stopped } else { WatcherState::Backoff },
                stop_requested: stop,
            },
            _ => WatcherMachine { state: WatcherState::Reconciling, stop_requested: stop },
        },
        WatcherState::Backoff => match input {
            WatcherInput::BackoffElapsed => WatcherMachine {
                state: if stop { WatcherState::Stopped } else { WatcherState::Connecting },
                stop_requested: stop,
            },
            WatcherInput::StopRequested => WatcherMachine { state: WatcherState::Stopped, stop_requested: stop },
            _ => WatcherMachine { state: WatcherState::Backoff, stop_requested: stop },
        },
        WatcherState::Stopped => WatcherMachine { state: WatcherState::Stopped, stop_requested: stop },
    }
}

impl WatcherMachine {
    /// A watcher about to open its first stream.
    pub fn new() -> (r: WatcherMachine)
        ensures
            r.state is Connecting,
            !r.stop_requested,
    {
        WatcherMachine { state: WatcherState::Connecting, stop_requested: false }
    }

    /// Feeds one input, per [`step`], and says what to do next.
    pub fn handle(&mut self, input: WatcherInput) -> (a: WatcherAction)
        ensures
            *final(self) == step(*old(self), input),
            a == action_for(final(self).state),
    {
        if matches!(input, WatcherInput::StopRequested) {
            self.stop_requested = true;
        }
        let stop = self.stop_requested;
        self.state = match self.state {
            WatcherState::Connecting => match input {
                WatcherInput::ConnectOk => WatcherState::Streaming,
                WatcherInput::ConnectFailed => WatcherState::Backoff,
                WatcherInput::StopRequested => WatcherState::Stopped,
                _ => WatcherState::Connecting,
            },
            WatcherState::Streaming => match input {
                WatcherInput::Frame(WatchEvent::SecretsUpdate) => WatcherState::Reconciling,
                WatcherInput::Frame(_) => WatcherState::Streaming,
                WatcherInput::FrameError => WatcherState::Backoff,
                WatcherInput::IdleTimeout => WatcherState::Backoff,
                WatcherInput::StreamFailed => WatcherState::Backoff,
                WatcherInput::StopRequested => WatcherState::Stopped,
                _ => WatcherState::Streaming,
            },
            WatcherState::Reconciling => match input {
                WatcherInput::ReconcileOk => if stop {
                    WatcherState::Stopped
                } else {
                    WatcherState::Streaming
                },
                WatcherInput::ReconcileFailed => if stop {
                    WatcherState::Stopped
                } else {
                    WatcherState::Backoff
                },
                _ => WatcherState::Reconciling,
            },
            WatcherState::Backoff => match input {
                WatcherInput::BackoffElapsed => if stop {
                    WatcherState::Stopped
                } else {
                    WatcherState::Connecting
                },
                WatcherInput::StopRequested => WatcherState::Stopped,
                _ => WatcherState::Backoff,
            },
            WatcherState::Stopped => WatcherState::Stopped,
        };
        match self.state {
            WatcherState::Connecting => WatcherAction::OpenStream,
            WatcherState::Streaming => WatcherAction::AwaitFrame,
            WatcherState::Reconciling => WatcherAction::RunReconcile,
            WatcherState::Backoff => WatcherAction::Delay,
            WatcherState::Stopped => WatcherAction::Exit,
        }
    }
}

/// A machine in the given state.
pub open spec fn machine(state: WatcherState, stop: bool) -> WatcherMachine {
    WatcherMachine { state: state, stop_requested: stop }
}

/// Law: cancellation defers to a reconciliation in flight, and to nothing
/// else.  A stop request during `Reconciling` leaves the pass running and
/// is only honoured once the pass reports back, while a stop request in
/// `Streaming` or `Backoff` stops the watcher at once, short-circuiting
/// any wait.
pub proof fn lemma_stop_defers_to_reconciliation(stop: bool, outcome: WatcherInput)
    requires
        outcome == WatcherInput::ReconcileOk || outcome == WatcherInput::ReconcileFailed,
    ensures
        step(machine(WatcherState::Reconciling, stop), WatcherInput::StopRequested) == machine(
            WatcherState::Reconciling,
            true,
        ),
        (step(machine(WatcherState::Reconciling, true), outcome).state is Stopped),
        (step(machine(WatcherState::Streaming, stop), WatcherInput::StopRequested).state
            is Stopped),
        (step(machine(WatcherState::Backoff, stop), WatcherInput::StopRequested).state
            is Stopped),
{
}

/// Law: `Stopped` is terminal — no input leaves it.
pub proof fn lemma_stopped_is_terminal(stop: bool, input: WatcherInput)
    ensures
        (step(machine(WatcherState::Stopped, stop), input).state is Stopped),
{
}

/// The supervisor's startup gate: one result per configured watcher's
/// initial reconciliation pass, in order.  All must have passed for any
/// watcher to go live; otherwise the first failure is escalated and the
/// whole fleet stays down.
pub fn startup_gate(results: Vec<Option<Error>>) -> (r: Result<(), Error>)
    ensures
        match r {
            Ok(_) => forall|i: int| 0 <= i < results@.len() ==> results@[i] is None,
            Err(e) => exists|i: int|
                {
                    &&& 0 <= i < results@.len()
                    &&& (#[trigger] results@[i]) matches Some(first) && e@ == first@
                    &&& forall|j: int| 0 <= j < i ==> results@[j] is None
                },
        },
{
    let n = results.len();
    let mut i: usize = 0;
    while i < n
        invariant
            i <= n,
            n == results@.len(),
            forall|j: int| 0 <= j < i ==> results@[j] is None,
        decreases n - i,
    {
        match &results[i] {
            Some(e) => {
                return Err(e.clone());
            },
            None => {},
        }
        i += 1;
    }
    Ok(())
}

} // verus!
