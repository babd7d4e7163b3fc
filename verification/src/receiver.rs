//! What the receiving side does, decided step by step.

use crate::dirwalker::{PathEntry, PathEntryView};
use crate::listing::{reversed, Snapshot};
use crate::path::{FilePath, PathView};
use crate::snapshot::{ChangeView, SnapshotEntry};
use crate::sync::{
    ReceiverToSender, RecvEvent, RecvEventView, ReplyView, RequestView, SenderToReceiver,
};
use crate::text::concat_text;
use vstd::prelude::*;

verus! {

/// What the receiver has to do next. Of a list of actions, the outcome of the last
/// is the next input; the outcomes of the others count for nothing.
pub enum RecvAction {
    /// Report to the user.
    Emit(RecvEvent),
    /// Receive a message.
    Receive,
    /// Walk the tree below the root.
    Walk,
    /// Send a message.
    Send(ReceiverToSender),
    /// Apply a change to the tree below the root.
    Apply(SnapshotEntry),
    /// Declare that nothing more will be sent.
    Finish,
    /// Wait until the sender closes the stream.
    Drain,
    /// Leave it at that.
    Stop,
}

/// What an action says.
pub enum RecvActionView {
    Emit(RecvEventView),
    Receive,
    Walk,
    Send(ReplyView),
    Apply(ChangeView),
    Finish,
    Drain,
    Stop,
}

impl View for RecvAction {
    type V = RecvActionView;

    open spec fn view(&self) -> RecvActionView {
        match self {
            RecvAction::Emit(event) => RecvActionView::Emit(event@),
            RecvAction::Receive => RecvActionView::Receive,
            RecvAction::Walk => RecvActionView::Walk,
            RecvAction::Send(reply) => RecvActionView::Send(reply@),
            RecvAction::Apply(change) => RecvActionView::Apply(change@),
            RecvAction::Finish => RecvActionView::Finish,
            RecvAction::Drain => RecvActionView::Drain,
            RecvAction::Stop => RecvActionView::Stop,
        }
    }
}

/// What a list of actions says.
pub open spec fn recv_action_views(actions: Seq<RecvAction>) -> Seq<RecvActionView> {
    Seq::new(actions.len(), |i: int| actions[i]@)
}

/// What came of an action. A failure is given by its message.
pub enum RecvInput {
    /// A message came, or none will.
    Message(Result<SenderToReceiver, String>),
    /// The tree was walked.
    Walked(Result<Vec<PathEntry>, String>),
    /// A message was sent.
    Sent(Result<(), String>),
    /// A change was applied.
    Applied(Result<(), String>),
}

/// What an input says.
pub enum RecvInputView {
    Message(Result<RequestView, Seq<char>>),
    Walked(Result<Seq<PathEntryView>, Seq<char>>),
    Sent(Result<(), Seq<char>>),
    Applied(Result<(), Seq<char>>),
}

/// An outcome of which only the message of a failure is known.
pub open spec fn outcome_view(outcome: Result<(), String>) -> Result<(), Seq<char>> {
    match outcome {
        Ok(()) => Ok(()),
        Err(text) => Err(text@),
    }
}

impl View for RecvInput {
    type V = RecvInputView;

    open spec fn view(&self) -> RecvInputView {
        match self {
            RecvInput::Message(Ok(message)) => RecvInputView::Message(Ok(message@)),
            RecvInput::Message(Err(text)) => RecvInputView::Message(Err(text@)),
            RecvInput::Walked(Ok(entries)) => RecvInputView::Walked(
                Ok(crate::listing::entry_views(entries@)),
            ),
            RecvInput::Walked(Err(text)) => RecvInputView::Walked(Err(text@)),
            RecvInput::Sent(outcome) => RecvInputView::Sent(outcome_view(*outcome)),
            RecvInput::Applied(outcome) => RecvInputView::Applied(outcome_view(*outcome)),
        }
    }
}

/// What the receiver waits for.
enum RecvState {
    Waiting,
    Walking,
    Reporting { entry_count: usize },
    /// The changes still to apply are held last first.
    Applying { path: FilePath, rest: Vec<SnapshotEntry> },
    Closed,
}

/// What the receiver waits for.
pub enum RecvStateView {
    /// A message.
    Waiting,
    /// The end of a walk.
    Walking,
    /// The snapshot to be sent.
    Reporting { entry_count: usize },
    /// A change at `path` to be applied, with the rest still to come.
    Applying { path: PathView, rest: Seq<ChangeView> },
    /// Nothing.
    Closed,
}

impl View for RecvState {
    type V = RecvStateView;

    closed spec fn view(&self) -> RecvStateView {
        match self {
            RecvState::Waiting => RecvStateView::Waiting,
            RecvState::Walking => RecvStateView::Walking,
            RecvState::Reporting { entry_count } => RecvStateView::Reporting {
                entry_count: *entry_count,
            },
            RecvState::Applying { path, rest } => RecvStateView::Applying {
                path: path@,
                rest: crate::snapshot::change_views(rest@).reverse(),
            },
            RecvState::Closed => RecvStateView::Closed,
        }
    }
}

/// A step of the receiver: its next state and what it does.
pub type RecvStep = (RecvStateView, Seq<RecvActionView>);

/// The receiver gives up and tells the user and the sender why.
pub open spec fn refusal(text: Seq<char>) -> Seq<RecvActionView> {
    seq![
        RecvActionView::Emit(RecvEventView::Error(text)),
        RecvActionView::Send(ReplyView::Error(text)),
        RecvActionView::Stop,
    ]
}

/// The receiver gives up and tells the user why.
pub open spec fn breakdown(text: Seq<char>) -> Seq<RecvActionView> {
    seq![RecvActionView::Emit(RecvEventView::Error(text)), RecvActionView::Stop]
}

/// All changes are made: the receiver says so and waits for the sender to leave.
pub open spec fn completion() -> Seq<RecvActionView> {
    seq![
        RecvActionView::Send(ReplyView::Ack),
        RecvActionView::Finish,
        RecvActionView::Emit(RecvEventView::Finished),
        RecvActionView::Drain,
        RecvActionView::Stop,
    ]
}

/// The receiver turns to the first of the changes.
pub open spec fn turn_to(changes: Seq<ChangeView>) -> RecvStep {
    if changes.len() == 0 {
        (RecvStateView::Closed, completion())
    } else {
        let path = changes[0].place();
        (
            RecvStateView::Applying { path, rest: changes.skip(1) },
            seq![
                RecvActionView::Emit(RecvEventView::EntryReceiving { path }),
                RecvActionView::Apply(changes[0]),
            ],
        )
    }
}

/// The message about a tree that could not be walked.
pub open spec fn walk_failure(text: Seq<char>) -> Seq<char> {
    "Failed to walk root directory: "@ + text
}

/// The message about a tree that has no snapshot.
pub open spec fn snapshot_failure(text: Seq<char>) -> Seq<char> {
    "Failed to build snapshot map: "@ + text
}

/// The message about a change that could not be applied.
pub open spec fn apply_failure(path: PathView, text: Seq<char>) -> Seq<char> {
    "Failed to apply patch entry for "@ + crate::path::shown(path) + ": "@ + text
}

/// What the receiver does about a message.
pub open spec fn on_message(message: Result<RequestView, Seq<char>>) -> RecvStep {
    match message {
        Err(text) => (RecvStateView::Closed, breakdown(text)),
        Ok(RequestView::RequestSnapshot) => (RecvStateView::Walking, seq![RecvActionView::Walk]),
        Ok(RequestView::SendPatch(changes)) => turn_to(changes),
        Ok(RequestView::Ack) => (
            RecvStateView::Closed,
            seq![
                RecvActionView::Finish,
                RecvActionView::Emit(RecvEventView::Finished),
                RecvActionView::Stop,
            ],
        ),
    }
}

/// What the receiver does once its tree was walked.
pub open spec fn on_walked(
    root: PathView,
    outcome: Result<Seq<PathEntryView>, Seq<char>>,
) -> RecvStep {
    match outcome {
        Err(text) => (RecvStateView::Closed, refusal(walk_failure(text))),
        Ok(entries) => match crate::listing::collected(root, entries, entries.len()) {
            Err(e) => (
                RecvStateView::Closed,
                refusal(snapshot_failure(crate::error::message_of(e))),
            ),
            Ok(snapshot) => (
                RecvStateView::Reporting { entry_count: snapshot.len() as usize },
                seq![RecvActionView::Send(ReplyView::Snapshot(snapshot))],
            ),
        },
    }
}

/// What the receiver does once its snapshot was sent.
pub open spec fn on_reported(entry_count: usize, outcome: Result<(), Seq<char>>) -> RecvStep {
    match outcome {
        Err(text) => (RecvStateView::Closed, breakdown(text)),
        Ok(()) => (
            RecvStateView::Waiting,
            seq![
                RecvActionView::Emit(RecvEventView::SnapshotSent { entry_count }),
                RecvActionView::Receive,
            ],
        ),
    }
}

/// What the receiver does once a change was applied.
pub open spec fn on_applied(
    path: PathView,
    rest: Seq<ChangeView>,
    outcome: Result<(), Seq<char>>,
) -> RecvStep {
    match outcome {
        Err(text) => (RecvStateView::Closed, refusal(apply_failure(path, text))),
        Ok(()) => {
            let (state, actions) = turn_to(rest);
            (
                state,
                seq![RecvActionView::Emit(RecvEventView::EntryApplied { path })] + actions,
            )
        },
    }
}

/// What the receiver does about an input. One that it does not wait for changes nothing.
pub open spec fn recv_step(root: PathView, state: RecvStateView, input: RecvInputView) -> RecvStep {
    match (state, input) {
        (RecvStateView::Waiting, RecvInputView::Message(message)) => on_message(message),
        (RecvStateView::Walking, RecvInputView::Walked(outcome)) => on_walked(root, outcome),
        (RecvStateView::Reporting { entry_count }, RecvInputView::Sent(outcome)) => on_reported(
            entry_count,
            outcome,
        ),
        (RecvStateView::Applying { path, rest }, RecvInputView::Applied(outcome)) => on_applied(
            path,
            rest,
            outcome,
        ),
        _ => (state, Seq::empty()),
    }
}

/// What the receiver has done, and waits for, after some inputs.
pub open spec fn recv_run(
    root: PathView,
    state: RecvStateView,
    inputs: Seq<RecvInputView>,
) -> RecvStep
    decreases inputs.len(),
{
    if inputs.len() == 0 {
        (state, Seq::empty())
    } else {
        let (before, done) = recv_run(root, state, inputs.drop_last());
        let (after, actions) = recv_step(root, before, inputs.last());
        (after, done + actions)
    }
}

/// The word that a change was applied, `n` times.
pub open spec fn all_applied(n: nat) -> Seq<RecvInputView> {
    Seq::new(n, |i: int| RecvInputView::Applied(Ok(())))
}

/// What the receiver does to apply the first `n` changes, one after the other.
pub open spec fn application(changes: Seq<ChangeView>, n: nat) -> Seq<RecvActionView>
    decreases n,
{
    if n == 0 {
        Seq::empty()
    } else {
        let path = changes[n - 1].place();
        application(changes, (n - 1) as nat) + seq![
            RecvActionView::Emit(RecvEventView::EntryReceiving { path }),
            RecvActionView::Apply(changes[n - 1]),
            RecvActionView::Emit(RecvEventView::EntryApplied { path }),
        ]
    }
}

/// The changes that are applied in a list of actions.
pub open spec fn applied_in(actions: Seq<RecvActionView>) -> Seq<ChangeView>
    decreases actions.len(),
{
    if actions.len() == 0 {
        Seq::empty()
    } else {
        let before = applied_in(actions.drop_last());
        match actions.last() {
            RecvActionView::Apply(change) => before.push(change),
            _ => before,
        }
    }
}

proof fn lemma_applied_in_push(actions: Seq<RecvActionView>, action: RecvActionView)
    ensures
        applied_in(actions.push(action)) == match action {
            RecvActionView::Apply(change) => applied_in(actions).push(change),
            _ => applied_in(actions),
        },
{
    assert(actions.push(action).drop_last() =~= actions);
}

/// What is applied on the way to applying `n` changes is those changes, in their order.
pub proof fn lemma_application(changes: Seq<ChangeView>, n: nat)
    requires
        n <= changes.len(),
    ensures
        applied_in(application(changes, n)) == changes.take(n as int),
    decreases n,
{
    if n == 0 {
        assert(changes.take(0) =~= Seq::empty());
    } else {
        let m = (n - 1) as nat;
        lemma_application(changes, m);
        let path = changes[m as int].place();
        let start = application(changes, m);
        let (a, b, c) = (
            RecvActionView::Emit(RecvEventView::EntryReceiving { path }),
            RecvActionView::Apply(changes[m as int]),
            RecvActionView::Emit(RecvEventView::EntryApplied { path }),
        );
        assert(start + seq![a, b, c] =~= start.push(a).push(b).push(c));
        lemma_applied_in_push(start, a);
        lemma_applied_in_push(start.push(a), b);
        lemma_applied_in_push(start.push(a).push(b), c);
        assert(changes.take(n as int) =~= changes.take(m as int).push(changes[m as int]));
    }
}

proof fn lemma_recv_run_push(
    root: PathView,
    state: RecvStateView,
    inputs: Seq<RecvInputView>,
    input: RecvInputView,
)
    ensures
        ({
            let (before, done) = recv_run(root, state, inputs);
            let (after, actions) = recv_step(root, before, input);
            recv_run(root, state, inputs.push(input)) == (after, done + actions)
        }),
{
    assert(inputs.push(input).drop_last() =~= inputs);
}

/// After `n` changes the receiver turns to the next one, or is done.
proof fn lemma_patch_so_far(root: PathView, changes: Seq<ChangeView>, n: nat)
    requires
        n <= changes.len(),
    ensures
        ({
            let inputs = seq![RecvInputView::Message(Ok(RequestView::SendPatch(changes)))]
                + all_applied(n);
            let (state, actions) = turn_to(changes.skip(n as int));
            recv_run(root, RecvStateView::Waiting, inputs) == (
                state,
                application(changes, n) + actions,
            )
        }),
    decreases n,
{
    let message = RecvInputView::Message(Ok(RequestView::SendPatch(changes)));
    let waiting = RecvStateView::Waiting;
    let (state, actions) = turn_to(changes.skip(n as int));
    if n == 0 {
        assert(seq![message] + all_applied(0) =~= Seq::empty().push(message));
        lemma_recv_run_push(root, waiting, Seq::empty(), message);
        assert(changes.skip(0) =~= changes);
        assert(Seq::<RecvActionView>::empty() + actions =~= actions);
    } else {
        let m = (n - 1) as nat;
        let before = seq![message] + all_applied(m);
        lemma_patch_so_far(root, changes, m);
        assert(seq![message] + all_applied(n) =~= before.push(RecvInputView::Applied(Ok(()))));
        lemma_recv_run_push(root, waiting, before, RecvInputView::Applied(Ok(())));
        let left = changes.skip(m as int);
        assert(left.skip(1) =~= changes.skip(n as int));
        let path = changes[m as int].place();
        assert(application(changes, m) + turn_to(left).1 + (seq![
            RecvActionView::Emit(RecvEventView::EntryApplied { path }),
        ] + actions) =~= application(changes, n) + actions);
    }
}

/// A patch of which every change can be applied is applied in full and in order, and
/// is then acknowledged.
pub proof fn lemma_patch_is_acknowledged(root: PathView, changes: Seq<ChangeView>)
    ensures
        ({
            let inputs = seq![RecvInputView::Message(Ok(RequestView::SendPatch(changes)))]
                + all_applied(changes.len());
            recv_run(root, RecvStateView::Waiting, inputs) == (
                RecvStateView::Closed,
                application(changes, changes.len()) + completion(),
            )
        }),
        applied_in(application(changes, changes.len()) + completion()) == changes,
{
    lemma_patch_so_far(root, changes, changes.len());
    assert(changes.skip(changes.len() as int) =~= Seq::empty());
    lemma_application(changes, changes.len());
    assert(changes.take(changes.len() as int) =~= changes);
    let start = application(changes, changes.len());
    let c = completion();
    lemma_applied_in_push(start, c[0]);
    lemma_applied_in_push(start.push(c[0]), c[1]);
    lemma_applied_in_push(start.push(c[0]).push(c[1]), c[2]);
    lemma_applied_in_push(start.push(c[0]).push(c[1]).push(c[2]), c[3]);
    lemma_applied_in_push(start.push(c[0]).push(c[1]).push(c[2]).push(c[3]), c[4]);
    assert(start + c =~= start.push(c[0]).push(c[1]).push(c[2]).push(c[3]).push(c[4]));
}

/// A patch of which change `k` is the first that cannot be applied is refused: what
/// comes before it is applied, nothing after it is, the sender gets the reason, and no
/// acknowledgement is sent.
pub proof fn lemma_patch_is_refused(
    root: PathView,
    changes: Seq<ChangeView>,
    k: nat,
    text: Seq<char>,
)
    requires
        k < changes.len(),
    ensures
        ({
            let inputs = seq![RecvInputView::Message(Ok(RequestView::SendPatch(changes)))]
                + all_applied(k);
            let path = changes[k as int].place();
            recv_run(
                root,
                RecvStateView::Waiting,
                inputs.push(RecvInputView::Applied(Err(text))),
            ) == (
                RecvStateView::Closed,
                application(changes, k) + seq![
                    RecvActionView::Emit(RecvEventView::EntryReceiving { path }),
                    RecvActionView::Apply(changes[k as int]),
                ] + refusal(apply_failure(path, text)),
            )
        }),
{
    let inputs = seq![RecvInputView::Message(Ok(RequestView::SendPatch(changes)))] + all_applied(k);
    lemma_patch_so_far(root, changes, k);
    lemma_recv_run_push(
        root,
        RecvStateView::Waiting,
        inputs,
        RecvInputView::Applied(Err(text)),
    );
    assert(changes.skip(k as int)[0] == changes[k as int]);
}

/// The receiver acknowledges nothing but a patch that is applied to its end.
pub proof fn lemma_acknowledged_is_applied(
    root: PathView,
    state: RecvStateView,
    input: RecvInputView,
)
    ensures
        recv_step(root, state, input).1.contains(RecvActionView::Send(ReplyView::Ack)) <==> {
            ||| {
                &&& state is Waiting
                &&& input matches RecvInputView::Message(Ok(RequestView::SendPatch(changes)))
                &&& changes.len() == 0
            }
            ||| {
                &&& state matches RecvStateView::Applying { rest, .. }
                &&& rest.len() == 0
                &&& input matches RecvInputView::Applied(Ok(()))
            }
        },
{
    let ack = RecvActionView::Send(ReplyView::Ack);
    let actions = recv_step(root, state, input).1;
    assert(completion()[0] == ack);
    match (state, input) {
        (RecvStateView::Waiting, RecvInputView::Message(Ok(RequestView::SendPatch(c)))) => {
            if c.len() == 0 {
                assert(actions[0] == ack);
            }
        },
        (RecvStateView::Applying { rest, .. }, RecvInputView::Applied(Ok(()))) => {
            if rest.len() == 0 {
                assert(actions[1] == ack);
            }
        },
        _ => {},
    }
    if actions.contains(ack) {
        let i = choose|i: int| 0 <= i < actions.len() && actions[i] == ack;
        match (state, input) {
            (RecvStateView::Waiting, RecvInputView::Message(Ok(RequestView::SendPatch(c)))) => {
                if c.len() == 0 {
                    assert(c =~= Seq::empty());
                }
            },
            (RecvStateView::Applying { path, rest }, RecvInputView::Applied(Ok(()))) => {
                if rest.len() > 0 {
                    assert(actions.len() == 3);
                }
            },
            _ => {
                assert(false);
            },
        }
    }
}

/// The receiver is closed when it stops, and only then; it does nothing afterwards.
pub proof fn lemma_receiver_closes(root: PathView, state: RecvStateView, input: RecvInputView)
    ensures
        ({
            let (after, actions) = recv_step(root, state, input);
            &&& state is Closed ==> after is Closed && actions.len() == 0
            &&& state !is Closed ==> (after is Closed <==> actions.contains(RecvActionView::Stop))
            &&& actions.contains(RecvActionView::Stop) ==> actions.last() is Stop
        }),
{
    let (after, actions) = recv_step(root, state, input);
    if actions.len() > 0 && actions.last() is Stop {
        assert(actions[actions.len() - 1] == RecvActionView::Stop);
    }
}

/// Whether the action reports an end, good or bad, to the user.
pub open spec fn is_ending(action: RecvActionView) -> bool {
    ||| action == RecvActionView::Emit(RecvEventView::Finished)
    ||| action matches RecvActionView::Emit(RecvEventView::Error(_))
}

/// How many of the actions report an end to the user.
pub open spec fn endings(actions: Seq<RecvActionView>) -> nat
    decreases actions.len(),
{
    if actions.len() == 0 {
        0
    } else {
        endings(actions.drop_last()) + if is_ending(actions.last()) {
            1nat
        } else {
            0
        }
    }
}

proof fn lemma_endings_concat(a: Seq<RecvActionView>, b: Seq<RecvActionView>)
    ensures
        endings(a + b) == endings(a) + endings(b),
    decreases b.len(),
{
    if b.len() == 0 {
        assert(a + b =~= a);
    } else {
        assert((a + b).drop_last() =~= a + b.drop_last());
        lemma_endings_concat(a, b.drop_last());
    }
}

/// Actions that report no end have no endings.
proof fn lemma_no_endings(actions: Seq<RecvActionView>)
    requires
        forall|i: int| #![trigger actions[i]] 0 <= i < actions.len() ==> !is_ending(actions[i]),
    ensures
        endings(actions) == 0,
    decreases actions.len(),
{
    if actions.len() > 0 {
        lemma_no_endings(actions.drop_last());
    }
}

/// Actions of which just one reports an end have one ending.
proof fn lemma_one_ending(actions: Seq<RecvActionView>, k: int)
    requires
        0 <= k < actions.len(),
        forall|i: int|
            #![trigger actions[i]]
            0 <= i < actions.len() ==> (is_ending(actions[i]) <==> i == k),
    ensures
        endings(actions) == 1,
    decreases actions.len(),
{
    let front = actions.drop_last();
    if k < front.len() {
        lemma_one_ending(front, k);
    } else {
        lemma_no_endings(front);
    }
}

/// A step reports an end just if it closes the receiver.
proof fn lemma_step_endings(root: PathView, state: RecvStateView, input: RecvInputView)
    requires
        state !is Closed,
    ensures
        endings(recv_step(root, state, input).1) == (if recv_step(
            root,
            state,
            input,
        ).0 is Closed {
            1nat
        } else {
            0
        }),
{
    let (after, actions) = recv_step(root, state, input);
    if after is Closed {
        let k: int = match (state, input) {
            (RecvStateView::Waiting, RecvInputView::Message(Ok(RequestView::SendPatch(_)))) => 2,
            (RecvStateView::Waiting, RecvInputView::Message(Ok(RequestView::Ack))) => 1,
            (RecvStateView::Applying { .. }, RecvInputView::Applied(Ok(()))) => 3,
            _ => 0,
        };
        lemma_one_ending(actions, k);
    } else {
        lemma_no_endings(actions);
    }
}

/// A run reports to the user that it has ended, well or badly, once if the receiver is
/// closed at its end, and never before.
pub proof fn lemma_run_ends_once(
    root: PathView,
    state: RecvStateView,
    inputs: Seq<RecvInputView>,
)
    requires
        state !is Closed,
    ensures
        endings(recv_run(root, state, inputs).1) == (if recv_run(root, state, inputs).0 is Closed {
            1nat
        } else {
            0
        }),
    decreases inputs.len(),
{
    if inputs.len() > 0 {
        let (before, done) = recv_run(root, state, inputs.drop_last());
        let (after, actions) = recv_step(root, before, inputs.last());
        lemma_run_ends_once(root, state, inputs.drop_last());
        lemma_endings_concat(done, actions);
        if before is Closed {
            lemma_no_endings(actions);
        } else {
            lemma_step_endings(root, before, inputs.last());
        }
    }
}

/// In a run, an acknowledgement comes with the report that all is finished, and the
/// sender is told of a failure just where the user is.
pub proof fn lemma_run_reports(root: PathView, state: RecvStateView, inputs: Seq<RecvInputView>)
    ensures
        ({
            let actions = recv_run(root, state, inputs).1;
            &&& actions.contains(RecvActionView::Send(ReplyView::Ack)) ==> actions.contains(
                RecvActionView::Emit(RecvEventView::Finished),
            )
            &&& forall|text: Seq<char>|
                #![trigger actions.contains(RecvActionView::Send(ReplyView::Error(text)))]
                actions.contains(RecvActionView::Send(ReplyView::Error(text)))
                    ==> actions.contains(RecvActionView::Emit(RecvEventView::Error(text)))
        }),
    decreases inputs.len(),
{
    broadcast use vstd::seq_lib::lemma_seq_concat_contains_all_elements;

    if inputs.len() > 0 {
        let (before, done) = recv_run(root, state, inputs.drop_last());
        let (after, actions) = recv_step(root, before, inputs.last());
        let all = done + actions;
        let finished = RecvActionView::Emit(RecvEventView::Finished);
        lemma_run_reports(root, state, inputs.drop_last());
        if actions.contains(RecvActionView::Send(ReplyView::Ack)) {
            let k = if before is Waiting {
                2
            } else {
                3int
            };
            lemma_acknowledged_is_applied(root, before, inputs.last());
            assert(actions[k] == finished);
        }
        assert forall|text: Seq<char>|
            #![trigger all.contains(RecvActionView::Send(ReplyView::Error(text)))]
            all.contains(RecvActionView::Send(ReplyView::Error(text))) implies all.contains(
            RecvActionView::Emit(RecvEventView::Error(text)),
        ) by {
            let told = RecvActionView::Send(ReplyView::Error(text));
            let shown = RecvActionView::Emit(RecvEventView::Error(text));
            if actions.contains(told) {
                let i = choose|i: int| 0 <= i < actions.len() && actions[i] == told;
                assert(actions[0] == shown);
                assert(actions.contains(shown));
            } else {
                assert(done.contains(told));
                assert(done.contains(shown));
            }
        }
    }
}

/// How the receiver answers a message: a request by walking its tree, word that there is
/// nothing to do by finishing, a patch by its first change or, if it has none, by an
/// acknowledgement, and a broken stream by telling the user why and stopping.
pub proof fn lemma_answers(root: PathView, changes: Seq<ChangeView>, text: Seq<char>)
    ensures
        ({
            let waiting = RecvStateView::Waiting;
            &&& recv_step(root, waiting, RecvInputView::Message(Ok(RequestView::RequestSnapshot)))
                == (RecvStateView::Walking, seq![RecvActionView::Walk])
            &&& recv_step(root, waiting, RecvInputView::Message(Ok(RequestView::Ack))) == (
                RecvStateView::Closed,
                seq![
                    RecvActionView::Finish,
                    RecvActionView::Emit(RecvEventView::Finished),
                    RecvActionView::Stop,
                ],
            )
            &&& recv_step(root, waiting, RecvInputView::Message(Err(text))) == (
                RecvStateView::Closed,
                seq![RecvActionView::Emit(RecvEventView::Error(text)), RecvActionView::Stop],
            )
            &&& changes.len() == 0 ==> recv_step(
                root,
                waiting,
                RecvInputView::Message(Ok(RequestView::SendPatch(changes))),
            ) == (
                RecvStateView::Closed,
                seq![
                    RecvActionView::Send(ReplyView::Ack),
                    RecvActionView::Finish,
                    RecvActionView::Emit(RecvEventView::Finished),
                    RecvActionView::Drain,
                    RecvActionView::Stop,
                ],
            )
            &&& changes.len() > 0 ==> recv_step(
                root,
                waiting,
                RecvInputView::Message(Ok(RequestView::SendPatch(changes))),
            ) == (
                RecvStateView::Applying { path: changes[0].place(), rest: changes.skip(1) },
                seq![
                    RecvActionView::Emit(
                        RecvEventView::EntryReceiving { path: changes[0].place() },
                    ),
                    RecvActionView::Apply(changes[0]),
                ],
            )
        }),
{
}

/// How the receiver reports its tree: it sends the snapshot of what a walk found, and says
/// how many entries it sent. If there is no snapshot it tells user and sender why and
/// stops; if it cannot be sent it tells the user.
pub proof fn lemma_tree_is_reported(
    root: PathView,
    walk: Seq<PathEntryView>,
    entry_count: usize,
    text: Seq<char>,
)
    ensures
        ({
            let walked = recv_step(root, RecvStateView::Walking, RecvInputView::Walked(Ok(walk)));
            let reporting = RecvStateView::Reporting { entry_count };
            let unwalked = "Failed to walk root directory: "@ + text;
            let elsewhere = "Failed to build snapshot map: "@ + crate::error::message_of(
                crate::error::ErrorView::StripPrefix,
            );
            &&& match crate::listing::collected(root, walk, walk.len()) {
                Ok(tree) => walked == (
                    RecvStateView::Reporting { entry_count: tree.len() as usize },
                    seq![RecvActionView::Send(ReplyView::Snapshot(tree))],
                ),
                Err(e) => walked == (
                    RecvStateView::Closed,
                    seq![
                        RecvActionView::Emit(RecvEventView::Error(elsewhere)),
                        RecvActionView::Send(ReplyView::Error(elsewhere)),
                        RecvActionView::Stop,
                    ],
                ),
            }
            &&& recv_step(root, RecvStateView::Walking, RecvInputView::Walked(Err(text))) == (
                RecvStateView::Closed,
                seq![
                    RecvActionView::Emit(RecvEventView::Error(unwalked)),
                    RecvActionView::Send(ReplyView::Error(unwalked)),
                    RecvActionView::Stop,
                ],
            )
            &&& recv_step(root, reporting, RecvInputView::Sent(Ok(()))) == (
                RecvStateView::Waiting,
                seq![
                    RecvActionView::Emit(RecvEventView::SnapshotSent { entry_count }),
                    RecvActionView::Receive,
                ],
            )
            &&& recv_step(root, reporting, RecvInputView::Sent(Err(text))) == (
                RecvStateView::Closed,
                seq![RecvActionView::Emit(RecvEventView::Error(text)), RecvActionView::Stop],
            )
        }),
{
    crate::listing::lemma_collected_fails(root, walk, walk.len());
}

/// How the receiver goes through a patch: a change that is applied is reported, and the
/// next is taken up or the patch acknowledged; one that is not makes the receiver tell
/// user and sender which and why, and stop.
pub proof fn lemma_patch_goes_on(
    root: PathView,
    path: PathView,
    rest: Seq<ChangeView>,
    text: Seq<char>,
)
    ensures
        ({
            let applying = RecvStateView::Applying { path, rest };
            let reason = "Failed to apply patch entry for "@ + crate::text::text_of(path) + ": "@
                + text;
            let done = RecvActionView::Emit(RecvEventView::EntryApplied { path });
            &&& recv_step(root, applying, RecvInputView::Applied(Err(text))) == (
                RecvStateView::Closed,
                seq![
                    RecvActionView::Emit(RecvEventView::Error(reason)),
                    RecvActionView::Send(ReplyView::Error(reason)),
                    RecvActionView::Stop,
                ],
            )
            &&& rest.len() == 0 ==> recv_step(root, applying, RecvInputView::Applied(Ok(()))) == (
                RecvStateView::Closed,
                seq![
                    done,
                    RecvActionView::Send(ReplyView::Ack),
                    RecvActionView::Finish,
                    RecvActionView::Emit(RecvEventView::Finished),
                    RecvActionView::Drain,
                    RecvActionView::Stop,
                ],
            )
            &&& rest.len() > 0 ==> recv_step(root, applying, RecvInputView::Applied(Ok(()))) == (
                RecvStateView::Applying { path: rest[0].place(), rest: rest.skip(1) },
                seq![
                    done,
                    RecvActionView::Emit(RecvEventView::EntryReceiving { path: rest[0].place() }),
                    RecvActionView::Apply(rest[0]),
                ],
            )
        }),
{
    let applying = RecvStateView::Applying { path, rest };
    let done = RecvActionView::Emit(RecvEventView::EntryApplied { path });
    let actions = recv_step(root, applying, RecvInputView::Applied(Ok(()))).1;
    if rest.len() == 0 {
        assert(actions =~= seq![
            done,
            RecvActionView::Send(ReplyView::Ack),
            RecvActionView::Finish,
            RecvActionView::Emit(RecvEventView::Finished),
            RecvActionView::Drain,
            RecvActionView::Stop,
        ]);
    } else {
        assert(actions =~= seq![
            done,
            RecvActionView::Emit(RecvEventView::EntryReceiving { path: rest[0].place() }),
            RecvActionView::Apply(rest[0]),
        ]);
    }
}

/// An input that the receiver does not wait for changes nothing.
pub proof fn lemma_other_inputs(root: PathView, state: RecvStateView, input: RecvInputView)
    requires
        match input {
            RecvInputView::Message(_) => state !is Waiting,
            RecvInputView::Walked(_) => state !is Walking,
            RecvInputView::Sent(_) => state !is Reporting,
            RecvInputView::Applied(_) => state !is Applying,
        },
    ensures
        recv_step(root, state, input).0 == state,
        recv_step(root, state, input).1.len() == 0,
{
}

proof fn lemma_applied_in_concat(a: Seq<RecvActionView>, b: Seq<RecvActionView>)
    ensures
        applied_in(a + b) == applied_in(a) + applied_in(b),
    decreases b.len(),
{
    if b.len() == 0 {
        assert(a + b =~= a);
        assert(applied_in(a) + applied_in(b) =~= applied_in(a));
    } else {
        let front = b.drop_last();
        lemma_applied_in_concat(a, front);
        assert(a + b =~= (a + front).push(b.last()));
        assert(front.push(b.last()) =~= b);
        lemma_applied_in_push(a + front, b.last());
        lemma_applied_in_push(front, b.last());
        assert(applied_in(a + b) =~= applied_in(a) + applied_in(b));
    }
}

proof fn lemma_none_applied(actions: Seq<RecvActionView>)
    requires
        forall|i: int| #![trigger actions[i]] 0 <= i < actions.len() ==> actions[i] !is Apply,
    ensures
        applied_in(actions) == Seq::<ChangeView>::empty(),
    decreases actions.len(),
{
    if actions.len() > 0 {
        lemma_none_applied(actions.drop_last());
    }
}

/// Whether the inputs hold a patch of just these changes.
pub open spec fn has_patch(inputs: Seq<RecvInputView>, changes: Seq<ChangeView>) -> bool {
    inputs.contains(RecvInputView::Message(Ok(RequestView::SendPatch(changes))))
}

/// In any run, what the receiver applies is the beginning of a patch that it was sent, and
/// when it acknowledges it has applied all of that patch, in order.
pub proof fn lemma_run_applies(root: PathView, inputs: Seq<RecvInputView>)
    ensures
        ({
            let (state, actions) = recv_run(root, RecvStateView::Waiting, inputs);
            &&& state is Waiting || state is Walking || state is Reporting ==> applied_in(
                actions,
            ).len() == 0
            &&& state matches RecvStateView::Applying { rest, .. } ==> has_patch(
                inputs,
                applied_in(actions) + rest,
            )
            &&& actions.contains(RecvActionView::Send(ReplyView::Ack)) ==> has_patch(
                inputs,
                applied_in(actions),
            )
            &&& actions.contains(RecvActionView::Send(ReplyView::Ack)) ==> state is Closed
        }),
    decreases inputs.len(),
{
    broadcast use vstd::seq_lib::lemma_seq_concat_contains_all_elements;

    if inputs.len() > 0 {
        let front = inputs.drop_last();
        let input = inputs.last();
        let (before, done) = recv_run(root, RecvStateView::Waiting, front);
        let (after, actions) = recv_step(root, before, input);
        let ack = RecvActionView::Send(ReplyView::Ack);
        lemma_run_applies(root, front);
        lemma_applied_in_concat(done, actions);
        lemma_acknowledged_is_applied(root, before, input);
        assert forall|c: Seq<ChangeView>| has_patch(front, c) implies has_patch(inputs, c) by {
            let m = RecvInputView::Message(Ok(RequestView::SendPatch(c)));
            let i = choose|i: int| 0 <= i < front.len() && front[i] == m;
            assert(inputs[i] == m);
        }
        match (before, input) {
            (RecvStateView::Waiting, RecvInputView::Message(Ok(RequestView::SendPatch(c)))) => {
                assert(inputs[inputs.len() - 1] == input);
                assert(has_patch(inputs, c));
                if c.len() == 0 {
                    lemma_none_applied(actions);
                    assert(applied_in(done) + applied_in(actions) =~= c);
                } else {
                    let first = seq![actions[0]];
                    lemma_none_applied(first);
                    lemma_applied_in_push(first, actions[1]);
                    assert(first.push(actions[1]) =~= actions);
                    assert(applied_in(done) + applied_in(actions) + c.skip(1) =~= c);
                }
            },
            (RecvStateView::Applying { path, rest }, RecvInputView::Applied(Ok(()))) => {
                if rest.len() == 0 {
                    lemma_none_applied(actions);
                    assert(applied_in(done) + applied_in(actions) =~= applied_in(done) + rest);
                } else {
                    let first = actions.take(2);
                    lemma_none_applied(first);
                    lemma_applied_in_push(first, actions[2]);
                    assert(first.push(actions[2]) =~= actions);
                    assert(applied_in(done) + applied_in(actions) + rest.skip(1) =~= applied_in(
                        done,
                    ) + rest);
                }
            },
            _ => {
                lemma_none_applied(actions);
                assert(applied_in(done) + applied_in(actions) =~= applied_in(done));
            },
        }
    }
}

/// The views of actions and inputs show their kind and all that they hold.
pub proof fn lemma_recv_views(action: RecvAction, input: RecvInput, actions: Seq<RecvAction>)
    ensures
        action matches RecvAction::Emit(event) ==> action@ == RecvActionView::Emit(event@),
        action matches RecvAction::Receive ==> action@ is Receive,
        action matches RecvAction::Walk ==> action@ is Walk,
        action matches RecvAction::Send(reply) ==> action@ == RecvActionView::Send(reply@),
        action matches RecvAction::Apply(change) ==> action@ == RecvActionView::Apply(change@),
        action matches RecvAction::Finish ==> action@ is Finish,
        action matches RecvAction::Drain ==> action@ is Drain,
        action matches RecvAction::Stop ==> action@ is Stop,
        input matches RecvInput::Message(Ok(message)) ==> input@ == RecvInputView::Message(
            Ok(message@),
        ),
        input matches RecvInput::Message(Err(text)) ==> input@ == RecvInputView::Message(
            Err(text@),
        ),
        input matches RecvInput::Walked(Ok(walk)) ==> input@ == RecvInputView::Walked(
            Ok(crate::listing::entry_views(walk@)),
        ),
        input matches RecvInput::Walked(Err(text)) ==> input@ == RecvInputView::Walked(Err(text@)),
        input matches RecvInput::Sent(Ok(())) ==> input@ == RecvInputView::Sent(Ok(())),
        input matches RecvInput::Sent(Err(text)) ==> input@ == RecvInputView::Sent(Err(text@)),
        input matches RecvInput::Applied(Ok(())) ==> input@ == RecvInputView::Applied(Ok(())),
        input matches RecvInput::Applied(Err(text)) ==> input@ == RecvInputView::Applied(
            Err(text@),
        ),
        recv_action_views(actions).len() == actions.len(),
        forall|i: int|
            #![trigger recv_action_views(actions)[i]]
            0 <= i < actions.len() ==> recv_action_views(actions)[i] == actions[i]@,
{
}

/// The receiving side of a synchronisation.
pub struct RecvSession {
    root: FilePath,
    state: RecvState,
}

fn refuse(text: String) -> (r: Vec<RecvAction>)
    ensures
        recv_action_views(r@) == refusal(text@),
{
    let mut r: Vec<RecvAction> = Vec::new();
    r.push(RecvAction::Emit(RecvEvent::Error(text.clone())));
    r.push(RecvAction::Send(ReceiverToSender::Error(text)));
    r.push(RecvAction::Stop);
    assert(recv_action_views(r@) =~= refusal(text@));
    r
}

fn break_down(text: String) -> (r: Vec<RecvAction>)
    ensures
        recv_action_views(r@) == breakdown(text@),
{
    let mut r: Vec<RecvAction> = Vec::new();
    r.push(RecvAction::Emit(RecvEvent::Error(text)));
    r.push(RecvAction::Stop);
    assert(recv_action_views(r@) =~= breakdown(text@));
    r
}

impl RecvSession {
    /// The root of the receiver's tree.
    pub closed spec fn root(&self) -> PathView {
        self.root@
    }

    /// What the receiver waits for.
    pub closed spec fn state(&self) -> RecvStateView {
        self.state@
    }

    /// Starts to receive into the tree below `root`.
    pub fn open(root: FilePath) -> (r: (RecvSession, Vec<RecvAction>))
        ensures
            r.0.root() == root@,
            r.0.state() == RecvStateView::Waiting,
            recv_action_views(r.1@) == seq![
                RecvActionView::Emit(RecvEventView::Started),
                RecvActionView::Receive,
            ],
    {
        let mut actions: Vec<RecvAction> = Vec::new();
        actions.push(RecvAction::Emit(RecvEvent::Started));
        actions.push(RecvAction::Receive);
        assert(recv_action_views(actions@) =~= seq![
            RecvActionView::Emit(RecvEventView::Started),
            RecvActionView::Receive,
        ]);
        (RecvSession { root, state: RecvState::Waiting }, actions)
    }

    /// Turns to the next change, the last of `left`, and adds what to do to `actions`.
    fn turn(left: Vec<SnapshotEntry>, actions: &mut Vec<RecvAction>) -> (r: RecvState)
        ensures
            r@ == turn_to(crate::snapshot::change_views(left@).reverse()).0,
            recv_action_views(final(actions)@) == recv_action_views(old(actions)@) + turn_to(
                crate::snapshot::change_views(left@).reverse(),
            ).1,
    {
        let ghost changes = crate::snapshot::change_views(left@).reverse();
        let ghost before = actions@;
        let mut left = left;
        match left.pop() {
            None => {
                actions.push(RecvAction::Send(ReceiverToSender::Ack));
                actions.push(RecvAction::Finish);
                actions.push(RecvAction::Emit(RecvEvent::Finished));
                actions.push(RecvAction::Drain);
                actions.push(RecvAction::Stop);
                assert(recv_action_views(actions@) =~= recv_action_views(before) + completion());
                RecvState::Closed
            },
            Some(change) => {
                assert(changes[0] == change@);
                assert(crate::snapshot::change_views(left@).reverse() =~= changes.skip(1));
                let path = change.path().clone();
                actions.push(
                    RecvAction::Emit(RecvEvent::EntryReceiving { path: path.clone() }),
                );
                actions.push(RecvAction::Apply(change));
                assert(recv_action_views(actions@) =~= recv_action_views(before) + turn_to(
                    changes,
                ).1);
                RecvState::Applying { path, rest: left }
            },
        }
    }

    /// Goes on after an input.
    pub fn step(&mut self, input: RecvInput) -> (r: Vec<RecvAction>)
        ensures
            final(self).root() == old(self).root(),
            (final(self).state(), recv_action_views(r@)) == recv_step(
                old(self).root(),
                old(self).state(),
                input@,
            ),
    {
        let mut state = RecvState::Closed;
        std::mem::swap(&mut state, &mut self.state);
        let mut actions: Vec<RecvAction> = Vec::new();
        assert(recv_action_views(actions@) =~= Seq::<RecvActionView>::empty());
        match (state, input) {
            (RecvState::Waiting, RecvInput::Message(Err(text))) => break_down(text),
            (RecvState::Waiting, RecvInput::Message(Ok(SenderToReceiver::RequestSnapshot))) => {
                self.state = RecvState::Walking;
                actions.push(RecvAction::Walk);
                assert(recv_action_views(actions@) =~= seq![RecvActionView::Walk]);
                actions
            },
            (RecvState::Waiting, RecvInput::Message(Ok(SenderToReceiver::SendPatch(changes)))) => {
                let ghost views = crate::snapshot::change_views(changes@);
                let left = reversed(changes);
                assert(crate::snapshot::change_views(left@).reverse() =~= views);
                self.state = Self::turn(left, &mut actions);
                assert(recv_action_views(actions@) =~= turn_to(views).1);
                actions
            },
            (RecvState::Waiting, RecvInput::Message(Ok(SenderToReceiver::Ack))) => {
                actions.push(RecvAction::Finish);
                actions.push(RecvAction::Emit(RecvEvent::Finished));
                actions.push(RecvAction::Stop);
                assert(recv_action_views(actions@) =~= seq![
                    RecvActionView::Finish,
                    RecvActionView::Emit(RecvEventView::Finished),
                    RecvActionView::Stop,
                ]);
                actions
            },
            (RecvState::Walking, RecvInput::Walked(Err(text))) => {
                refuse(concat_text("Failed to walk root directory: ", text.as_str()))
            },
            (RecvState::Walking, RecvInput::Walked(Ok(entries))) => {
                match Snapshot::collect(&self.root, entries) {
                    Err(e) => {
                        refuse(
                            concat_text("Failed to build snapshot map: ", e.message().as_str()),
                        )
                    },
                    Ok(snapshot) => {
                        self.state = RecvState::Reporting { entry_count: snapshot.len() };
                        let ghost view = snapshot@;
                        actions.push(RecvAction::Send(ReceiverToSender::Snapshot(snapshot)));
                        assert(recv_action_views(actions@) =~= seq![
                            RecvActionView::Send(ReplyView::Snapshot(view)),
                        ]);
                        actions
                    },
                }
            },
            (RecvState::Reporting { .. }, RecvInput::Sent(Err(text))) => break_down(text),
            (RecvState::Reporting { entry_count }, RecvInput::Sent(Ok(()))) => {
                self.state = RecvState::Waiting;
                actions.push(RecvAction::Emit(RecvEvent::SnapshotSent { entry_count }));
                actions.push(RecvAction::Receive);
                assert(recv_action_views(actions@) =~= on_reported(entry_count, Ok(())).1);
                actions
            },
            (RecvState::Applying { path, .. }, RecvInput::Applied(Err(text))) => {
                let front = concat_text(
                    "Failed to apply patch entry for ",
                    path.display().as_str(),
                );
                let front = concat_text(front.as_str(), ": ");
                refuse(concat_text(front.as_str(), text.as_str()))
            },
            (RecvState::Applying { path, rest }, RecvInput::Applied(Ok(()))) => {
                let ghost views = crate::snapshot::change_views(rest@).reverse();
                let ghost place = path@;
                actions.push(RecvAction::Emit(RecvEvent::EntryApplied { path }));
                assert(recv_action_views(actions@) =~= seq![
                    RecvActionView::Emit(RecvEventView::EntryApplied { path: place }),
                ]);
                self.state = Self::turn(rest, &mut actions);
                actions
            },
            (state, _) => {
                self.state = state;
                actions
            },
        }
    }
}

} // verus!
