//! What the sending side does, decided step by step.

use crate::diff::DiffSession;
use crate::dirwalker::{PathEntry, PathEntryView};
use crate::error::{Error, ErrorView};
use crate::listing::{Snapshot, SnapshotView};
use crate::path::{FilePath, PathView};
use crate::snapshot::{total_size, ChangeView, SnapshotEntry};
use crate::sync::{
    ReceiverToSender, ReplyView, RequestView, SendEvent, SendEventView, SenderToReceiver,
};
use vstd::prelude::*;

verus! {

/// Why a synchronisation failed: for a reason of the surroundings, or its own.
#[derive(Debug)]
pub enum SendFailure<E> {
    Outside(E),
    Sync(Error),
}

/// What a failure says.
pub enum FailureView<E> {
    Outside(E),
    Sync(ErrorView),
}

impl<E> View for SendFailure<E> {
    type V = FailureView<E>;

    open spec fn view(&self) -> FailureView<E> {
        match self {
            SendFailure::Outside(e) => FailureView::Outside(*e),
            SendFailure::Sync(e) => FailureView::Sync(e@),
        }
    }
}

/// What the sender has to do next. Of a list of actions, the outcome of the last is
/// the next input; that the user takes no reports counts for nothing.
pub enum SendAction<E> {
    /// Report to the user.
    Emit(SendEvent),
    /// Send a message.
    Send(SenderToReceiver),
    /// Receive a message.
    Receive,
    /// Walk the tree below the root.
    Walk,
    /// Read a file.
    Read(FilePath),
    /// Declare that nothing more will be sent.
    Finish,
    /// End with this result.
    Return(Result<(), SendFailure<E>>),
}

/// What an action says.
pub enum SendActionView<E> {
    Emit(SendEventView),
    Send(RequestView),
    Receive,
    Walk,
    Read(PathView),
    Finish,
    Return(Result<(), FailureView<E>>),
}

impl<E> View for SendAction<E> {
    type V = SendActionView<E>;

    open spec fn view(&self) -> SendActionView<E> {
        match self {
            SendAction::Emit(event) => SendActionView::Emit(event@),
            SendAction::Send(message) => SendActionView::Send(message@),
            SendAction::Receive => SendActionView::Receive,
            SendAction::Walk => SendActionView::Walk,
            SendAction::Read(path) => SendActionView::Read(path@),
            SendAction::Finish => SendActionView::Finish,
            SendAction::Return(Ok(())) => SendActionView::Return(Ok(())),
            SendAction::Return(Err(e)) => SendActionView::Return(Err(e@)),
        }
    }
}

/// What a list of actions says.
pub open spec fn send_action_views<E>(actions: Seq<SendAction<E>>) -> Seq<SendActionView<E>> {
    Seq::new(actions.len(), |i: int| actions[i]@)
}

/// What came of an action. A failure of the surroundings is passed on as it is.
pub enum SendInput<E> {
    /// A message was sent.
    Sent(Result<(), E>),
    /// A message came, or none will.
    Message(Result<ReceiverToSender, E>),
    /// The tree was walked.
    Walked(Result<Vec<PathEntry>, E>),
    /// A file was read.
    Contents(Result<Vec<u8>, E>),
    /// It was declared that nothing more will be sent.
    Finished(Result<(), E>),
}

/// What an input says.
pub enum SendInputView<E> {
    Sent(Result<(), E>),
    Message(Result<ReplyView, E>),
    Walked(Result<Seq<PathEntryView>, E>),
    Contents(Result<Seq<u8>, E>),
    Finished(Result<(), E>),
}

impl<E> View for SendInput<E> {
    type V = SendInputView<E>;

    open spec fn view(&self) -> SendInputView<E> {
        match self {
            SendInput::Sent(outcome) => SendInputView::Sent(*outcome),
            SendInput::Message(Ok(message)) => SendInputView::Message(Ok(message@)),
            SendInput::Message(Err(e)) => SendInputView::Message(Err(*e)),
            SendInput::Walked(Ok(entries)) => SendInputView::Walked(
                Ok(crate::listing::entry_views(entries@)),
            ),
            SendInput::Walked(Err(e)) => SendInputView::Walked(Err(*e)),
            SendInput::Contents(Ok(data)) => SendInputView::Contents(Ok(data@)),
            SendInput::Contents(Err(e)) => SendInputView::Contents(Err(*e)),
            SendInput::Finished(outcome) => SendInputView::Finished(*outcome),
        }
    }
}

/// What the sender waits for.
enum SendState {
    Requesting,
    Listening,
    Walking { old: Snapshot },
    Reading { session: DiffSession },
    Patching,
    Acknowledging,
    Finishing,
    Closed,
}

/// What the sender waits for.
pub enum SendStateView {
    /// The request for a snapshot to be sent.
    Requesting,
    /// A message.
    Listening,
    /// The end of a walk, to compare with what the receiver has.
    Walking { old: SnapshotView },
    /// The contents of file `known.len()` of the new tree.
    Reading { old: SnapshotView, new: SnapshotView, known: Seq<Seq<u8>> },
    /// The changes to be sent.
    Patching,
    /// The word that there is nothing to do to be sent.
    Acknowledging,
    /// The end of what it sends to be declared.
    Finishing,
    /// Nothing.
    Closed,
}

impl View for SendState {
    type V = SendStateView;

    closed spec fn view(&self) -> SendStateView {
        match self {
            SendState::Requesting => SendStateView::Requesting,
            SendState::Listening => SendStateView::Listening,
            SendState::Walking { old } => SendStateView::Walking { old: old@ },
            SendState::Reading { session } => SendStateView::Reading {
                old: session.old_tree(),
                new: session.new_tree(),
                known: session.known(),
            },
            SendState::Patching => SendStateView::Patching,
            SendState::Acknowledging => SendStateView::Acknowledging,
            SendState::Finishing => SendStateView::Finishing,
            SendState::Closed => SendStateView::Closed,
        }
    }
}

/// A step of the sender: its next state and what it does.
pub type SendStep<E> = (SendStateView, Seq<SendActionView<E>>);

/// The sender ends because of a failure of the surroundings.
pub open spec fn give_up<E>(e: E) -> SendStep<E> {
    (SendStateView::Closed, seq![SendActionView::Return(Err(FailureView::Outside(e)))])
}

/// The sender has found the changes. If there are none it only says so.
pub open spec fn announce<E>(changes: Seq<ChangeView>) -> SendStep<E> {
    if changes.len() == 0 {
        (
            SendStateView::Acknowledging,
            seq![
                SendActionView::Emit(
                    SendEventView::DiffComputed { total_entries: 0, total_bytes: 0 },
                ),
                SendActionView::Send(RequestView::Ack),
            ],
        )
    } else {
        (
            SendStateView::Patching,
            seq![
                SendActionView::Emit(
                    SendEventView::DiffComputed {
                        total_entries: changes.len() as usize,
                        total_bytes: crate::snapshot::as_count(
                            crate::snapshot::changes_size(changes, changes.len()),
                        ),
                    },
                ),
                SendActionView::Send(RequestView::SendPatch(changes)),
            ],
        )
    }
}

/// The contents `known`, with nothing for the directories up to the next file.
pub open spec fn past_dirs(new: SnapshotView, known: Seq<Seq<u8>>) -> Seq<Seq<u8>> {
    known + Seq::new(
        (crate::diff::next_file(new, known.len()) - known.len()) as nat,
        |i: int| Seq::<u8>::empty(),
    )
}

/// The sender goes on comparing: it asks for the next file, if there is one, and
/// else has found the changes.
pub open spec fn compare<E>(
    old: SnapshotView,
    new: SnapshotView,
    known: Seq<Seq<u8>>,
) -> SendStep<E> {
    if known.len() < new.len() {
        (
            SendStateView::Reading { old, new, known },
            seq![SendActionView::Read(new[known.len() as int].1.location())],
        )
    } else {
        announce(crate::diff::changes(old, new, known))
    }
}

/// What the sender does about a message.
pub open spec fn on_reply<E>(message: Result<ReplyView, E>) -> SendStep<E> {
    match message {
        Err(e) => give_up(e),
        Ok(ReplyView::Snapshot(old)) => (
            SendStateView::Walking { old },
            seq![
                SendActionView::Emit(
                    SendEventView::SnapshotReceived { entry_count: old.len() as usize },
                ),
                SendActionView::Walk,
            ],
        ),
        Ok(ReplyView::Ack) => (SendStateView::Finishing, seq![SendActionView::Finish]),
        Ok(ReplyView::Error(text)) => (
            SendStateView::Closed,
            seq![
                SendActionView::Emit(SendEventView::Error(text)),
                SendActionView::Return(Err(FailureView::Sync(ErrorView::Receiver(text)))),
            ],
        ),
    }
}

/// What the sender does once its tree was walked.
pub open spec fn on_own_walk<E>(
    root: PathView,
    old: SnapshotView,
    outcome: Result<Seq<PathEntryView>, E>,
) -> SendStep<E> {
    match outcome {
        Err(e) => give_up(e),
        Ok(entries) => match crate::listing::collected(root, entries, entries.len()) {
            Err(e) => (
                SendStateView::Closed,
                seq![SendActionView::Return(Err(FailureView::Sync(e)))],
            ),
            Ok(new) => compare(old, new, past_dirs(new, Seq::empty())),
        },
    }
}

/// What the sender does once a file was read.
pub open spec fn on_contents<E>(
    old: SnapshotView,
    new: SnapshotView,
    known: Seq<Seq<u8>>,
    outcome: Result<Seq<u8>, E>,
) -> SendStep<E> {
    match outcome {
        Err(e) => give_up(e),
        Ok(data) => compare(old, new, past_dirs(new, known.push(data))),
    }
}

/// What the sender does about an input. One that it does not wait for changes nothing.
pub open spec fn send_step<E>(
    root: PathView,
    state: SendStateView,
    input: SendInputView<E>,
) -> SendStep<E> {
    match (state, input) {
        (SendStateView::Requesting, SendInputView::Sent(Err(e))) => give_up(e),
        (SendStateView::Requesting, SendInputView::Sent(Ok(()))) => (
            SendStateView::Listening,
            seq![SendActionView::Receive],
        ),
        (SendStateView::Listening, SendInputView::Message(message)) => on_reply(message),
        (SendStateView::Walking { old }, SendInputView::Walked(outcome)) => on_own_walk(
            root,
            old,
            outcome,
        ),
        (
            SendStateView::Reading { old, new, known },
            SendInputView::Contents(outcome),
        ) => on_contents(old, new, known, outcome),
        (SendStateView::Patching, SendInputView::Sent(Err(e))) => give_up(e),
        (SendStateView::Patching, SendInputView::Sent(Ok(()))) => (
            SendStateView::Listening,
            seq![SendActionView::Receive],
        ),
        (SendStateView::Acknowledging, SendInputView::Sent(Err(e))) => give_up(e),
        (SendStateView::Acknowledging, SendInputView::Sent(Ok(()))) => (
            SendStateView::Finishing,
            seq![SendActionView::Finish],
        ),
        (SendStateView::Finishing, SendInputView::Finished(Err(e))) => give_up(e),
        (SendStateView::Finishing, SendInputView::Finished(Ok(()))) => (
            SendStateView::Closed,
            seq![SendActionView::Emit(SendEventView::Finished), SendActionView::Return(Ok(()))],
        ),
        _ => (state, Seq::empty()),
    }
}

/// What the sender has done, and waits for, after some inputs.
pub open spec fn send_run<E>(
    root: PathView,
    state: SendStateView,
    inputs: Seq<SendInputView<E>>,
) -> SendStep<E>
    decreases inputs.len(),
{
    if inputs.len() == 0 {
        (state, Seq::empty())
    } else {
        let (before, done) = send_run(root, state, inputs.drop_last());
        let (after, actions) = send_step(root, before, inputs.last());
        (after, done + actions)
    }
}

/// The files among the first `n` entries of a tree being read, with what they hold.
pub open spec fn readings<E>(new: SnapshotView, contents: Seq<Seq<u8>>, n: nat) -> Seq<
    SendInputView<E>,
>
    decreases n,
{
    if n == 0 {
        Seq::empty()
    } else {
        let before = readings(new, contents, (n - 1) as nat);
        if new[n - 1].1 is File {
            before.push(SendInputView::Contents(Ok(contents[n - 1])))
        } else {
            before
        }
    }
}

/// What the sender does to have the files among the first `n` entries read.
pub open spec fn reads<E>(new: SnapshotView, n: nat) -> Seq<SendActionView<E>>
    decreases n,
{
    if n == 0 {
        Seq::empty()
    } else {
        let before = reads(new, (n - 1) as nat);
        if new[n - 1].1 is File {
            before.push(SendActionView::Read(new[n - 1].1.location()))
        } else {
            before
        }
    }
}

proof fn lemma_send_run_push<E>(
    root: PathView,
    state: SendStateView,
    inputs: Seq<SendInputView<E>>,
    input: SendInputView<E>,
)
    ensures
        ({
            let (before, done) = send_run(root, state, inputs);
            let (after, actions) = send_step(root, before, input);
            send_run(root, state, inputs.push(input)) == (after, done + actions)
        }),
{
    assert(inputs.push(input).drop_last() =~= inputs);
}

/// Where directories have no contents, passing over one is knowing them.
proof fn lemma_past_dir(new: SnapshotView, known: Seq<Seq<u8>>)
    requires
        known.len() < new.len(),
        new[known.len() as int].1 is Dir,
    ensures
        past_dirs(new, known.push(Seq::empty())) == past_dirs(new, known),
{
    let n = known.len();
    crate::diff::lemma_next_file(new, n + 1);
    assert(crate::diff::next_file(new, n) == crate::diff::next_file(new, n + 1));
    assert(past_dirs(new, known.push(Seq::empty())) =~= past_dirs(new, known));
}

/// After the files among the first `n` entries the sender goes on comparing.
proof fn lemma_comparison_so_far<E>(
    root: PathView,
    old: SnapshotView,
    walk: Seq<PathEntryView>,
    new: SnapshotView,
    contents: Seq<Seq<u8>>,
    n: nat,
)
    requires
        crate::listing::collected(root, walk, walk.len()) == Ok::<SnapshotView, ErrorView>(new),
        contents.len() == new.len(),
        forall|i: int|
            #![trigger new[i]]
            0 <= i < new.len() && new[i].1 is Dir ==> contents[i].len() == 0,
        n <= new.len(),
    ensures
        ({
            let inputs = seq![SendInputView::<E>::Walked(Ok(walk))] + readings(new, contents, n);
            let (state, actions) = compare::<E>(old, new, past_dirs(new, contents.take(n as int)));
            send_run(root, SendStateView::Walking { old }, inputs) == (
                state,
                reads(new, n) + actions,
            )
        }),
    decreases n,
{
    let walked = SendInputView::<E>::Walked(Ok(walk));
    let start = SendStateView::Walking { old };
    let known = contents.take(n as int);
    let (state, actions) = compare::<E>(old, new, past_dirs(new, known));
    if n == 0 {
        let none = Seq::<SendInputView<E>>::empty();
        assert(seq![walked] + readings(new, contents, 0) =~= none.push(walked));
        lemma_send_run_push(root, start, none, walked);
        assert(known =~= Seq::empty());
        assert(Seq::<SendActionView<E>>::empty() + actions =~= actions);
    } else {
        let m = (n - 1) as nat;
        let before = seq![walked] + readings::<E>(new, contents, m);
        let earlier = contents.take(m as int);
        lemma_comparison_so_far::<E>(root, old, walk, new, contents, m);
        assert(known =~= earlier.push(contents[m as int]));
        if new[m as int].1 is File {
            let input = SendInputView::<E>::Contents(Ok(contents[m as int]));
            assert(past_dirs(new, earlier) =~= earlier);
            assert(seq![walked] + readings::<E>(new, contents, n) =~= before.push(input));
            lemma_send_run_push(root, start, before, input);
            let read = SendActionView::<E>::Read(new[m as int].1.location());
            assert(reads::<E>(new, m) + seq![read] + actions =~= reads::<E>(new, n) + actions);
        } else {
            assert(contents[m as int] =~= Seq::empty());
            lemma_past_dir(new, earlier);
        }
    }
}

/// The sender reads each file of its tree once, in the order of the tree, and then
/// announces the changes from the receiver's tree to its own.
pub proof fn lemma_changes_are_announced<E>(
    root: PathView,
    old: SnapshotView,
    walk: Seq<PathEntryView>,
    new: SnapshotView,
    contents: Seq<Seq<u8>>,
)
    requires
        crate::listing::collected(root, walk, walk.len()) == Ok::<SnapshotView, ErrorView>(new),
        contents.len() == new.len(),
        forall|i: int|
            #![trigger new[i]]
            0 <= i < new.len() && new[i].1 is Dir ==> contents[i].len() == 0,
    ensures
        ({
            let inputs = seq![SendInputView::<E>::Walked(Ok(walk))] + readings(
                new,
                contents,
                new.len(),
            );
            let (state, actions) = announce::<E>(crate::diff::changes(old, new, contents));
            send_run(root, SendStateView::Walking { old }, inputs) == (
                state,
                reads(new, new.len()) + actions,
            )
        }),
{
    lemma_comparison_so_far::<E>(root, old, walk, new, contents, new.len());
    assert(past_dirs(new, contents.take(new.len() as int)) =~= contents);
}

/// The sender succeeds when it has declared the end of what it sends, and only then; it
/// reports that it has finished.
pub proof fn lemma_success_is_reported<E>(
    root: PathView,
    state: SendStateView,
    input: SendInputView<E>,
)
    ensures
        ({
            let actions = send_step(root, state, input).1;
            &&& actions.contains(SendActionView::Return(Ok(()))) <==> (state is Finishing
                && input is Finished && input->Finished_0 is Ok)
            &&& actions.contains(SendActionView::Return(Ok(()))) <==> actions.contains(
                SendActionView::Emit(SendEventView::Finished),
            )
        }),
{
    let actions = send_step(root, state, input).1;
    match (state, input) {
        (SendStateView::Finishing, SendInputView::Finished(Ok(()))) => {
            assert(actions[0] == SendActionView::<E>::Emit(SendEventView::Finished));
            assert(actions[1] == SendActionView::<E>::Return(Ok(())));
        },
        _ => {},
    }
}

/// The sender is closed when it ends, and only then; it does nothing afterwards.
pub proof fn lemma_sender_closes<E>(root: PathView, state: SendStateView, input: SendInputView<E>)
    ensures
        ({
            let (after, actions) = send_step(root, state, input);
            &&& state is Closed ==> after is Closed && actions.len() == 0
            &&& state !is Closed ==> (after is Closed <==> actions.len() > 0
                && actions.last() is Return)
            &&& forall|i: int|
                #![trigger actions[i]]
                0 <= i < actions.len() && actions[i] is Return ==> i == actions.len() - 1
        }),
{
}

/// A step reports an error to the user just if it returns it as the receiver's.
proof fn lemma_error_is_reported<E>(
    root: PathView,
    state: SendStateView,
    input: SendInputView<E>,
    text: Seq<char>,
)
    ensures
        ({
            let actions = send_step(root, state, input).1;
            actions.contains(SendActionView::Emit(SendEventView::Error(text)))
                <==> actions.contains(
                SendActionView::Return(Err(FailureView::Sync(ErrorView::Receiver(text)))),
            )
        }),
{
    let actions = send_step(root, state, input).1;
    let shown = SendActionView::<E>::Emit(SendEventView::Error(text));
    let failure = SendActionView::<E>::Return(
        Err(FailureView::Sync(ErrorView::Receiver(text))),
    );
    match (state, input) {
        (SendStateView::Listening, SendInputView::Message(Ok(ReplyView::Error(other)))) => {
            assert(actions[0] == SendActionView::<E>::Emit(SendEventView::Error(other)));
            assert(actions[1] == SendActionView::<E>::Return(
                Err(FailureView::Sync(ErrorView::Receiver(other))),
            ));
        },
        (SendStateView::Walking { .. }, SendInputView::Walked(Ok(entries))) => {
            crate::listing::lemma_collected_fails(root, entries, entries.len());
        },
        _ => {},
    }
}

/// A run reports that it has finished just if it returns success, reports an error just
/// if it returns it as the receiver's, and sends no patch without changes.
pub proof fn lemma_run_reports<E>(
    root: PathView,
    state: SendStateView,
    inputs: Seq<SendInputView<E>>,
)
    ensures
        ({
            let actions = send_run(root, state, inputs).1;
            &&& actions.contains(SendActionView::Emit(SendEventView::Finished))
                <==> actions.contains(SendActionView::Return(Ok(())))
            &&& forall|text: Seq<char>|
                #![trigger actions.contains(SendActionView::Emit(SendEventView::Error(text)))]
                actions.contains(SendActionView::Emit(SendEventView::Error(text)))
                    <==> actions.contains(
                    SendActionView::Return(Err(FailureView::Sync(ErrorView::Receiver(text)))),
                )
            &&& forall|changes: Seq<ChangeView>|
                #![trigger actions.contains(SendActionView::Send(RequestView::SendPatch(changes)))]
                actions.contains(SendActionView::Send(RequestView::SendPatch(changes)))
                    ==> changes.len() > 0
        }),
    decreases inputs.len(),
{
    broadcast use vstd::seq_lib::lemma_seq_concat_contains_all_elements;

    if inputs.len() > 0 {
        let (before, done) = send_run(root, state, inputs.drop_last());
        let (after, actions) = send_step(root, before, inputs.last());
        let all = done + actions;
        lemma_run_reports(root, state, inputs.drop_last());
        lemma_success_is_reported(root, before, inputs.last());
        assert forall|text: Seq<char>|
            #![trigger all.contains(SendActionView::Emit(SendEventView::Error(text)))]
            all.contains(SendActionView::Emit(SendEventView::Error(text))) <==> all.contains(
                SendActionView::Return(Err(FailureView::Sync(ErrorView::Receiver(text)))),
            ) by {
            lemma_error_is_reported(root, before, inputs.last(), text);
            assert(done.contains(SendActionView::Emit(SendEventView::Error(text)))
                <==> done.contains(
                SendActionView::Return(Err(FailureView::Sync(ErrorView::Receiver(text)))),
            ));
        }
        assert forall|changes: Seq<ChangeView>|
            #![trigger all.contains(SendActionView::Send(RequestView::SendPatch(changes)))]
            all.contains(
                SendActionView::Send(RequestView::SendPatch(changes)),
            ) implies changes.len() > 0 by {
            let patch = SendActionView::<E>::Send(RequestView::SendPatch(changes));
            if actions.contains(patch) {
                let i = choose|i: int| 0 <= i < actions.len() && actions[i] == patch;
            } else {
                assert(done.contains(patch));
            }
        }
    }
}

/// A run returns once, as its last action, if the sender is closed at its end, and never
/// before.
pub proof fn lemma_run_returns_once<E>(
    root: PathView,
    state: SendStateView,
    inputs: Seq<SendInputView<E>>,
)
    requires
        state !is Closed,
    ensures
        ({
            let (after, actions) = send_run(root, state, inputs);
            &&& after is Closed <==> actions.len() > 0 && actions.last() is Return
            &&& forall|i: int|
                #![trigger actions[i]]
                0 <= i < actions.len() && actions[i] is Return ==> i == actions.len() - 1
        }),
    decreases inputs.len(),
{
    if inputs.len() > 0 {
        let (before, done) = send_run(root, state, inputs.drop_last());
        let (after, actions) = send_step(root, before, inputs.last());
        let all = done + actions;
        lemma_run_returns_once(root, state, inputs.drop_last());
        lemma_sender_closes(root, before, inputs.last());
        if actions.len() == 0 {
            assert(all =~= done);
        } else {
            assert(all.last() == actions.last());
        }
    }
}

/// Whatever the sender waits for, if it fails for a reason of the surroundings, the sender
/// ends with just that reason.
pub proof fn lemma_failure_is_returned<E>(
    root: PathView,
    old: SnapshotView,
    new: SnapshotView,
    known: Seq<Seq<u8>>,
    e: E,
)
    ensures
        ({
            let end = (
                SendStateView::Closed,
                seq![SendActionView::Return(Err(FailureView::Outside(e)))],
            );
            let reading = SendStateView::Reading { old, new, known };
            &&& send_step(root, SendStateView::Requesting, SendInputView::Sent(Err(e))) == end
            &&& send_step(root, SendStateView::Listening, SendInputView::Message(Err(e))) == end
            &&& send_step(root, SendStateView::Walking { old }, SendInputView::Walked(Err(e)))
                == end
            &&& send_step(root, reading, SendInputView::Contents(Err(e))) == end
            &&& send_step(root, SendStateView::Patching, SendInputView::Sent(Err(e))) == end
            &&& send_step(root, SendStateView::Acknowledging, SendInputView::Sent(Err(e))) == end
            &&& send_step(root, SendStateView::Finishing, SendInputView::Finished(Err(e))) == end
        }),
{
}

/// How the sender goes on: after its request and after its patch it listens, a snapshot
/// makes it walk its own tree, an acknowledgement makes it finish, an error of the
/// receiver ends it, and so does the end of the stream.
pub proof fn lemma_conversation<E>(root: PathView, old: SnapshotView, text: Seq<char>)
    ensures
        ({
            let listen = (SendStateView::Listening, seq![SendActionView::<E>::Receive]);
            let finish = (SendStateView::Finishing, seq![SendActionView::<E>::Finish]);
            let sent = SendInputView::<E>::Sent(Ok(()));
            &&& send_step(root, SendStateView::Requesting, sent) == listen
            &&& send_step(root, SendStateView::Patching, sent) == listen
            &&& send_step(root, SendStateView::Acknowledging, sent) == finish
            &&& send_step(
                root,
                SendStateView::Listening,
                SendInputView::<E>::Message(Ok(ReplyView::Ack)),
            ) == finish
            &&& send_step(
                root,
                SendStateView::Listening,
                SendInputView::<E>::Message(Ok(ReplyView::Snapshot(old))),
            ) == (
                SendStateView::Walking { old },
                seq![
                    SendActionView::<E>::Emit(
                        SendEventView::SnapshotReceived { entry_count: old.len() as usize },
                    ),
                    SendActionView::<E>::Walk,
                ],
            )
            &&& send_step(
                root,
                SendStateView::Listening,
                SendInputView::<E>::Message(Ok(ReplyView::Error(text))),
            ) == (
                SendStateView::Closed,
                seq![
                    SendActionView::<E>::Emit(SendEventView::Error(text)),
                    SendActionView::<E>::Return(
                        Err(FailureView::Sync(ErrorView::Receiver(text))),
                    ),
                ],
            )
            &&& send_step(
                root,
                SendStateView::Finishing,
                SendInputView::<E>::Finished(Ok(())),
            ) == (
                SendStateView::Closed,
                seq![
                    SendActionView::<E>::Emit(SendEventView::Finished),
                    SendActionView::<E>::Return(Ok(())),
                ],
            )
        }),
{
}

/// Once the contents of all files are known the sender announces the changes, with their
/// number and size; if there are none it says that there is nothing to do. Until then it
/// reads the next file.
pub proof fn lemma_comparison<E>(old: SnapshotView, new: SnapshotView, known: Seq<Seq<u8>>)
    ensures
        ({
            let found = crate::diff::changes(old, new, known);
            let size = crate::snapshot::changes_size(found, found.len());
            &&& known.len() < new.len() ==> compare::<E>(old, new, known) == (
                SendStateView::Reading { old, new, known },
                seq![SendActionView::<E>::Read(new[known.len() as int].1.location())],
            )
            &&& known.len() >= new.len() && found.len() == 0 ==> compare::<E>(old, new, known) == (
                SendStateView::Acknowledging,
                seq![
                    SendActionView::<E>::Emit(
                        SendEventView::DiffComputed { total_entries: 0, total_bytes: 0 },
                    ),
                    SendActionView::<E>::Send(RequestView::Ack),
                ],
            )
            &&& known.len() >= new.len() && found.len() > 0 ==> compare::<E>(old, new, known) == (
                SendStateView::Patching,
                seq![
                    SendActionView::<E>::Emit(
                        SendEventView::DiffComputed {
                            total_entries: found.len() as usize,
                            total_bytes: if size <= u64::MAX {
                                size as u64
                            } else {
                                u64::MAX
                            },
                        },
                    ),
                    SendActionView::<E>::Send(RequestView::SendPatch(found)),
                ],
            )
        }),
{
}

/// What the sender knows goes up to the next file: what it was told, and nothing for the
/// directories in between.
pub proof fn lemma_past_dirs(new: SnapshotView, known: Seq<Seq<u8>>)
    requires
        known.len() <= new.len(),
    ensures
        ({
            let all = past_dirs(new, known);
            &&& known.len() <= all.len() <= new.len()
            &&& all.take(known.len() as int) == known
            &&& forall|i: int|
                #![trigger new[i]]
                known.len() <= i < all.len() ==> new[i].1 is Dir && all[i].len() == 0
            &&& all.len() < new.len() ==> new[all.len() as int].1 is File
        }),
{
    crate::diff::lemma_next_file(new, known.len());
    assert(past_dirs(new, known).take(known.len() as int) =~= known);
}

/// A walk of its own tree leads the sender to compare what it found with what the
/// receiver has; each file that was read leads it on.
pub proof fn lemma_reading<E>(
    root: PathView,
    old: SnapshotView,
    new: SnapshotView,
    walk: Seq<PathEntryView>,
    known: Seq<Seq<u8>>,
    data: Seq<u8>,
)
    ensures
        crate::listing::collected(root, walk, walk.len()) == Ok::<SnapshotView, ErrorView>(new)
            ==> send_step(
            root,
            SendStateView::Walking { old },
            SendInputView::<E>::Walked(Ok(walk)),
        ) == compare::<E>(old, new, past_dirs(new, Seq::empty())),
        crate::listing::collected(root, walk, walk.len()) is Err ==> send_step(
            root,
            SendStateView::Walking { old },
            SendInputView::<E>::Walked(Ok(walk)),
        ) == (
            SendStateView::Closed,
            seq![SendActionView::<E>::Return(Err(FailureView::Sync(ErrorView::StripPrefix)))],
        ),
        send_step(
            root,
            SendStateView::Reading { old, new, known },
            SendInputView::<E>::Contents(Ok(data)),
        ) == compare::<E>(old, new, past_dirs(new, known.push(data))),
{
    crate::listing::lemma_collected_fails(root, walk, walk.len());
}

/// Only a comparison that shows no changes makes the sender say that there is nothing to
/// do, and only one that shows some makes it send them, as they are.
pub proof fn lemma_only_changes_are_sent<E>(
    root: PathView,
    state: SendStateView,
    input: SendInputView<E>,
)
    ensures
        ({
            let actions = send_step(root, state, input).1;
            let compared = match (state, input) {
                (SendStateView::Walking { old }, SendInputView::Walked(Ok(walk))) => {
                    match crate::listing::collected(root, walk, walk.len()) {
                        Ok(new) => Some(
                            crate::diff::changes(old, new, past_dirs(new, Seq::empty())),
                        ),
                        Err(e) => None,
                    }
                },
                (
                    SendStateView::Reading { old, new, known },
                    SendInputView::Contents(Ok(data)),
                ) => Some(crate::diff::changes(old, new, past_dirs(new, known.push(data)))),
                _ => None,
            };
            &&& actions.contains(SendActionView::Send(RequestView::Ack)) ==> compared is Some
                && compared->0.len() == 0
            &&& forall|c: Seq<ChangeView>|
                #![trigger actions.contains(SendActionView::Send(RequestView::SendPatch(c)))]
                actions.contains(SendActionView::Send(RequestView::SendPatch(c))) ==> compared
                    == Some(c) && c.len() > 0
            &&& !actions.contains(SendActionView::Send(RequestView::RequestSnapshot))
        }),
{
    let actions = send_step(root, state, input).1;
    assert forall|c: Seq<ChangeView>|
        #![trigger actions.contains(SendActionView::Send(RequestView::SendPatch(c)))]
        actions.contains(SendActionView::Send(RequestView::SendPatch(c))) implies c.len() > 0 by {
        let patch = SendActionView::<E>::Send(RequestView::SendPatch(c));
        let i = choose|i: int| 0 <= i < actions.len() && actions[i] == patch;
    }
}

/// A run of the sender succeeds only if the receiver has acknowledged, or if the sender
/// itself has said that there is nothing to do.
pub proof fn lemma_success_is_acknowledged<E>(root: PathView, inputs: Seq<SendInputView<E>>)
    ensures
        ({
            let (state, actions) = send_run(root, SendStateView::Requesting, inputs);
            let acknowledged = inputs.contains(SendInputView::Message(Ok(ReplyView::Ack)))
                || actions.contains(SendActionView::Send(RequestView::Ack));
            &&& actions.contains(SendActionView::Return(Ok(()))) ==> acknowledged
            &&& state is Finishing ==> acknowledged
            &&& state is Acknowledging ==> actions.contains(SendActionView::Send(RequestView::Ack))
        }),
    decreases inputs.len(),
{
    broadcast use vstd::seq_lib::lemma_seq_concat_contains_all_elements;

    let ack = SendInputView::<E>::Message(Ok(ReplyView::Ack));
    let own = SendActionView::<E>::Send(RequestView::Ack);
    if inputs.len() > 0 {
        let front = inputs.drop_last();
        let (before, done) = send_run(root, SendStateView::Requesting, front);
        let (after, actions) = send_step(root, before, inputs.last());
        lemma_success_is_acknowledged(root, front);
        lemma_success_is_reported(root, before, inputs.last());
        if front.contains(ack) {
            let i = choose|i: int| 0 <= i < front.len() && front[i] == ack;
            assert(inputs[i] == ack);
        }
        if inputs.last() == ack {
            assert(inputs[inputs.len() - 1] == ack);
        }
        if after is Acknowledging && before !is Acknowledging {
            assert(actions[1] == own);
        }
        if after is Finishing && before is Listening {
            assert(inputs.last() == ack);
        }
    }
}

/// An input that the sender does not wait for changes nothing.
pub proof fn lemma_other_inputs<E>(root: PathView, state: SendStateView, input: SendInputView<E>)
    requires
        match input {
            SendInputView::Sent(_) => !(state is Requesting || state is Patching
                || state is Acknowledging),
            SendInputView::Message(_) => state !is Listening,
            SendInputView::Walked(_) => state !is Walking,
            SendInputView::Contents(_) => state !is Reading,
            SendInputView::Finished(_) => state !is Finishing,
        },
    ensures
        send_step(root, state, input).0 == state,
        send_step(root, state, input).1.len() == 0,
{
}

/// The views of actions and inputs show their kind and all that they hold.
pub proof fn lemma_send_views<E>(
    action: SendAction<E>,
    input: SendInput<E>,
    actions: Seq<SendAction<E>>,
)
    ensures
        action matches SendAction::Emit(event) ==> action@ == SendActionView::<E>::Emit(event@),
        action matches SendAction::Send(message) ==> action@ == SendActionView::<E>::Send(message@),
        action matches SendAction::Receive ==> action@ is Receive,
        action matches SendAction::Walk ==> action@ is Walk,
        action matches SendAction::Read(path) ==> action@ == SendActionView::<E>::Read(path@),
        action matches SendAction::Finish ==> action@ is Finish,
        action matches SendAction::Return(Ok(())) ==> action@ == SendActionView::<E>::Return(
            Ok(()),
        ),
        action matches SendAction::Return(Err(SendFailure::Outside(e))) ==> action@
            == SendActionView::<E>::Return(Err(FailureView::Outside(e))),
        action matches SendAction::Return(Err(SendFailure::Sync(e))) ==> action@
            == SendActionView::<E>::Return(Err(FailureView::Sync(e@))),
        input matches SendInput::Sent(outcome) ==> input@ == SendInputView::<E>::Sent(outcome),
        input matches SendInput::Message(Ok(message)) ==> input@ == SendInputView::<E>::Message(
            Ok(message@),
        ),
        input matches SendInput::Message(Err(e)) ==> input@ == SendInputView::<E>::Message(Err(e)),
        input matches SendInput::Walked(Ok(walk)) ==> input@ == SendInputView::<E>::Walked(
            Ok(crate::listing::entry_views(walk@)),
        ),
        input matches SendInput::Walked(Err(e)) ==> input@ == SendInputView::<E>::Walked(Err(e)),
        input matches SendInput::Contents(Ok(data)) ==> input@ == SendInputView::<E>::Contents(
            Ok(data@),
        ),
        input matches SendInput::Contents(Err(e)) ==> input@ == SendInputView::<E>::Contents(
            Err(e),
        ),
        input matches SendInput::Finished(outcome) ==> input@ == SendInputView::<E>::Finished(
            outcome,
        ),
        send_action_views(actions).len() == actions.len(),
        forall|i: int|
            #![trigger send_action_views(actions)[i]]
            0 <= i < actions.len() ==> send_action_views(actions)[i] == actions[i]@,
{
}

/// The sending side of a synchronisation.
pub struct SendSession {
    root: FilePath,
    state: SendState,
}

fn end<E>(failure: SendFailure<E>) -> (r: Vec<SendAction<E>>)
    ensures
        send_action_views(r@) == seq![SendActionView::<E>::Return(Err(failure@))],
{
    let mut r: Vec<SendAction<E>> = Vec::new();
    r.push(SendAction::Return(Err(failure)));
    assert(send_action_views(r@) =~= seq![SendActionView::<E>::Return(Err(failure@))]);
    r
}

fn only<E>(action: SendAction<E>) -> (r: Vec<SendAction<E>>)
    ensures
        send_action_views(r@) == seq![action@],
{
    let mut r: Vec<SendAction<E>> = Vec::new();
    r.push(action);
    assert(send_action_views(r@) =~= seq![action@]);
    r
}

fn report_and<E>(event: SendEvent, action: SendAction<E>) -> (r: Vec<SendAction<E>>)
    ensures
        send_action_views(r@) == seq![SendActionView::<E>::Emit(event@), action@],
{
    let mut r: Vec<SendAction<E>> = Vec::new();
    r.push(SendAction::Emit(event));
    r.push(action);
    assert(send_action_views(r@) =~= seq![SendActionView::<E>::Emit(event@), action@]);
    r
}

/// Goes on once the changes are found.
fn conclude<E>(changes: Vec<SnapshotEntry>) -> (r: (SendState, Vec<SendAction<E>>))
    ensures
        (r.0@, send_action_views(r.1@)) == announce::<E>(
            crate::snapshot::change_views(changes@),
        ),
        r.0.is_consistent(),
{
    let count = changes.len();
    if count == 0 {
        (
            SendState::Acknowledging,
            report_and(
                SendEvent::DiffComputed { total_entries: 0, total_bytes: 0 },
                SendAction::Send(SenderToReceiver::Ack),
            ),
        )
    } else {
        let event = SendEvent::DiffComputed {
            total_entries: count,
            total_bytes: total_size(&changes),
        };
        (
            SendState::Patching,
            report_and(event, SendAction::Send(SenderToReceiver::SendPatch(changes))),
        )
    }
}

/// Goes on comparing.
fn go_on<E>(session: DiffSession) -> (r: (SendState, Vec<SendAction<E>>))
    requires
        session.is_valid(),
    ensures
        (r.0@, send_action_views(r.1@)) == compare::<E>(
            session.old_tree(),
            session.new_tree(),
            session.known(),
        ),
        r.0.is_consistent(),
{
    let wanted: Option<FilePath> = match session.wanted() {
        Some(path) => Some(path.clone()),
        None => None,
    };
    match wanted {
        Some(path) => (SendState::Reading { session }, only(SendAction::Read(path))),
        None => conclude(session.finish()),
    }
}

impl SendState {
    /// A comparison under way is a valid one that wants a file.
    closed spec fn is_consistent(&self) -> bool {
        match self {
            SendState::Reading { session } => {
                &&& session.is_valid()
                &&& session.done() < session.new_tree().len()
            },
            _ => true,
        }
    }
}

impl SendSession {
    /// The root of the sender's tree.
    pub closed spec fn root(&self) -> PathView {
        self.root@
    }

    /// What the sender waits for.
    pub closed spec fn state(&self) -> SendStateView {
        self.state@
    }

    #[verifier::type_invariant]
    closed spec fn is_consistent(self) -> bool {
        self.state.is_consistent()
    }

    /// Starts to send the tree below `root`.
    pub fn open<E>(root: FilePath) -> (r: (SendSession, Vec<SendAction<E>>))
        ensures
            r.0.root() == root@,
            r.0.state() == SendStateView::Requesting,
            send_action_views(r.1@) == seq![
                SendActionView::<E>::Emit(SendEventView::Started),
                SendActionView::<E>::Send(RequestView::RequestSnapshot),
            ],
    {
        (
            SendSession { root, state: SendState::Requesting },
            report_and(SendEvent::Started, SendAction::Send(SenderToReceiver::RequestSnapshot)),
        )
    }

    /// Goes on after an input.
    pub fn step<E>(self, input: SendInput<E>) -> (r: (SendSession, Vec<SendAction<E>>))
        ensures
            r.0.root() == self.root(),
            (r.0.state(), send_action_views(r.1@)) == send_step(self.root(), self.state(), input@),
    {
        proof {
            use_type_invariant(&self);
        }
        let SendSession { root, state } = self;
        let (state, actions): (SendState, Vec<SendAction<E>>) = match (state, input) {
            (SendState::Requesting, SendInput::Sent(Err(e))) => {
                (SendState::Closed, end(SendFailure::Outside(e)))
            },
            (SendState::Requesting, SendInput::Sent(Ok(()))) => {
                (SendState::Listening, only(SendAction::Receive))
            },
            (SendState::Listening, SendInput::Message(Err(e))) => {
                (SendState::Closed, end(SendFailure::Outside(e)))
            },
            (SendState::Listening, SendInput::Message(Ok(ReceiverToSender::Snapshot(old)))) => {
                let event = SendEvent::SnapshotReceived { entry_count: old.len() };
                (SendState::Walking { old }, report_and(event, SendAction::Walk))
            },
            (SendState::Listening, SendInput::Message(Ok(ReceiverToSender::Ack))) => {
                (SendState::Finishing, only(SendAction::Finish))
            },
            (SendState::Listening, SendInput::Message(Ok(ReceiverToSender::Error(text)))) => {
                let event = SendEvent::Error(text.clone());
                let failure = SendFailure::Sync(Error::Receiver(text));
                (SendState::Closed, report_and(event, SendAction::Return(Err(failure))))
            },
            (SendState::Walking { .. }, SendInput::Walked(Err(e))) => {
                (SendState::Closed, end(SendFailure::Outside(e)))
            },
            (SendState::Walking { old }, SendInput::Walked(Ok(entries))) => {
                match Snapshot::collect(&root, entries) {
                    Err(e) => (SendState::Closed, end(SendFailure::Sync(e))),
                    Ok(new) => {
                        let session = DiffSession::new(old, new);
                        assert(session.known() =~= past_dirs(new@, Seq::empty()));
                        go_on(session)
                    },
                }
            },
            (SendState::Reading { .. }, SendInput::Contents(Err(e))) => {
                (SendState::Closed, end(SendFailure::Outside(e)))
            },
            (SendState::Reading { session }, SendInput::Contents(Ok(data))) => {
                let mut session = session;
                let ghost known = session.known().push(data@);
                session.supply(data);
                assert(session.known() =~= past_dirs(session.new_tree(), known));
                go_on(session)
            },
            (SendState::Patching, SendInput::Sent(Err(e))) => {
                (SendState::Closed, end(SendFailure::Outside(e)))
            },
            (SendState::Patching, SendInput::Sent(Ok(()))) => {
                (SendState::Listening, only(SendAction::Receive))
            },
            (SendState::Acknowledging, SendInput::Sent(Err(e))) => {
                (SendState::Closed, end(SendFailure::Outside(e)))
            },
            (SendState::Acknowledging, SendInput::Sent(Ok(()))) => {
                (SendState::Finishing, only(SendAction::Finish))
            },
            (SendState::Finishing, SendInput::Finished(Err(e))) => {
                (SendState::Closed, end(SendFailure::Outside(e)))
            },
            (SendState::Finishing, SendInput::Finished(Ok(()))) => {
                (
                    SendState::Closed,
                    report_and(SendEvent::Finished, SendAction::Return(Ok(()))),
                )
            },
            (state, _) => {
                let actions: Vec<SendAction<E>> = Vec::new();
                assert(send_action_views(actions@) =~= Seq::<SendActionView<E>>::empty());
                (state, actions)
            },
        };
        (SendSession { root, state }, actions)
    }
}

} // verus!
