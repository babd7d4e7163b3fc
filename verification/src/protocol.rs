//! The two sides of a synchronisation taken together.

use crate::dirwalker::PathEntryView;
use crate::error::ErrorView;
use crate::listing::SnapshotView;
use crate::path::PathView;
use crate::receiver::{RecvActionView, RecvInputView, RecvStateView};
use crate::sender::{SendActionView, SendInputView, SendStateView};
use crate::snapshot::ChangeView;
use crate::sync::{RecvEventView, ReplyView, RequestView, SendEventView};
use crate::tree::{Disk, Exchange, Node};
use vstd::prelude::*;

verus! {

/// Running the sender in two goes is running it once.
proof fn lemma_send_run_concat<E>(
    root: PathView,
    state: SendStateView,
    a: Seq<SendInputView<E>>,
    b: Seq<SendInputView<E>>,
)
    ensures
        ({
            let (between, first) = crate::sender::send_run(root, state, a);
            let (after, second) = crate::sender::send_run(root, between, b);
            crate::sender::send_run(root, state, a + b) == (after, first + second)
        }),
    decreases b.len(),
{
    let (between, first) = crate::sender::send_run(root, state, a);
    if b.len() == 0 {
        assert(a + b =~= a);
        assert(first + Seq::<SendActionView<E>>::empty() =~= first);
    } else {
        assert((a + b).drop_last() =~= a + b.drop_last());
        lemma_send_run_concat(root, state, a, b.drop_last());
        let (before, second) = crate::sender::send_run(root, between, b.drop_last());
        let (after, third) = crate::sender::send_step(root, before, b.last());
        assert(first + second + third =~= first + (second + third));
    }
}

/// The receiver answers a request with the snapshot of its tree.
pub proof fn lemma_request_is_answered(
    root: PathView,
    walk: Seq<PathEntryView>,
    tree: SnapshotView,
)
    requires
        crate::listing::collected(root, walk, walk.len()) == Ok::<SnapshotView, ErrorView>(tree),
    ensures
        crate::receiver::recv_run(
            root,
            RecvStateView::Waiting,
            seq![
                RecvInputView::Message(Ok(RequestView::RequestSnapshot)),
                RecvInputView::Walked(Ok(walk)),
                RecvInputView::Sent(Ok(())),
            ],
        ) == (
            RecvStateView::Waiting,
            seq![
                RecvActionView::Walk,
                RecvActionView::Send(ReplyView::Snapshot(tree)),
                RecvActionView::Emit(
                    RecvEventView::SnapshotSent { entry_count: tree.len() as usize },
                ),
                RecvActionView::Receive,
            ],
        ),
{
    let inputs = seq![
        RecvInputView::Message(Ok(RequestView::RequestSnapshot)),
        RecvInputView::Walked(Ok(walk)),
        RecvInputView::Sent(Ok(())),
    ];
    let (one, two) = (inputs.take(1), inputs.take(2));
    assert(inputs.drop_last() =~= two);
    assert(two.drop_last() =~= one);
    assert(one.drop_last() =~= Seq::empty());
    reveal_with_fuel(crate::receiver::recv_run, 4);
    assert(crate::receiver::recv_run(root, RecvStateView::Waiting, inputs).1 =~= seq![
        RecvActionView::Walk,
        RecvActionView::Send(ReplyView::Snapshot(tree)),
        RecvActionView::Emit(RecvEventView::SnapshotSent { entry_count: tree.len() as usize }),
        RecvActionView::Receive,
    ]);
}

/// The sender, given the receiver's snapshot, announces the changes to its own tree.
pub proof fn lemma_snapshot_is_compared<E>(
    root: PathView,
    old: SnapshotView,
    walk: Seq<PathEntryView>,
    new: SnapshotView,
    contents: Seq<Seq<u8>>,
)
    requires
        crate::listing::collected(root, walk, walk.len()) == Ok::<SnapshotView, ErrorView>(new),
        contents.len() == new.len(),
        forall|i: int|
            #![trigger new[i]]
            0 <= i < new.len() && new[i].1 is Dir ==> contents[i].len() == 0,
    ensures
        ({
            let inputs = seq![
                SendInputView::<E>::Sent(Ok(())),
                SendInputView::<E>::Message(Ok(ReplyView::Snapshot(old))),
            ] + (seq![SendInputView::<E>::Walked(Ok(walk))] + crate::sender::readings(
                new,
                contents,
                new.len(),
            ));
            let (state, actions) = crate::sender::announce::<E>(
                crate::diff::changes(old, new, contents),
            );
            crate::sender::send_run(root, SendStateView::Requesting, inputs) == (
                state,
                seq![
                    SendActionView::<E>::Receive,
                    SendActionView::<E>::Emit(
                        SendEventView::SnapshotReceived { entry_count: old.len() as usize },
                    ),
                    SendActionView::<E>::Walk,
                ] + (crate::sender::reads(new, new.len()) + actions),
            )
        }),
{
    let opening = seq![
        SendInputView::<E>::Sent(Ok(())),
        SendInputView::<E>::Message(Ok(ReplyView::Snapshot(old))),
    ];
    let rest = seq![SendInputView::<E>::Walked(Ok(walk))] + crate::sender::readings::<E>(
        new,
        contents,
        new.len(),
    );
    let first = opening.take(1);
    assert(opening.drop_last() =~= first);
    assert(first.drop_last() =~= Seq::empty());
    reveal_with_fuel(crate::sender::send_run, 3);
    assert(crate::sender::send_run(root, SendStateView::Requesting, opening).1 =~= seq![
        SendActionView::<E>::Receive,
        SendActionView::<E>::Emit(
            SendEventView::SnapshotReceived { entry_count: old.len() as usize },
        ),
        SendActionView::<E>::Walk,
    ]);
    lemma_send_run_concat(root, SendStateView::Requesting, opening, rest);
    crate::sender::lemma_changes_are_announced::<E>(root, old, walk, new, contents);
}

/// A synchronisation in which nothing fails makes the receiver's tree the sender's: the
/// sender announces the changes, the receiver applies just these in their order, and
/// they lead to the sender's tree. If there are none, the receiver's tree is the
/// sender's already.
///
/// The exceptions are those of `lemma_sync`.
pub proof fn lemma_end_to_end<E>(
    x: Exchange,
    disk: Disk,
    recv_walk: Seq<PathEntryView>,
    send_root: PathView,
    send_walk: Seq<PathEntryView>,
)
    requires
        crate::listing::collected(x.base, recv_walk, recv_walk.len()) == Ok::<
            SnapshotView,
            ErrorView,
        >(x.old),
        crate::listing::collected(send_root, send_walk, send_walk.len()) == Ok::<
            SnapshotView,
            ErrorView,
        >(x.new),
        forall|i: int|
            #![trigger x.new[i]]
            0 <= i < x.new.len() && x.new[i].1 is Dir ==> x.new_data[i].len() == 0,
        x.starts_from(disk),
        x.strays_fit(disk),
        x.hashes_are_faithful(),
        x.replaced_dirs_are_empty(),
        x.replaced_files_come_first(),
    ensures
        ({
            let inputs = seq![
                SendInputView::<E>::Sent(Ok(())),
                SendInputView::<E>::Message(Ok(ReplyView::Snapshot(x.old))),
            ] + (seq![SendInputView::<E>::Walked(Ok(send_walk))] + crate::sender::readings(
                x.new,
                x.new_data,
                x.new.len(),
            ));
            let message = crate::sender::send_run(
                send_root,
                SendStateView::Requesting,
                inputs,
            ).1.last();
            if x.changes().len() == 0 {
                message == SendActionView::<E>::Send(RequestView::Ack) && x.ends_in(disk, disk)
            } else {
                message == SendActionView::<E>::Send(RequestView::SendPatch(x.changes()))
            }
        }),
        ({
            let inputs = seq![RecvInputView::Message(Ok(RequestView::SendPatch(x.changes())))]
                + crate::receiver::all_applied(x.changes().len());
            let (state, actions) = crate::receiver::recv_run(
                x.base,
                RecvStateView::Waiting,
                inputs,
            );
            &&& state is Closed
            &&& actions.contains(RecvActionView::Send(ReplyView::Ack))
            &&& crate::receiver::applied_in(actions) == x.changes()
        }),
        crate::tree::applied(disk, x.base, x.changes()) matches Some(after) && x.ends_in(
            disk,
            after,
        ),
{
    lemma_snapshot_is_compared::<E>(send_root, x.old, send_walk, x.new, x.new_data);
    crate::receiver::lemma_patch_is_acknowledged(x.base, x.changes());
    crate::tree::lemma_sync(x, disk);
    let n = x.changes().len();
    let done = crate::receiver::application(x.changes(), n);
    let actions = done + crate::receiver::completion();
    assert(actions[done.len() as int] == RecvActionView::Send(ReplyView::Ack));
}

/// A synchronisation of a file with a file in which nothing fails makes the receiver's
/// file the sender's: the sender announces the change, if there is one, the receiver
/// applies just that, and the file then holds what the sender's does.
///
/// The exception is chunks that differ under one hash.
pub proof fn lemma_file_end_to_end<E>(
    root: PathView,
    old: PathEntryView,
    old_bytes: Seq<u8>,
    send_root: PathView,
    new: PathEntryView,
    new_bytes: Seq<u8>,
    disk: Disk,
)
    requires
        old is File,
        new is File,
        crate::path::parsed(old.location()) == crate::path::parsed(root),
        crate::path::parsed(new.location()) == crate::path::parsed(send_root),
        crate::chunker::is_chunking(old->chunks, old_bytes),
        crate::chunker::is_chunking(new->chunks, new_bytes),
        if crate::diff::same_hashes(old->chunks, new->chunks) {
            crate::diff::matches_are_faithful(old->chunks, old_bytes, new->chunks, new_bytes)
        } else {
            crate::diff::copies_are_faithful(old->chunks, old_bytes, new->chunks, new_bytes)
        },
        crate::path::parent_text(root) is Some,
        crate::tree::root_exists(disk, root),
        disk[crate::path::parsed(root)] == Node::File(old_bytes),
    ensures
        ({
            let tree = seq![(Seq::<char>::empty(), old)];
            let changes = crate::diff::changes(
                tree,
                seq![(Seq::<char>::empty(), new)],
                seq![new_bytes],
            );
            let sent = seq![
                SendInputView::<E>::Sent(Ok(())),
                SendInputView::<E>::Message(Ok(ReplyView::Snapshot(tree))),
                SendInputView::<E>::Walked(Ok(seq![new])),
                SendInputView::<E>::Contents(Ok(new_bytes)),
            ];
            let message = crate::sender::send_run(
                send_root,
                SendStateView::Requesting,
                sent,
            ).1.last();
            let received = seq![RecvInputView::Message(Ok(RequestView::SendPatch(changes)))]
                + crate::receiver::all_applied(changes.len());
            let (state, actions) = crate::receiver::recv_run(
                root,
                RecvStateView::Waiting,
                received,
            );
            &&& crate::listing::collected(root, seq![old], 1) == Ok::<SnapshotView, ErrorView>(tree)
            &&& message == SendActionView::<E>::Send(
                if crate::diff::same_hashes(old->chunks, new->chunks) {
                    RequestView::Ack
                } else {
                    RequestView::SendPatch(changes)
                },
            )
            &&& state is Closed
            &&& actions.contains(RecvActionView::Send(ReplyView::Ack))
            &&& crate::receiver::applied_in(actions) == changes
            &&& crate::tree::applied(disk, root, changes) == Some(
                disk.insert(crate::path::parsed(root), Node::File(new_bytes)),
            )
        }),
{
    let key = Seq::<char>::empty();
    let (olds, news) = (seq![(key, old)], seq![(key, new)]);
    let contents = seq![new_bytes];
    let changes = crate::diff::changes(olds, news, contents);
    crate::tree::lemma_walk_gives_file(root, old);
    crate::tree::lemma_walk_gives_file(send_root, new);
    crate::tree::lemma_sync_file(root, old, old_bytes, new, new_bytes, disk);
    lemma_snapshot_is_compared::<E>(send_root, olds, seq![new], news, contents);
    reveal_with_fuel(crate::sender::readings, 2);
    assert(seq![
        SendInputView::<E>::Sent(Ok(())),
        SendInputView::<E>::Message(Ok(ReplyView::Snapshot(olds))),
    ] + (seq![SendInputView::<E>::Walked(Ok(seq![new]))] + crate::sender::readings::<E>(
        news,
        contents,
        1,
    )) =~= seq![
        SendInputView::<E>::Sent(Ok(())),
        SendInputView::<E>::Message(Ok(ReplyView::Snapshot(olds))),
        SendInputView::<E>::Walked(Ok(seq![new])),
        SendInputView::<E>::Contents(Ok(new_bytes)),
    ]);
    crate::diff::lemma_no_changes(olds, news, contents);
    assert(crate::listing::is_at(olds, key, 0));
    assert(crate::listing::is_at(news, key, 0));
    assert(crate::listing::entry_for(olds, key) == Some(old));
    assert(news[0].1 == new);
    crate::receiver::lemma_patch_is_acknowledged(root, changes);
    let done = crate::receiver::application(changes, changes.len());
    let actions = done + crate::receiver::completion();
    assert(actions[done.len() as int] == RecvActionView::Send(ReplyView::Ack));
}

/// A receiver that has nothing at its root makes no changes: it refuses the first one,
/// because the root does not exist, and applies none after it.
pub proof fn lemma_missing_root(root: PathView, disk: Disk, changes: Seq<ChangeView>)
    requires
        !crate::tree::root_exists(disk, root),
        changes.len() > 0,
    ensures
        crate::tree::applied(disk, root, changes) is None,
        ({
            let text = crate::error::message_of(ErrorView::RootDoesNotExist(root));
            let path = changes[0].place();
            crate::receiver::recv_run(
                root,
                RecvStateView::Waiting,
                seq![
                    RecvInputView::Message(Ok(RequestView::SendPatch(changes))),
                    RecvInputView::Applied(Err(text)),
                ],
            ) == (
                RecvStateView::Closed,
                seq![
                    RecvActionView::Emit(RecvEventView::EntryReceiving { path }),
                    RecvActionView::Apply(changes[0]),
                ] + crate::receiver::refusal(crate::receiver::apply_failure(path, text)),
            )
        }),
{
    let text = crate::error::message_of(ErrorView::RootDoesNotExist(root));
    let path = changes[0].place();
    let message = RecvInputView::Message(Ok(RequestView::SendPatch(changes)));
    let refused = RecvInputView::Applied(Err(text));
    let first = seq![
        RecvActionView::Emit(RecvEventView::EntryReceiving { path }),
        RecvActionView::Apply(changes[0]),
    ];
    crate::tree::lemma_no_root(disk, root, changes);
    crate::receiver::lemma_patch_is_refused(root, changes, 0, text);
    assert((seq![message] + crate::receiver::all_applied(0)).push(refused) =~= seq![
        message,
        refused,
    ]);
    assert(crate::receiver::application(changes, 0) + first =~= first);
}

} // verus!
