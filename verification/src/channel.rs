//! The two ends of the bounded channel between the traversal workers and
//! the aggregator.
//!
//! The channel is crossbeam's. A worker announces what it found through its
//! sender; the aggregator pumps its receiver, one entry at a time, until the
//! last sender is gone and the channel has run empty.

use crate::aggregator::{absorbed, Aggregator};
use crate::entry::{EntryView, FileEntry};
use crate::fanout::credits_of;
use crate::path::{normal_form, within};
use crate::record::{capped, total_at, AggregateRecord};
use crate::walker::{decide, Decision, Stat, Verdict};
use crossbeam_channel::{Receiver, Sender};
use vstd::prelude::*;

verus! {

/// The number of entries that the channel holds before senders have to wait.
pub const DEFAULT_CAPACITY: usize = 1000;

/// The largest capacity that a channel is opened with.
pub const MAX_CAPACITY: usize = 1048576;

/// The sending end of a crossbeam channel. Nothing is known of what is inside.
#[verifier::external_type_specification]
#[verifier::external_body]
#[verifier::reject_recursive_types(T)]
pub struct ExSender<T>(Sender<T>);

/// The receiving end of a crossbeam channel. Nothing is known of what is inside.
#[verifier::external_type_specification]
#[verifier::external_body]
#[verifier::reject_recursive_types(T)]
pub struct ExReceiver<T>(Receiver<T>);

/// crossbeam's `Sender::send`: waits while the channel is full, and gives
/// the message back as an error once every receiver is gone. Whether the
/// entry went through depends on the other end, so nothing is claimed of
/// the answer.
#[verifier::external_body]
fn send_entry(tx: &Sender<FileEntry>, entry: FileEntry) -> (sent: bool) {
    tx.send(entry).is_ok()
}

/// crossbeam's `Receiver::recv`: waits while the channel is empty and some
/// sender is left, and fails once it is empty and every sender is gone. What
/// arrives depends on the senders, so nothing is claimed of the answer.
#[verifier::external_body]
fn receive_entry(rx: &Receiver<FileEntry>) -> (got: Option<FileEntry>) {
    rx.recv().ok()
}

/// The number of entries that the channel behind `rx` holds at most: the
/// capacity that crossbeam's `bounded` made it with, which stays with the
/// channel for good.
pub uninterp spec fn room_of(rx: Receiver<FileEntry>) -> nat;

/// crossbeam's `bounded`: a channel that holds at most `capacity` messages,
/// or with a capacity of zero one that hands each message over directly. It
/// panics where the capacity is too large for its index arithmetic, which
/// capacities up to `MAX_CAPACITY` are not. The channel keeps the capacity
/// it was made with.
#[verifier::external_body]
fn bounded_channel(capacity: usize) -> (ends: (Sender<FileEntry>, Receiver<FileEntry>))
    requires
        capacity <= MAX_CAPACITY,
    ensures
        room_of(ends.1) == capacity,
{
    crossbeam_channel::bounded(capacity)
}

/// Opens the channel between the workers and the aggregator, for at most
/// `capacity` entries in flight. A capacity beyond `MAX_CAPACITY` is refused.
pub fn open(capacity: usize) -> (ends: Option<(Sender<FileEntry>, Receiver<FileEntry>)>)
    ensures
        ends is Some <==> capacity <= MAX_CAPACITY,
        ends matches Some(pair) ==> room_of(pair.1) == capacity,
{
    if capacity <= MAX_CAPACITY {
        Some(bounded_channel(capacity))
    } else {
        None
    }
}

/// What a worker is to do after it announced a path.
#[derive(Debug, Clone, Copy, PartialEq, Eq, Structural)]
pub enum Signal {
    /// Walk on.
    Continue,
    /// Walk on, but do not descend into this path.
    Prune,
    /// The channel is closed, so this worker can send nothing any more: it
    /// is done, and leaves the rest of the walk to the others.
    Closed,
    /// The run was cancelled: stop walking.
    Cancelled,
}

/// What follows an attempt to send: the worker walks on where the entry
/// went through, and learns that the channel is closed where it did not.
pub fn after_send(sent: bool) -> (signal: Signal)
    ensures
        signal == if sent {
            Signal::Continue
        } else {
            Signal::Closed
        },
{
    if sent {
        Signal::Continue
    } else {
        Signal::Closed
    }
}

/// Announces one path to the aggregator: decides what to do with it, as
/// `decide` says, and sends the entry where there is one. Waits while the
/// channel is full. After a cancellation nothing is sent. A path left out by
/// the predicate is pruned, and one that is not text or could not be looked
/// at is passed over, all without sending; any other is sent, and the worker
/// walks on unless the channel turned out closed.
pub fn announce(
    tx: &Sender<FileEntry>,
    cancelled: bool,
    verdict: Verdict,
    path: Option<&str>,
    stat: Option<Stat>,
) -> (signal: Signal)
    ensures
        cancelled ==> signal == Signal::Cancelled,
        !cancelled && verdict == Verdict::Skip ==> signal == Signal::Prune,
        !cancelled && verdict == Verdict::Traverse && (path is None || stat is None) ==> signal
            == Signal::Continue,
        !cancelled && verdict == Verdict::Traverse && path is Some && stat is Some ==> signal
            == Signal::Continue || signal == Signal::Closed,
{
    match decide(cancelled, verdict, path, stat) {
        Decision::Emit(entry) => after_send(send_entry(tx, entry)),
        Decision::Pass => Signal::Continue,
        Decision::Prune => Signal::Prune,
        Decision::Stop => Signal::Cancelled,
    }
}

/// How one turn of the aggregator ended.
#[derive(Debug, Clone, Copy, PartialEq, Eq, Structural)]
pub enum Progress {
    /// An entry arrived and was absorbed; there may be more.
    Absorbed,
    /// Every sender is gone and the channel is empty: the record is complete.
    Ended,
    /// The run was cancelled: the record holds what arrived until now.
    Cancelled,
}

/// Takes what one receive brought: an entry is absorbed, and the end of the
/// stream changes nothing.
pub fn take(agg: &mut Aggregator, received: Option<FileEntry>) -> (progress: Progress)
    requires
        old(agg).wf(),
    ensures
        final(agg).wf(),
        final(agg)@.root == old(agg)@.root,
        received matches Some(entry) ==> progress == Progress::Absorbed && final(agg)@.seen
            == old(agg)@.seen.push(entry@) && final(agg)@.totals == absorbed(
            old(agg)@.totals,
            old(agg)@.root,
            entry@,
        ),
        received is None ==> progress == Progress::Ended && final(agg)@.seen == old(agg)@.seen
            && final(agg)@.totals == old(agg)@.totals,
{
    match received {
        Some(entry) => {
            agg.absorb(&entry);
            Progress::Absorbed
        },
        None => Progress::Ended,
    }
}

/// One turn of the aggregator. After a cancellation it receives nothing
/// and leaves the aggregator as it is. Otherwise it receives once, waiting
/// while the channel is empty and a sender is left, and takes what came:
/// either the stream has ended, and the aggregator is unchanged, or one
/// entry, whichever arrived, has been absorbed.
pub fn pump(agg: &mut Aggregator, rx: &Receiver<FileEntry>, cancelled: bool) -> (progress: Progress)
    requires
        old(agg).wf(),
    ensures
        final(agg).wf(),
        final(agg)@.root == old(agg)@.root,
        cancelled <==> progress == Progress::Cancelled,
        progress == Progress::Absorbed ==> exists|entry: EntryView|
            final(agg)@.seen == old(agg)@.seen.push(entry) && final(agg)@.totals == absorbed(
                old(agg)@.totals,
                old(agg)@.root,
                entry,
            ),
        progress != Progress::Absorbed ==> final(agg)@.seen == old(agg)@.seen && final(agg)@.totals
            == old(agg)@.totals,
{
    if cancelled {
        return Progress::Cancelled;
    }
    let received = receive_entry(rx);
    let ghost arrived = received;
    let progress = take(agg, received);
    proof {
        if progress == Progress::Absorbed {
            let entry = arrived->0@;
            assert(agg@.seen == old(agg)@.seen.push(entry) && agg@.totals == absorbed(
                old(agg)@.totals,
                old(agg)@.root,
                entry,
            ));
        }
    }
    progress
}

/// Announces one path with the fan-out done on this side: decides what to
/// do with the path, as `decide` says, and where there is an entry sends one
/// credit for each path on the chain from the entry up to `root`, as
/// `credits_of` lists them, nearest first. Stops sending as soon as the
/// channel turns out closed. For an entry outside the root there is nothing
/// to send, and the worker walks on.
pub fn announce_credits(
    tx: &Sender<FileEntry>,
    cancelled: bool,
    root: &str,
    verdict: Verdict,
    path: Option<&str>,
    stat: Option<Stat>,
) -> (signal: Signal)
    ensures
        cancelled ==> signal == Signal::Cancelled,
        !cancelled && verdict == Verdict::Skip ==> signal == Signal::Prune,
        !cancelled && verdict == Verdict::Traverse && (path is None || stat is None) ==> signal
            == Signal::Continue,
        !cancelled && verdict == Verdict::Traverse && path is Some && stat is Some ==> signal
            == Signal::Continue || signal == Signal::Closed,
        !cancelled && verdict == Verdict::Traverse && path is Some && stat is Some && !within(
            normal_form(root@),
            normal_form(path->0@),
        ) ==> signal == Signal::Continue,
{
    match decide(cancelled, verdict, path, stat) {
        Decision::Emit(entry) => {
            let mut credits = credits_of(root, &entry);
            let ghost none = credits.len() == 0;
            let mut signal = Signal::Continue;
            while credits.len() > 0 && signal == Signal::Continue
                invariant
                    signal == Signal::Continue || signal == Signal::Closed,
                    none ==> credits.len() == 0 && signal == Signal::Continue,
                decreases credits.len(),
            {
                let credit = credits.remove(0);
                signal = after_send(send_entry(tx, credit));
            }
            signal
        },
        Decision::Pass => Signal::Continue,
        Decision::Prune => Signal::Prune,
        Decision::Stop => Signal::Cancelled,
    }
}

/// Takes what one receive brought where the senders did the fan-out: a
/// credit is added to the total of its own path and of no other, and the end
/// of the stream changes nothing.
pub fn take_credit(record: &mut AggregateRecord, received: Option<FileEntry>) -> (progress:
    Progress)
    requires
        old(record).wf(),
    ensures
        final(record).wf(),
        received matches Some(credit) ==> progress == Progress::Absorbed && final(record)@ == old(
            record,
        )@.insert(credit@.path, capped(total_at(old(record)@, credit@.path) + credit@.size)),
        received is None ==> progress == Progress::Ended && final(record)@ == old(record)@,
{
    match received {
        Some(credit) => {
            record.credit(credit.path(), credit.size());
            Progress::Absorbed
        },
        None => Progress::Ended,
    }
}

/// One turn of a receiver of credits. After a cancellation it receives
/// nothing and leaves the record as it is. Otherwise it receives once,
/// waiting while the channel is empty and a sender is left, and takes what
/// came as `take_credit` does.
pub fn pump_credit(record: &mut AggregateRecord, rx: &Receiver<FileEntry>, cancelled: bool) -> (progress:
    Progress)
    requires
        old(record).wf(),
    ensures
        final(record).wf(),
        cancelled <==> progress == Progress::Cancelled,
        progress == Progress::Absorbed ==> exists|credit: EntryView|
            final(record)@ == old(record)@.insert(
                credit.path,
                capped(total_at(old(record)@, credit.path) + credit.size),
            ),
        progress != Progress::Absorbed ==> final(record)@ == old(record)@,
{
    if cancelled {
        return Progress::Cancelled;
    }
    let received = receive_entry(rx);
    let ghost arrived = received;
    let progress = take_credit(record, received);
    proof {
        if progress == Progress::Absorbed {
            let credit = arrived->0@;
            assert(record@ == old(record)@.insert(
                credit.path,
                capped(total_at(old(record)@, credit.path) + credit.size),
            ));
        }
    }
    progress
}

/// Takes what one receive brought where only the paths are counted: the
/// path of an entry is noted with a one, whatever its size, and the end of
/// the stream changes nothing.
pub fn take_mark(record: &mut AggregateRecord, received: Option<FileEntry>) -> (progress: Progress)
    requires
        old(record).wf(),
    ensures
        final(record).wf(),
        received matches Some(entry) ==> progress == Progress::Absorbed && final(record)@ == old(
            record,
        )@.insert(entry@.path, 1),
        received is None ==> progress == Progress::Ended && final(record)@ == old(record)@,
{
    match received {
        Some(entry) => {
            record.set(entry.path(), 1);
            Progress::Absorbed
        },
        None => Progress::Ended,
    }
}

/// One turn of a receiver that only counts paths. After a cancellation it
/// receives nothing and leaves the record as it is. Otherwise it receives
/// once, waiting while the channel is empty and a sender is left, and takes
/// what came as `take_mark` does.
pub fn pump_mark(record: &mut AggregateRecord, rx: &Receiver<FileEntry>, cancelled: bool) -> (progress:
    Progress)
    requires
        old(record).wf(),
    ensures
        final(record).wf(),
        cancelled <==> progress == Progress::Cancelled,
        progress == Progress::Absorbed ==> exists|path: Seq<char>|
            final(record)@ == old(record)@.insert(path, 1),
        progress != Progress::Absorbed ==> final(record)@ == old(record)@,
{
    if cancelled {
        return Progress::Cancelled;
    }
    let received = receive_entry(rx);
    let ghost arrived = received;
    let progress = take_mark(record, received);
    proof {
        if progress == Progress::Absorbed {
            assert(record@ == old(record)@.insert(arrived->0@.path, 1));
        }
    }
    progress
}

} // verus!
