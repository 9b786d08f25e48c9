use vstd::prelude::*;

use crate::errors::OffsetErr;
use std::collections::VecDeque;
use std::sync::Arc;
use tokio::sync::broadcast::Receiver;
use tokio::sync::broadcast::Sender;

verus! {

broadcast use vstd::std_specs::vecdeque::axiom_spec_len;

/// One message: an immutable text payload, shared between the log and any
/// in-flight deliveries.
pub struct Message {
    pub message: String,
}

impl View for Message {
    type V = Seq<char>;

    open spec fn view(&self) -> Seq<char> {
        self.message@
    }
}

/// A wake-up signal, broadcast to every current subscriber of a topic on
/// each append. It carries no data: a subscriber that misses one recovers
/// everything by polling.
#[derive(Clone, Debug)]
pub struct Signal;

#[verifier::external_type_specification]
#[verifier::external_body]
#[verifier::reject_recursive_types(T)]
pub struct ExSender<T>(Sender<T>);

#[verifier::external_type_specification]
#[verifier::external_body]
#[verifier::reject_recursive_types(T)]
pub struct ExReceiver<T>(Receiver<T>);

/// Capacity of the wake-up broadcast channel of one topic log.
pub const SIGNAL_CHANNEL_CAPACITY: usize = 256;

/// Relies on tokio::sync::broadcast::channel: it panics only when the
/// capacity is zero or greater than usize::MAX / 2, and otherwise returns
/// a connected sender/receiver pair (the receiver is dropped here; new
/// ones come from subscribing to the sender).
#[verifier::external_body]
fn new_signal_channel(capacity: usize) -> Sender<Signal>
    requires
        1 <= capacity <= usize::MAX / 2,
{
    let (tx, _) = tokio::sync::broadcast::channel(capacity);
    tx
}

/// Relies on tokio::sync::broadcast::Sender::send: every currently
/// subscribed receiver is woken; an error means only that no receiver is
/// subscribed right now, which loses nothing, since the signal carries no
/// data.
#[verifier::external_body]
fn signal_send(sink: &Sender<Signal>, signal: Signal) {
    let _ = sink.send(signal);
}

/// Relies on tokio::sync::broadcast::Sender::subscribe: the new receiver
/// sees every signal sent after this call.
#[verifier::external_body]
fn signal_subscribe(sink: &Sender<Signal>) -> Receiver<Signal> {
    sink.subscribe()
}

/// Relies on Arc::clone: the returned handle refers to the very message it
/// was cloned from.
#[verifier::external_body]
fn share_message(message: &Arc<Message>) -> (r: Arc<Message>)
    ensures
        r == *message,
{
    message.clone()
}

/// The mathematical state of a topic log: the retained messages, and the
/// offsets delimiting the retained window. Offset `start + i` holds
/// message `msgs[i]`.
#[verifier::ext_equal]
pub ghost struct QueueView {
    pub msgs: Seq<Seq<char>>,
    pub start: int,
    pub end: int,
}

impl QueueView {
    /// The window is well formed: offsets are within the 128-bit range and
    /// the buffer holds exactly the messages between `start` and `end`.
    pub open spec fn inv(self) -> bool {
        &&& 0 <= self.start <= self.end <= u128::MAX
        &&& self.msgs.len() == self.end - self.start
    }

    /// The message retained at offset `k`.
    pub open spec fn msg_at(self, k: int) -> Seq<char>
        recommends
            self.start <= k < self.end,
    {
        self.msgs[k - self.start]
    }
}

/// The state of a freshly created topic log.
pub open spec fn fresh_queue() -> QueueView {
    QueueView { msgs: Seq::empty(), start: 0, end: 0 }
}

/// The log after appending one message.
pub open spec fn appended(pre: QueueView, msg: Seq<char>) -> QueueView {
    QueueView { msgs: pre.msgs.push(msg), start: pre.start, end: pre.end + 1 }
}

/// The log after discarding its oldest retained message.
pub open spec fn truncated(pre: QueueView) -> QueueView {
    QueueView {
        msgs: pre.msgs.subrange(1, pre.msgs.len() as int),
        start: pre.start + 1,
        end: pre.end,
    }
}

/// The messages retained at offsets `[r, end)`, in log order: what a poll
/// from offset `r` delivers.
pub open spec fn retained_from(q: QueueView, r: int) -> Seq<Seq<char>>
    recommends
        q.start <= r <= q.end,
{
    q.msgs.subrange(r - q.start, q.end - q.start)
}

/// The log obtained by appending the messages of `msgs`, in order, after
/// those already in `pre`.
pub open spec fn appended_all(pre: QueueView, msgs: Seq<Seq<char>>) -> QueueView
    decreases msgs.len(),
{
    if msgs.len() == 0 {
        pre
    } else {
        appended(appended_all(pre, msgs.drop_last()), msgs.last())
    }
}

/// Appending a batch of messages extends the buffer by exactly that batch
/// and moves only the window's end.
pub proof fn lemma_appended_all(pre: QueueView, msgs: Seq<Seq<char>>)
    ensures
        appended_all(pre, msgs).start == pre.start,
        appended_all(pre, msgs).end == pre.end + msgs.len(),
        appended_all(pre, msgs).msgs =~= pre.msgs + msgs,
    decreases msgs.len(),
{
    if msgs.len() == 0 {
        assert(pre.msgs + msgs =~= pre.msgs);
    } else {
        lemma_appended_all(pre, msgs.drop_last());
        assert((pre.msgs + msgs.drop_last()).push(msgs.last()) =~= pre.msgs + msgs);
    }
}

/// Append/poll order: appending any sequence of messages to a fresh topic
/// log yields a log whose full poll from offset zero delivers exactly
/// those messages, in append order.
pub proof fn lemma_append_poll_order(msgs: Seq<Seq<char>>)
    requires
        msgs.len() <= u128::MAX,
    ensures
        appended_all(fresh_queue(), msgs).inv(),
        appended_all(fresh_queue(), msgs).start == 0,
        appended_all(fresh_queue(), msgs).end == msgs.len(),
        retained_from(appended_all(fresh_queue(), msgs), 0) =~= msgs,
{
    lemma_appended_all(fresh_queue(), msgs);
    assert(retained_from(appended_all(fresh_queue(), msgs), 0) =~= msgs);
}

/// Replay correctness: a subscriber that polls the log at state `q1` from
/// offset `r`, and later — after appends moved the end forward and
/// reclamation removed only offsets below where it left off — polls the
/// state `q2` from `q1.end`, has then received the message of every offset
/// in `[r, q2.end)` exactly once, in order: element `i` of what it received
/// is the message at offset `r + i`, with no duplicates and no gaps.
pub proof fn lemma_replay_no_gaps(q1: QueueView, q2: QueueView, r: int)
    requires
        q1.inv(),
        q2.inv(),
        q1.start <= r <= q1.end,
        q2.start <= q1.end <= q2.end,
    ensures
        (retained_from(q1, r) + retained_from(q2, q1.end)).len() == q2.end - r,
        forall|i: int|
            0 <= i < q2.end - r ==> (retained_from(q1, r) + retained_from(q2, q1.end))[i] == (if r
                + i < q1.end {
                q1.msg_at(r + i)
            } else {
                q2.msg_at(r + i)
            }),
{
}

/// An append-only, offset-addressed log of messages for one topic, with a
/// broadcast wake-up channel that signals every current subscriber on each
/// append.
pub struct Queue {
    queue: VecDeque<Arc<Message>>,
    start_idx: u128,
    end_idx: u128,
    inbound_sink: Sender<Signal>,
}

impl View for Queue {
    type V = QueueView;

    closed spec fn view(&self) -> QueueView {
        QueueView {
            msgs: self.queue@.map(|i: int, m: Arc<Message>| m@),
            start: self.start_idx as int,
            end: self.end_idx as int,
        }
    }
}

impl Queue {
    /// The log's representation matches its model.
    pub open spec fn wf(&self) -> bool {
        self@.inv()
    }

    /// A fresh, empty log whose retained window starts at offset zero.
    pub fn new() -> (q: Queue)
        ensures
            q.wf(),
            q@ == fresh_queue(),
    {
        let q = Queue {
            queue: VecDeque::new(),
            start_idx: 0,
            end_idx: 0,
            inbound_sink: new_signal_channel(SIGNAL_CHANNEL_CAPACITY),
        };
        proof {
            assert(q@ =~= fresh_queue());
        }
        q
    }

    /// The offset of the oldest retained message.
    pub fn start_offset(&self) -> (r: u128)
        ensures
            r as int == self@.start,
    {
        self.start_idx
    }

    /// The offset one past the newest message.
    pub fn end_offset(&self) -> (r: u128)
        ensures
            r as int == self@.end,
    {
        self.end_idx
    }

    /// Appends one message at the end of the log and wakes every current
    /// subscriber of the wake-up channel; returns the offset at which the
    /// message now stands.
    pub fn send_message(&mut self, message: Message) -> (offset: u128)
        requires
            old(self).wf(),
            old(self)@.end < u128::MAX,
        ensures
            final(self).wf(),
            final(self)@ == appended(old(self)@, message@),
            offset as int == old(self)@.end,
    {
        let offset = self.end_idx;
        let ghost pre = self@;
        self.queue.push_back(Arc::new(message));
        self.end_idx = self.end_idx + 1;
        proof {
            assert(self@.msgs =~= appended(pre, message@).msgs);
            assert(self@ =~= appended(pre, message@));
        }
        signal_send(&self.inbound_sink, Signal);
        offset
    }

    /// A new wake-up subscription: the receiver sees every signal sent by
    /// appends that happen after this call.
    pub fn signal_recv(&self) -> Receiver<Signal> {
        signal_subscribe(&self.inbound_sink)
    }

    /// Returns, in log order, every retained message at an offset in
    /// `[*read_idx, end)`, advancing `*read_idx` to `end`. An offset
    /// outside the retained window `[start, end]` is rejected with
    /// `OffsetErr` and nothing changes; polling at `end` succeeds with an
    /// empty result.
    pub fn poll_message(&self, read_idx: &mut u128) -> (r: Result<Vec<Arc<Message>>, OffsetErr>)
        requires
            self.wf(),
        ensures
            r is Ok <==> self@.start <= *old(read_idx) <= self@.end,
            match r {
                Ok(msgs) => {
                    &&& *final(read_idx) as int == self@.end
                    &&& msgs@.map(|i: int, m: Arc<Message>| m@) == retained_from(
                        self@,
                        *old(read_idx) as int,
                    )
                },
                Err(_) => *final(read_idx) == *old(read_idx),
            },
    {
        if *read_idx < self.start_idx || *read_idx > self.end_idx {
            return Err(OffsetErr);
        }
        let ghost r0 = *read_idx as int;
        let mut messages: Vec<Arc<Message>> = Vec::new();
        while *read_idx < self.end_idx
            invariant
                self.wf(),
                self@.start <= r0 <= *read_idx <= self@.end,
                messages@.map(|i: int, m: Arc<Message>| m@) =~= self@.msgs.subrange(
                    r0 - self@.start,
                    *read_idx - self@.start,
                ),
            decreases self@.end - *read_idx,
        {
            let ghost pre_msgs = messages@;
            let offset_wide = *read_idx - self.start_idx;
            let qlen: usize = self.queue.len();
            assert(offset_wide < qlen);
            let offset = offset_wide as usize;
            let message = share_message(&self.queue[offset]);
            messages.push(message);
            *read_idx = *read_idx + 1;
            proof {
                assert(messages@.map(|i: int, m: Arc<Message>| m@) =~= pre_msgs.map(
                    |i: int, m: Arc<Message>| m@,
                ).push(self@.msgs[offset as int]));
                assert(messages@.map(|i: int, m: Arc<Message>| m@) =~= self@.msgs.subrange(
                    r0 - self@.start,
                    *read_idx - self@.start,
                ));
            }
        }
        proof {
            assert(messages@.map(|i: int, m: Arc<Message>| m@) =~= retained_from(self@, r0));
        }
        Ok(messages)
    }

    /// Removes the message at the start of the retained window and
    /// advances the window's start by one; does nothing when the log
    /// retains no message.
    pub fn truncate_oldest(&mut self)
        requires
            old(self).wf(),
        ensures
            final(self).wf(),
            old(self)@.start == old(self)@.end ==> final(self)@ == old(self)@,
            old(self)@.start < old(self)@.end ==> final(self)@ == truncated(old(self)@),
    {
        if self.start_idx < self.end_idx {
            let ghost pre = self@;
            let _ = self.queue.pop_front();
            self.start_idx = self.start_idx + 1;
            proof {
                assert(self@.msgs =~= truncated(pre).msgs);
                assert(self@ =~= truncated(pre));
            }
        }
    }
}

} // verus!
