use vstd::map::*;
use vstd::prelude::*;

use crate::errors::OffsetErr;
use crate::queue::{
    appended, fresh_queue, retained_from, truncated, Message, Queue, QueueView, Signal,
};
use std::collections::HashMap;
use std::sync::Arc;
use tokio::sync::broadcast::Receiver;

verus! {

broadcast use
    vstd::std_specs::hash::group_hash_axioms,
    vstd::std_specs::vec::axiom_spec_len,
;

/// The mathematical state of one topic: its log and its reader-offset
/// table, which counts, per offset, the subscriber sessions still
/// positioned to consume the message at that offset.
#[verifier::ext_equal]
pub ghost struct TopicView {
    pub log: QueueView,
    pub readers: Map<u128, i128>,
}

/// The state of a topic created by its first reference: an empty log and
/// an empty reader-offset table.
pub open spec fn fresh_topic() -> TopicView {
    TopicView { log: fresh_queue(), readers: Map::empty() }
}

/// An increment that sticks at the counter's ceiling instead of wrapping.
pub open spec fn sat_inc(v: i128) -> i128 {
    if v == i128::MAX {
        v
    } else {
        (v + 1) as i128
    }
}

/// A decrement that sticks at the counter's floor instead of wrapping.
pub open spec fn sat_dec(v: i128) -> i128 {
    if v == i128::MIN {
        v
    } else {
        (v - 1) as i128
    }
}

/// The reader table after one more session claims offset `k`: the entry is
/// created at one if absent, otherwise incremented.
pub open spec fn bumped(readers: Map<u128, i128>, k: u128) -> Map<u128, i128> {
    if readers.contains_key(k) {
        readers.insert(k, sat_inc(readers[k]))
    } else {
        readers.insert(k, 1)
    }
}

/// The reader table after a session gives up its claim on offset `k`: the
/// entry is decremented if present and left absent otherwise.
pub open spec fn dropped(readers: Map<u128, i128>, k: u128) -> Map<u128, i128> {
    if readers.contains_key(k) {
        readers.insert(k, sat_dec(readers[k]))
    } else {
        readers
    }
}

/// The registry after idempotently making sure topic `name` exists.
pub open spec fn ensure_topic_spec(
    m: Map<Seq<char>, TopicView>,
    name: Seq<char>,
) -> Map<Seq<char>, TopicView> {
    if m.contains_key(name) {
        m
    } else {
        m.insert(name, fresh_topic())
    }
}

/// The registry after a subscriber session registers a claim on offset
/// `seek` of topic `name`, creating the topic if it is absent.
pub open spec fn register_reader_spec(
    m: Map<Seq<char>, TopicView>,
    name: Seq<char>,
    seek: u128,
) -> Map<Seq<char>, TopicView> {
    let m1 = ensure_topic_spec(m, name);
    m1.insert(name, TopicView { log: m1[name].log, readers: bumped(m1[name].readers, seek) })
}

/// The registry after a session moves its claim on topic `name` from
/// offset `old_seek` to offset `new_seek`; nothing happens when the topic
/// does not exist.
pub open spec fn advance_reader_spec(
    m: Map<Seq<char>, TopicView>,
    name: Seq<char>,
    old_seek: u128,
    new_seek: u128,
) -> Map<Seq<char>, TopicView> {
    if !m.contains_key(name) {
        m
    } else {
        let t = m[name];
        m.insert(
            name,
            TopicView { log: t.log, readers: dropped(bumped(t.readers, new_seek), old_seek) },
        )
    }
}

/// The registry after a terminating session releases its claim on offset
/// `seek` of topic `name`; nothing happens when the topic does not exist.
pub open spec fn release_reader_spec(
    m: Map<Seq<char>, TopicView>,
    name: Seq<char>,
    seek: u128,
) -> Map<Seq<char>, TopicView> {
    if !m.contains_key(name) {
        m
    } else {
        let t = m[name];
        m.insert(name, TopicView { log: t.log, readers: dropped(t.readers, seek) })
    }
}

/// The registry after appending `msg` to the log of topic `name`; nothing
/// happens when the topic does not exist.
pub open spec fn publish_spec(
    m: Map<Seq<char>, TopicView>,
    name: Seq<char>,
    msg: Seq<char>,
) -> Map<Seq<char>, TopicView> {
    if !m.contains_key(name) {
        m
    } else {
        let t = m[name];
        m.insert(name, TopicView { log: appended(t.log, msg), readers: t.readers })
    }
}

/// An offset nobody claims: either no reader ever registered for it, or
/// every claim on it has been released.
pub open spec fn reclaimable(readers: Map<u128, i128>, k: u128) -> bool {
    !readers.contains_key(k) || readers[k] <= 0
}

/// One topic after a reclamation pass: the oldest retained message is
/// discarded, together with its spent reader entry, as long as its offset
/// is reclaimable; the pass stops at the first offset a reader still
/// claims, or when the log holds nothing.
pub open spec fn reclaim_topic(t: TopicView) -> TopicView
    decreases t.log.end - t.log.start,
    when t.log.start <= t.log.end
{
    if t.log.start >= t.log.end {
        t
    } else if reclaimable(t.readers, t.log.start as u128) {
        reclaim_topic(
            TopicView {
                log: truncated(t.log),
                readers: t.readers.remove(t.log.start as u128),
            },
        )
    } else {
        t
    }
}

/// The reader table after one more claim on offset `k`.
fn bump_reader(readers: &mut HashMap<u128, i128>, k: u128)
    ensures
        final(readers)@ == bumped(old(readers)@, k),
{
    let cur: Option<i128> = match readers.get(&k) {
        Some(v) => Some(*v),
        None => None,
    };
    match cur {
        Some(v) => {
            let nv: i128 = if v == i128::MAX {
                v
            } else {
                v + 1
            };
            readers.insert(k, nv);
        },
        None => {
            readers.insert(k, 1);
        },
    }
}

/// The reader table after one claim on offset `k` is given up.
fn drop_reader(readers: &mut HashMap<u128, i128>, k: u128)
    ensures
        final(readers)@ == dropped(old(readers)@, k),
{
    let cur: Option<i128> = match readers.get(&k) {
        Some(v) => Some(*v),
        None => None,
    };
    match cur {
        Some(v) => {
            let nv: i128 = if v == i128::MIN {
                v
            } else {
                v - 1
            };
            readers.insert(k, nv);
        },
        None => {},
    }
}

/// One topic of the registry: its name, its log, and its reader-offset
/// table, created together and sharing their lifecycle.
struct TopicEntry {
    name: String,
    queue: Queue,
    readers: HashMap<u128, i128>,
}

impl TopicEntry {
    /// The mathematical state of this topic.
    closed spec fn tview(&self) -> TopicView {
        TopicView { log: self.queue@, readers: self.readers@ }
    }
}

/// The index of the first entry named `name`, or -1 when there is none.
closed spec fn spec_find(s: Seq<TopicEntry>, name: Seq<char>) -> int
    decreases s.len(),
{
    if s.len() == 0 {
        -1
    } else if s[0].name@ == name {
        0
    } else {
        let r = spec_find(s.drop_first(), name);
        if r < 0 {
            -1
        } else {
            r + 1
        }
    }
}

/// No two entries share a name.
closed spec fn unique_names(s: Seq<TopicEntry>) -> bool {
    forall|i: int, j: int|
        0 <= i < j < s.len() ==> (#[trigger] s[i]).name@ != (#[trigger] s[j]).name@
}

/// The registry's mathematical state: topic name to topic state.
closed spec fn views_of(s: Seq<TopicEntry>) -> Map<Seq<char>, TopicView> {
    Map::new(
        |name: Seq<char>| spec_find(s, name) >= 0,
        |name: Seq<char>| s[spec_find(s, name)].tview(),
    )
}

proof fn lemma_find_props(s: Seq<TopicEntry>, name: Seq<char>)
    ensures
        spec_find(s, name) >= 0 ==> 0 <= spec_find(s, name) < s.len() && s[spec_find(
            s,
            name,
        )].name@ == name,
        spec_find(s, name) >= 0 ==> forall|j: int|
            0 <= j < spec_find(s, name) ==> (#[trigger] s[j]).name@ != name,
        spec_find(s, name) < 0 ==> spec_find(s, name) == -1 && (forall|i: int|
            0 <= i < s.len() ==> (#[trigger] s[i]).name@ != name),
    decreases s.len(),
{
    if s.len() == 0 {
    } else if s[0].name@ == name {
    } else {
        lemma_find_props(s.drop_first(), name);
        let r = spec_find(s.drop_first(), name);
        if r < 0 {
            assert forall|i: int| 0 <= i < s.len() implies (#[trigger] s[i]).name@ != name by {
                if i > 0 {
                    assert(s.drop_first()[i - 1] == s[i]);
                }
            }
        } else {
            assert(s.drop_first()[r] == s[r + 1]);
            assert forall|j: int| 0 <= j < r + 1 implies (#[trigger] s[j]).name@ != name by {
                if j > 0 {
                    assert(s.drop_first()[j - 1] == s[j]);
                }
            }
        }
    }
}

proof fn lemma_find_unique(s: Seq<TopicEntry>, name: Seq<char>, i: int)
    requires
        unique_names(s),
        0 <= i < s.len(),
        s[i].name@ == name,
    ensures
        spec_find(s, name) == i,
{
    lemma_find_props(s, name);
    let f = spec_find(s, name);
    if f < 0 {
        assert(s[i].name@ != name);
        assert(false);
    }
    if f != i {
        assert(s[f].name@ != s[i].name@);
        assert(false);
    }
}

/// Entries with the same names in the same places are found at the same
/// indices.
proof fn lemma_find_same_names(s1: Seq<TopicEntry>, s2: Seq<TopicEntry>, name: Seq<char>)
    requires
        s1.len() == s2.len(),
        forall|i: int| 0 <= i < s1.len() ==> (#[trigger] s1[i]).name@ == (#[trigger] s2[i]).name@,
    ensures
        spec_find(s1, name) == spec_find(s2, name),
    decreases s1.len(),
{
    if s1.len() != 0 {
        lemma_find_same_names(s1.drop_first(), s2.drop_first(), name);
        assert(forall|i: int|
            0 <= i < s1.drop_first().len() ==> #[trigger] s1.drop_first()[i] == s1[i + 1]);
        assert(forall|i: int|
            0 <= i < s2.drop_first().len() ==> #[trigger] s2.drop_first()[i] == s2[i + 1]);
    }
}

/// What the registry's state holds at a name is what the entry found under
/// that name holds.
proof fn lemma_view_at(s: Seq<TopicEntry>, n: Seq<char>)
    ensures
        views_of(s).contains_key(n) <==> spec_find(s, n) >= 0,
        spec_find(s, n) >= 0 ==> views_of(s)[n] == s[spec_find(s, n)].tview() && s[spec_find(
            s,
            n,
        )].name@ == n && 0 <= spec_find(s, n) < s.len(),
{
    lemma_find_props(s, n);
}

/// Replacing the entry at `i` by one with the same name changes the
/// registry's state exactly at that name.
proof fn lemma_view_after_update(s: Seq<TopicEntry>, i: int, e: TopicEntry)
    requires
        unique_names(s),
        0 <= i < s.len(),
        e.name@ == s[i].name@,
    ensures
        unique_names(s.update(i, e)),
        views_of(s.update(i, e)) == views_of(s).insert(s[i].name@, e.tview()),
{
    let s2 = s.update(i, e);
    let name = s[i].name@;
    assert forall|a: int, b: int| 0 <= a < b < s2.len() implies (#[trigger] s2[a]).name@ != (
    #[trigger] s2[b]).name@ by {
        assert(s2[a].name@ == s[a].name@);
        assert(s2[b].name@ == s[b].name@);
    }
    lemma_find_unique(s, name, i);
    lemma_find_unique(s2, name, i);
    let m1 = views_of(s2);
    let m2 = views_of(s).insert(s[i].name@, e.tview());
    assert_maps_equal!(m1, m2, n => {
        lemma_find_same_names(s, s2, n);
        lemma_find_props(s, n);
        if n != name && spec_find(s, n) >= 0 {
            assert(s2[spec_find(s, n)] == s[spec_find(s, n)]);
        }
    });
}

/// Appending an entry with a new name adds exactly that topic to the
/// registry's state.
proof fn lemma_view_after_push(s: Seq<TopicEntry>, e: TopicEntry)
    requires
        unique_names(s),
        spec_find(s, e.name@) == -1,
    ensures
        unique_names(s.push(e)),
        views_of(s.push(e)) == views_of(s).insert(e.name@, e.tview()),
{
    let s2 = s.push(e);
    let name = e.name@;
    lemma_find_props(s, name);
    assert forall|a: int, b: int| 0 <= a < b < s2.len() implies (#[trigger] s2[a]).name@ != (
    #[trigger] s2[b]).name@ by {
        assert(s2[a] == s[a]);
        if b < s.len() {
            assert(s2[b] == s[b]);
        } else {
            assert(s2[b] == e);
            assert(s[a].name@ != name);
        }
    }
    lemma_find_unique(s2, name, s.len() as int);
    let m1 = views_of(s2);
    let m2 = views_of(s).insert(e.name@, e.tview());
    assert_maps_equal!(m1, m2, n => {
        lemma_find_props(s, n);
        lemma_find_props(s2, n);
        if n != name {
            if spec_find(s, n) >= 0 {
                assert(s2[spec_find(s, n)] == s[spec_find(s, n)]);
                lemma_find_unique(s2, n, spec_find(s, n));
            } else if spec_find(s2, n) >= 0 {
                let f = spec_find(s2, n);
                assert(s2[f].name@ == n);
                if f < s.len() {
                    assert(s2[f] == s[f]);
                }
                assert(false);
            }
        }
    });
}

/// The broker registry: it owns every topic's log and reader-offset table
/// and multiplexes topic creation, reader claims, publishing, polling and
/// reclamation over them.
pub struct EventOrchestrator {
    topics: Vec<TopicEntry>,
}

impl View for EventOrchestrator {
    type V = Map<Seq<char>, TopicView>;

    closed spec fn view(&self) -> Map<Seq<char>, TopicView> {
        views_of(self.topics@)
    }
}

impl EventOrchestrator {
    /// Topic names are unique and every log's representation matches its
    /// model.
    pub closed spec fn wf(&self) -> bool {
        &&& unique_names(self.topics@)
        &&& forall|i: int| 0 <= i < self.topics@.len() ==> (#[trigger] self.topics@[i]).queue.wf()
    }

    /// Every topic of a well-formed registry has a well-formed log window.
    pub proof fn lemma_wf_topics(&self)
        requires
            self.wf(),
        ensures
            forall|n: Seq<char>| #[trigger] self@.contains_key(n) ==> self@[n].log.inv(),
    {
        assert forall|n: Seq<char>| #[trigger] self@.contains_key(n) implies self@[n].log.inv() by {
            lemma_find_props(self.topics@, n);
        }
    }

    /// An empty registry with no topics.
    pub fn new() -> (r: Self)
        ensures
            r.wf(),
            r@ == Map::<Seq<char>, TopicView>::empty(),
    {
        let r = EventOrchestrator { topics: Vec::new() };
        proof {
            assert(r@ =~= Map::<Seq<char>, TopicView>::empty());
        }
        r
    }

    /// The index of the topic named `name`, if it exists.
    fn find_topic(&self, name: &String) -> (r: Option<usize>)
        ensures
            match r {
                Some(i) => i < self.topics@.len() && spec_find(self.topics@, name@) == i,
                None => spec_find(self.topics@, name@) == -1,
            },
    {
        let n = self.topics.len();
        let mut i: usize = 0;
        while i < n
            invariant
                n == self.topics@.len(),
                i <= n,
                forall|j: int| 0 <= j < i ==> (#[trigger] self.topics@[j]).name@ != name@,
            decreases n - i,
        {
            if self.topics[i].name == *name {
                proof {
                    lemma_find_props(self.topics@, name@);
                    let f = spec_find(self.topics@, name@);
                    if f < 0 {
                        assert(self.topics@[i as int].name@ != name@);
                        assert(false);
                    } else if f < i {
                        assert(self.topics@[f].name@ == name@);
                        assert(false);
                    } else if f > i {
                        assert(self.topics@[i as int].name@ != name@);
                        assert(false);
                    }
                }
                return Some(i);
            }
            i = i + 1;
        }
        proof {
            lemma_find_props(self.topics@, name@);
        }
        None
    }

    /// Whether the registry holds a topic named `name`.
    pub fn has_topic(&self, name: &String) -> (r: bool)
        ensures
            r == self@.contains_key(name@),
    {
        self.find_topic(name).is_some()
    }

    /// The offset of the oldest retained message of topic `name`.
    pub fn topic_start(&self, name: &String) -> (r: Option<u128>)
        ensures
            self@.contains_key(name@) ==> r == Some((self@[name@].log.start) as u128),
            !self@.contains_key(name@) ==> r is None,
    {
        match self.find_topic(name) {
            Some(i) => Some(self.topics[i].queue.start_offset()),
            None => None,
        }
    }

    /// The offset one past the newest message of topic `name`.
    pub fn topic_end(&self, name: &String) -> (r: Option<u128>)
        ensures
            self@.contains_key(name@) ==> r == Some((self@[name@].log.end) as u128),
            !self@.contains_key(name@) ==> r is None,
    {
        match self.find_topic(name) {
            Some(i) => Some(self.topics[i].queue.end_offset()),
            None => None,
        }
    }

    /// The reader count registered for offset `k` of topic `name`, if any.
    pub fn reader_count(&self, name: &String, k: u128) -> (r: Option<i128>)
        ensures
            self@.contains_key(name@) ==> r == (if self@[name@].readers.contains_key(k) {
                Some(self@[name@].readers[k])
            } else {
                None::<i128>
            }),
            !self@.contains_key(name@) ==> r is None,
    {
        match self.find_topic(name) {
            Some(i) => match self.topics[i].readers.get(&k) {
                Some(v) => Some(*v),
                None => None,
            },
            None => None,
        }
    }

    /// A new wake-up subscription on topic `name`: the receiver sees every
    /// signal of appends that happen after this call.
    pub fn signal_receiver(&self, name: &String) -> (r: Option<Receiver<Signal>>)
        ensures
            r is Some <==> self@.contains_key(name@),
    {
        match self.find_topic(name) {
            Some(i) => Some(self.topics[i].queue.signal_recv()),
            None => None,
        }
    }

    /// Idempotently creates the topic `name`, with an empty log and an
    /// empty reader-offset table, when it is absent.
    pub fn ensure_topic(&mut self, name: &String)
        requires
            old(self).wf(),
        ensures
            final(self).wf(),
            final(self)@ == ensure_topic_spec(old(self)@, name@),
    {
        match self.find_topic(name) {
            Some(_) => {},
            None => {
                let entry = TopicEntry {
                    name: name.clone(),
                    queue: Queue::new(),
                    readers: HashMap::new(),
                };
                proof {
                    lemma_view_after_push(self.topics@, entry);
                    assert(entry.tview() =~~= fresh_topic());
                }
                let ghost pre = self.topics@;
                self.topics.push(entry);
                proof {
                    assert(self.topics@ =~= pre.push(entry));
                }
            },
        }
    }

    /// Registers a subscriber session's claim on offset `seek` of topic
    /// `queue_name`, creating the topic first when it is absent.
    pub fn queue(&mut self, queue_name: &String, seek: u128)
        requires
            old(self).wf(),
        ensures
            final(self).wf(),
            final(self)@ == register_reader_spec(old(self)@, queue_name@, seek),
    {
        self.ensure_topic(queue_name);
        let ghost m1 = self@;
        let ghost s = self.topics@;
        match self.find_topic(queue_name) {
            Some(i) => {
                let entry = &mut self.topics[i];
                bump_reader(&mut entry.readers, seek);
                proof {
                    lemma_view_at(s, queue_name@);
                    let e2 = self.topics@[i as int];
                    lemma_view_after_update(s, i as int, e2);
                    assert(self.topics@ =~= s.update(i as int, e2));
                    assert(e2.tview() =~~= TopicView {
                        log: m1[queue_name@].log,
                        readers: bumped(m1[queue_name@].readers, seek),
                    });
                    assert forall|j: int| 0 <= j < self.topics@.len() implies (#[trigger] self
                        .topics@[j]).queue.wf() by {
                        assert(self.topics@[j].queue == s[j].queue);
                    }
                }
            },
            None => {
                proof {
                    lemma_view_at(s, queue_name@);
                    assert(false);
                }
            },
        }
    }

    /// Moves a subscriber session's claim on topic `queue_name` from
    /// offset `old_seek` to offset `seek`; does nothing when the topic
    /// does not exist.
    pub fn seek(&mut self, queue_name: &String, old_seek: u128, seek: u128)
        requires
            old(self).wf(),
        ensures
            final(self).wf(),
            final(self)@ == advance_reader_spec(old(self)@, queue_name@, old_seek, seek),
    {
        let ghost m0 = self@;
        let ghost s = self.topics@;
        match self.find_topic(queue_name) {
            Some(i) => {
                let entry = &mut self.topics[i];
                bump_reader(&mut entry.readers, seek);
                drop_reader(&mut entry.readers, old_seek);
                proof {
                    lemma_view_at(s, queue_name@);
                    let e2 = self.topics@[i as int];
                    lemma_view_after_update(s, i as int, e2);
                    assert(self.topics@ =~= s.update(i as int, e2));
                    assert(e2.tview() =~~= TopicView {
                        log: m0[queue_name@].log,
                        readers: dropped(bumped(m0[queue_name@].readers, seek), old_seek),
                    });
                    assert forall|j: int| 0 <= j < self.topics@.len() implies (#[trigger] self
                        .topics@[j]).queue.wf() by {
                        assert(self.topics@[j].queue == s[j].queue);
                    }
                }
            },
            None => {},
        }
    }

    /// Releases a terminating session's claim on offset `seek` of topic
    /// `queue_name`; does nothing when the topic does not exist.
    pub fn down(&mut self, queue_name: &String, seek: u128)
        requires
            old(self).wf(),
        ensures
            final(self).wf(),
            final(self)@ == release_reader_spec(old(self)@, queue_name@, seek),
    {
        let ghost m0 = self@;
        let ghost s = self.topics@;
        match self.find_topic(queue_name) {
            Some(i) => {
                let entry = &mut self.topics[i];
                drop_reader(&mut entry.readers, seek);
                proof {
                    lemma_view_at(s, queue_name@);
                    let e2 = self.topics@[i as int];
                    lemma_view_after_update(s, i as int, e2);
                    assert(self.topics@ =~= s.update(i as int, e2));
                    assert(e2.tview() =~~= TopicView {
                        log: m0[queue_name@].log,
                        readers: dropped(m0[queue_name@].readers, seek),
                    });
                    assert forall|j: int| 0 <= j < self.topics@.len() implies (#[trigger] self
                        .topics@[j]).queue.wf() by {
                        assert(self.topics@[j].queue == s[j].queue);
                    }
                }
            },
            None => {},
        }
    }

    /// Appends one message to the log of topic `queue_name`, waking every
    /// current wake-up subscriber of that topic, and returns the offset at
    /// which the message now stands. The topic must exist: publishers
    /// create it when they name it, before streaming messages.
    pub fn publish(&mut self, queue_name: &String, message: Message) -> (offset: u128)
        requires
            old(self).wf(),
            old(self)@.contains_key(queue_name@),
            old(self)@[queue_name@].log.end < u128::MAX,
        ensures
            final(self).wf(),
            final(self)@ == publish_spec(old(self)@, queue_name@, message@),
            offset as int == old(self)@[queue_name@].log.end,
    {
        let ghost m0 = self@;
        let ghost s = self.topics@;
        match self.find_topic(queue_name) {
            Some(i) => {
                let entry = &mut self.topics[i];
                let offset = entry.queue.send_message(message);
                proof {
                    lemma_view_at(s, queue_name@);
                    let e2 = self.topics@[i as int];
                    lemma_view_after_update(s, i as int, e2);
                    assert(self.topics@ =~= s.update(i as int, e2));
                    assert(e2.tview() =~~= TopicView {
                        log: appended(m0[queue_name@].log, message@),
                        readers: m0[queue_name@].readers,
                    });
                    assert forall|j: int| 0 <= j < self.topics@.len() implies (#[trigger] self
                        .topics@[j]).queue.wf() by {
                        if j != i {
                            assert(self.topics@[j].queue == s[j].queue);
                        }
                    }
                }
                offset
            },
            None => {
                proof {
                    lemma_view_at(s, queue_name@);
                    assert(false);
                }
                0
            },
        }
    }

    /// Returns, in log order, every retained message of topic `queue_name`
    /// at an offset in `[*read_idx, end)`, advances `*read_idx` to `end`,
    /// and, when anything was retrieved, moves the session's reader claim
    /// from the old to the new offset. A `*read_idx` outside the retained
    /// window is rejected with `OffsetErr` and nothing changes.
    pub fn poll(&mut self, queue_name: &String, read_idx: &mut u128) -> (r: Result<
        Vec<Arc<Message>>,
        OffsetErr,
    >)
        requires
            old(self).wf(),
            old(self)@.contains_key(queue_name@),
        ensures
            final(self).wf(),
            ({
                let t = old(self)@[queue_name@];
                &&& (r is Ok <==> t.log.start <= *old(read_idx) <= t.log.end)
                &&& match r {
                    Ok(msgs) => {
                        &&& *final(read_idx) as int == t.log.end
                        &&& msgs@.map(|k: int, m: Arc<Message>| m@) == retained_from(
                            t.log,
                            *old(read_idx) as int,
                        )
                        &&& (msgs@.len() > 0 ==> final(self)@ == advance_reader_spec(
                            old(self)@,
                            queue_name@,
                            *old(read_idx),
                            *final(read_idx),
                        ))
                        &&& (msgs@.len() == 0 ==> final(self)@ == old(self)@)
                    },
                    Err(_) => {
                        &&& *final(read_idx) == *old(read_idx)
                        &&& final(self)@ == old(self)@
                    },
                }
            }),
    {
        let old_seek: u128 = *read_idx;
        let ghost s = self.topics@;
        let polled = match self.find_topic(queue_name) {
            Some(i) => {
                proof {
                    lemma_view_at(s, queue_name@);
                }
                self.topics[i].queue.poll_message(read_idx)
            },
            None => {
                proof {
                    lemma_view_at(s, queue_name@);
                    assert(false);
                }
                Err(OffsetErr)
            },
        };
        match polled {
            Ok(msgs) => {
                if msgs.len() > 0 {
                    self.seek(queue_name, old_seek, *read_idx);
                }
                Ok(msgs)
            },
            Err(e) => Err(e),
        }
    }

    /// Attaches a subscriber session to topic `queue_name`: the topic is
    /// created when absent, and the session registers a claim on the
    /// oldest retained offset, from which it will replay the whole backlog.
    /// Returns that offset as the session's first read position.
    pub fn subscriber_attach(&mut self, queue_name: &String) -> (read_idx: u128)
        requires
            old(self).wf(),
        ensures
            final(self).wf(),
            read_idx as int == ensure_topic_spec(old(self)@, queue_name@)[queue_name@].log.start,
            final(self)@ == register_reader_spec(old(self)@, queue_name@, read_idx),
    {
        self.ensure_topic(queue_name);
        proof {
            self.lemma_wf_topics();
        }
        let start = match self.topic_start(queue_name) {
            Some(s) => s,
            None => {
                proof {
                    assert(false);
                }
                0
            },
        };
        self.queue(queue_name, start);
        start
    }

    /// The periodic reclamation pass: for every topic, discards the oldest
    /// retained messages, together with their spent reader entries, for as
    /// long as the offset at the window's start is reclaimable, stopping at
    /// the first offset a reader still claims or when the log is empty.
    pub fn cleaner(&mut self)
        requires
            old(self).wf(),
        ensures
            final(self).wf(),
            final(self)@.dom() == old(self)@.dom(),
            forall|n: Seq<char>| #[trigger] old(self)@.contains_key(n) ==> final(self)@[n]
                == reclaim_topic(old(self)@[n]),
    {
        let ghost s0 = self.topics@;
        let n = self.topics.len();
        let mut i: usize = 0;
        while i < n
            invariant
                self.wf(),
                n == self.topics@.len(),
                s0.len() == n,
                i <= n,
                forall|j: int|
                    0 <= j < n ==> (#[trigger] self.topics@[j]).name@ == s0[j].name@,
                forall|j: int| i <= j < n ==> #[trigger] self.topics@[j] == s0[j],
                forall|j: int|
                    0 <= j < i ==> (#[trigger] self.topics@[j]).tview() == reclaim_topic(
                        s0[j].tview(),
                    ),
            decreases n - i,
        {
            let ghost s_iter = self.topics@;
            let mut entry = self.topics.remove(i);
            let ghost t0 = entry.tview();
            loop
                invariant
                    entry.queue.wf(),
                    entry.name@ == s0[i as int].name@,
                    reclaim_topic(entry.tview()) == reclaim_topic(t0),
                ensures
                    entry.queue.wf(),
                    entry.name@ == s0[i as int].name@,
                    entry.tview() == reclaim_topic(t0),
                decreases entry.queue@.end - entry.queue@.start,
            {
                let ghost t = entry.tview();
                let start = entry.queue.start_offset();
                let end = entry.queue.end_offset();
                if start >= end {
                    proof {
                        assert(reclaim_topic(t) == t);
                    }
                    break ;
                }
                let cnt: Option<i128> = match entry.readers.get(&start) {
                    Some(v) => Some(*v),
                    None => None,
                };
                match cnt {
                    Some(c) => {
                        if c > 0 {
                            proof {
                                assert(!reclaimable(t.readers, start));
                                assert(reclaim_topic(t) == t);
                            }
                            break ;
                        }
                        entry.readers.remove(&start);
                        entry.queue.truncate_oldest();
                        proof {
                            assert(entry.tview() =~~= TopicView {
                                log: truncated(t.log),
                                readers: t.readers.remove(start),
                            });
                            assert(reclaim_topic(t) == reclaim_topic(entry.tview()));
                        }
                    },
                    None => {
                        entry.queue.truncate_oldest();
                        proof {
                            assert(t.readers.remove(start) =~= t.readers);
                            assert(entry.tview() =~~= TopicView {
                                log: truncated(t.log),
                                readers: t.readers.remove(start),
                            });
                            assert(reclaim_topic(t) == reclaim_topic(entry.tview()));
                        }
                    },
                }
            }
            let ghost cleaned = entry;
            self.topics.insert(i, entry);
            proof {
                assert(self.topics@ =~= s_iter.update(i as int, cleaned));
                assert forall|a: int, b: int|
                    0 <= a < b < self.topics@.len() implies (#[trigger] self.topics@[a]).name@ != (
                #[trigger] self.topics@[b]).name@ by {
                    assert(self.topics@[a].name@ == s0[a].name@);
                    assert(self.topics@[b].name@ == s0[b].name@);
                }
            }
            i = i + 1;
        }
        proof {
            let sf = self.topics@;
            assert forall|nm: Seq<char>| true implies #[trigger] self@.contains_key(nm)
                == old(self)@.contains_key(nm) by {
                lemma_find_same_names(s0, sf, nm);
            }
            assert(self@.dom() =~= old(self)@.dom());
            assert forall|nm: Seq<char>| #[trigger] old(self)@.contains_key(nm) implies self@[nm]
                == reclaim_topic(old(self)@[nm]) by {
                lemma_find_same_names(s0, sf, nm);
                lemma_view_at(s0, nm);
                lemma_view_at(sf, nm);
            }
        }
    }
}

/// Reclamation safety: a reclamation pass never advances the log's start
/// past an offset on which some reader still holds a positive claim. In
/// particular, the start never exceeds the next unread offset of any
/// still-registered subscriber session.
pub proof fn lemma_reclamation_safety(t: TopicView, r: u128)
    requires
        t.log.inv(),
        t.log.start <= r as int <= t.log.end,
        t.readers.contains_key(r),
        t.readers[r] >= 1,
    ensures
        reclaim_topic(t).log.start <= r as int,
    decreases t.log.end - t.log.start,
{
    if t.log.start >= t.log.end {
    } else if reclaimable(t.readers, t.log.start as u128) {
        assert(t.log.start as u128 != r);
        let next = TopicView {
            log: truncated(t.log),
            readers: t.readers.remove(t.log.start as u128),
        };
        lemma_reclamation_safety(next, r);
    }
}

/// A reclamation pass only advances the window's start: the end stays, the
/// window stays well formed, and every message from the new start on is
/// the one the topic held before.
pub proof fn lemma_reclaim_window(t: TopicView)
    requires
        t.log.inv(),
    ensures
        reclaim_topic(t).log.inv(),
        t.log.start <= reclaim_topic(t).log.start <= reclaim_topic(t).log.end,
        reclaim_topic(t).log.end == t.log.end,
        forall|k: int|
            reclaim_topic(t).log.start <= k < t.log.end ==> #[trigger] reclaim_topic(
                t,
            ).log.msg_at(k) == t.log.msg_at(k),
    decreases t.log.end - t.log.start,
{
    if t.log.start >= t.log.end {
    } else if reclaimable(t.readers, t.log.start as u128) {
        let next = TopicView {
            log: truncated(t.log),
            readers: t.readers.remove(t.log.start as u128),
        };
        lemma_reclaim_window(next);
    }
}

/// Idempotent topic creation: making sure a topic exists twice yields
/// exactly the registry that one creation yields — the same log, no data
/// lost, no duplicate entry.
pub proof fn lemma_ensure_topic_idempotent(m: Map<Seq<char>, TopicView>, name: Seq<char>)
    ensures
        ensure_topic_spec(ensure_topic_spec(m, name), name) == ensure_topic_spec(m, name),
{
}

} // verus!
