//! Topic-based publish/subscribe: the subscription registry and the broker
//! built on it.
//!
//! Each subscriber owns a bounded inbox. A publish offers the message to every
//! subscriber of the topic in the order in which they subscribed; where an
//! inbox is full the message is dropped for that subscriber alone.
use crate::uid::{is_uid_text, Uid};
use vstd::prelude::*;

verus! {

/// Inbox capacity of a broker made with `Messenger::new`.
pub const DEFAULT_INBOX_CAPACITY: usize = 100;

#[derive(Debug)]
pub enum MessengerError {
    InitializationError(String),
    SendError(String),
    SubscribeError(String),
    UnsubscribeError(String),
    InvalidSubscriberId(String),
}

/// What a subscriber is: its identifier's text, its topic, the name of the
/// extension that owns it (empty where the host does), and the messages
/// waiting in its inbox, oldest first.
pub ghost struct SubscriberView {
    pub id: Seq<char>,
    pub topic: Seq<char>,
    pub owner: Seq<char>,
    pub inbox: Seq<Seq<u8>>,
}

/// A subscriber after a message for `topic` was offered to it.
pub open spec fn delivered(s: SubscriberView, topic: Seq<char>, msg: Seq<u8>, cap: nat) -> SubscriberView {
    if s.topic == topic && s.inbox.len() < cap {
        SubscriberView { inbox: s.inbox.push(msg), ..s }
    } else {
        s
    }
}

/// The subscribers after one publish of `msg` to `topic`.
pub open spec fn published(subs: Seq<SubscriberView>, topic: Seq<char>, msg: Seq<u8>, cap: nat) -> Seq<SubscriberView> {
    Seq::new(subs.len(), |i: int| delivered(subs[i], topic, msg, cap))
}

/// Whether `s` is the subscription of `id` to `topic`.
pub open spec fn is_subscription(s: SubscriberView, topic: Seq<char>, id: Seq<char>) -> bool {
    s.topic == topic && s.id == id
}

/// Holds of every subscriber but the subscription of `id` to `topic`.
pub open spec fn other_than(topic: Seq<char>, id: Seq<char>) -> spec_fn(SubscriberView) -> bool {
    |s: SubscriberView| !is_subscription(s, topic, id)
}

/// Holds of the subscribers that `owner` does not own.
pub open spec fn not_owned_by(owner: Seq<char>) -> spec_fn(SubscriberView) -> bool {
    |s: SubscriberView| s.owner != owner
}

/// Holds of the subscribers of `topic`.
pub open spec fn on_topic(topic: Seq<char>) -> spec_fn(SubscriberView) -> bool {
    |s: SubscriberView| s.topic == topic
}

/// The subscribers without the subscription of `id` to `topic`.
pub open spec fn unsubscribed(subs: Seq<SubscriberView>, topic: Seq<char>, id: Seq<char>) -> Seq<SubscriberView> {
    subs.filter(other_than(topic, id))
}

/// The identifiers of the subscribers of `topic`, in subscription order.
pub open spec fn topic_ids(subs: Seq<SubscriberView>, topic: Seq<char>) -> Seq<Seq<char>> {
    subs.filter(on_topic(topic)).map_values(|s: SubscriberView| s.id)
}

/// No two subscribers share an identifier.
pub open spec fn ids_unique(subs: Seq<SubscriberView>) -> bool {
    forall|i: int, j: int| 0 <= i < subs.len() && 0 <= j < subs.len() && i != j ==> subs[i].id != subs[j].id
}

/// Whether some subscriber has the identifier `id`.
pub open spec fn has_id(subs: Seq<SubscriberView>, id: Seq<char>) -> bool {
    exists|i: int| 0 <= i < subs.len() && subs[i].id == id
}

/// Filtering a prefix one element longer adds that element where it passes.
proof fn lemma_filter_take_step<A>(s: Seq<A>, pred: spec_fn(A) -> bool, i: int)
    requires
        0 <= i < s.len(),
    ensures
        s.take(i + 1).filter(pred) == if pred(s[i]) {
            s.take(i).filter(pred).push(s[i])
        } else {
            s.take(i).filter(pred)
        },
{
    reveal(Seq::filter);
    assert(s.take(i + 1).drop_last() =~= s.take(i));
}

/// What a filter leaves: entries of the old list only, each passing the
/// filter, and identifiers as unique as before.
proof fn lemma_filtered(subs: Seq<SubscriberView>, pred: spec_fn(SubscriberView) -> bool)
    ensures
        forall|k: int|
            0 <= k < subs.filter(pred).len() ==> subs.contains(#[trigger] subs.filter(pred)[k]) && pred(
                subs.filter(pred)[k],
            ),
        ids_unique(subs) ==> ids_unique(subs.filter(pred)),
    decreases subs.len(),
{
    reveal(Seq::filter);
    let f = subs.filter(pred);
    if subs.len() > 0 {
        let rest = subs.drop_last();
        lemma_filtered(rest, pred);
        let rf = rest.filter(pred);
        assert(f == if pred(subs.last()) {
            rf.push(subs.last())
        } else {
            rf
        });
        assert forall|k: int| 0 <= k < f.len() implies subs.contains(#[trigger] f[k]) && pred(f[k]) by {
            if k < rf.len() {
                assert(f[k] == rf[k]);
                assert(rest.contains(rf[k]));
                let j = choose|j: int| 0 <= j < rest.len() && rest[j] == rf[k];
                assert(subs[j] == rest[j]);
            } else {
                assert(f[k] == subs.last());
                assert(subs[subs.len() - 1] == subs.last());
            }
        }
        if ids_unique(subs) {
            assert(ids_unique(rest)) by {
                assert forall|a: int, b: int|
                    0 <= a < rest.len() && 0 <= b < rest.len() && a != b implies rest[a].id != rest[b].id by {
                    assert(rest[a] == subs[a] && rest[b] == subs[b]);
                }
            }
            assert forall|a: int, b: int| 0 <= a < f.len() && 0 <= b < f.len() && a != b implies f[a].id
                != f[b].id by {
                if a < rf.len() && b < rf.len() {
                    assert(f[a] == rf[a] && f[b] == rf[b]);
                } else if a < rf.len() {
                    assert(rest.contains(rf[a]));
                    let j = choose|j: int| 0 <= j < rest.len() && rest[j] == rf[a];
                    assert(f[a] == subs[j]);
                    assert(f[b] == subs[subs.len() - 1]);
                } else {
                    assert(rest.contains(rf[b]));
                    let j = choose|j: int| 0 <= j < rest.len() && rest[j] == rf[b];
                    assert(f[b] == subs[j]);
                    assert(f[a] == subs[subs.len() - 1]);
                }
            }
        }
    }
}

/// A subscriber: its identifier, its topic, its owner and its inbox.
pub struct Subscriber {
    id: Uid,
    topic: String,
    owner: String,
    inbox: Vec<Vec<u8>>,
}

impl View for Subscriber {
    type V = SubscriberView;

    closed spec fn view(&self) -> SubscriberView {
        SubscriberView {
            id: self.id@,
            topic: self.topic@,
            owner: self.owner@,
            inbox: self.inbox@.map_values(|m: Vec<u8>| m@),
        }
    }
}

impl Subscriber {
    /// A subscriber of `topic`, owned by `owner`, with an empty inbox.
    pub fn new(id: Uid, topic: String, owner: String) -> (r: Subscriber)
        ensures
            r@ == (SubscriberView { id: id@, topic: topic@, owner: owner@, inbox: Seq::empty() }),
    {
        let r = Subscriber { id, topic, owner, inbox: Vec::new() };
        assert(r@.inbox =~= Seq::<Seq<u8>>::empty());
        r
    }
}

/// The registry: every subscription, in the order in which it was made.
pub struct SubscriptionRepository {
    subscribers: Vec<Subscriber>,
}

impl View for SubscriptionRepository {
    type V = Seq<SubscriberView>;

    closed spec fn view(&self) -> Seq<SubscriberView> {
        self.subscribers@.map_values(|s: Subscriber| s@)
    }
}

impl SubscriptionRepository {
    pub fn new() -> (r: SubscriptionRepository)
        ensures
            r@ == Seq::<SubscriberView>::empty(),
    {
        let r = SubscriptionRepository { subscribers: Vec::new() };
        assert(r@ =~= Seq::<SubscriberView>::empty());
        r
    }

    /// Appends a subscription to its topic's list.
    pub fn add(&mut self, subscription: Subscriber)
        ensures
            final(self)@ == old(self)@.push(subscription@),
    {
        let ghost s = subscription@;
        self.subscribers.push(subscription);
        assert(self@ =~= old(self)@.push(s));
    }

    /// Removes the subscription of `id` to `topic`, if there is one; returns
    /// whether there was.
    pub fn remove(&mut self, topic: &str, id: &Uid) -> (r: bool)
        ensures
            final(self)@ == unsubscribed(old(self)@, topic@, id@),
            r == exists|i: int| 0 <= i < old(self)@.len() && is_subscription(old(self)@[i], topic@, id@),
    {
        let ghost orig = self@;
        let t = topic.to_owned();
        let mut rest: Vec<Subscriber> = Vec::new();
        std::mem::swap(&mut rest, &mut self.subscribers);
        let mut kept: Vec<Subscriber> = Vec::new();
        let mut found = false;
        let mut i: usize = 0;
        let ghost pred = other_than(topic@, id@);
        assert(rest@.map_values(|s: Subscriber| s@) == orig);
        let total = rest.len();
        while rest.len() > 0
            invariant
                total == orig.len(),
                pred == other_than(topic@, id@),
                i + rest@.len() == orig.len(),
                rest@.map_values(|s: Subscriber| s@) == orig.skip(i as int),
                kept@.map_values(|s: Subscriber| s@) == orig.take(i as int).filter(pred),
                t@ == topic@,
                found == exists|j: int| 0 <= j < i && is_subscription(orig[j], topic@, id@),
            decreases rest@.len(),
        {
            let ghost old_rest = rest@;
            let s = rest.remove(0);
            proof {
                assert(old_rest.map_values(|s: Subscriber| s@)[0] == orig.skip(i as int)[0]);
                assert(s@ == orig[i as int]);
                assert(rest@.map_values(|s: Subscriber| s@) =~= orig.skip(i as int + 1)) by {
                    assert forall|k: int| 0 <= k < rest@.len() implies rest@[k]@ == orig[i + 1 + k] by {
                        assert(rest@[k] == old_rest[k + 1]);
                        assert(old_rest.map_values(|s: Subscriber| s@)[k + 1] == orig.skip(i as int)[k + 1]);
                    }
                }
                lemma_filter_take_step(orig, pred, i as int);
            }
            let matches = s.topic == t && s.id.equals(id);
            if matches {
                found = true;
                assert(!pred(orig[i as int]));
            } else {
                let ghost sv = s@;
                let ghost old_kept = kept@;
                kept.push(s);
                proof {
                    assert(pred(orig[i as int]));
                    assert(kept@.map_values(|s: Subscriber| s@) =~= old_kept.map_values(|s: Subscriber| s@).push(sv));
                }
            }
            i = i + 1;
        }
        assert(orig.take(orig.len() as int) =~= orig);
        self.subscribers = kept;
        found
    }

    /// Removes every subscription that `owner` owns; returns how many there
    /// were.
    pub fn remove_owned(&mut self, owner: &str) -> (r: usize)
        ensures
            final(self)@ == old(self)@.filter(not_owned_by(owner@)),
            r == old(self)@.len() - final(self)@.len(),
    {
        let ghost orig = self@;
        let o = owner.to_owned();
        let mut rest: Vec<Subscriber> = Vec::new();
        std::mem::swap(&mut rest, &mut self.subscribers);
        let mut kept: Vec<Subscriber> = Vec::new();
        let mut removed: usize = 0;
        let mut i: usize = 0;
        let ghost pred = not_owned_by(owner@);
        assert(rest@.map_values(|s: Subscriber| s@) == orig);
        let total = rest.len();
        while rest.len() > 0
            invariant
                total == orig.len(),
                pred == not_owned_by(owner@),
                i + rest@.len() == orig.len(),
                rest@.map_values(|s: Subscriber| s@) == orig.skip(i as int),
                kept@.map_values(|s: Subscriber| s@) == orig.take(i as int).filter(pred),
                o@ == owner@,
                removed + kept@.len() == i,
            decreases rest@.len(),
        {
            let ghost old_rest = rest@;
            let s = rest.remove(0);
            proof {
                assert(old_rest.map_values(|s: Subscriber| s@)[0] == orig.skip(i as int)[0]);
                assert(s@ == orig[i as int]);
                assert(rest@.map_values(|s: Subscriber| s@) =~= orig.skip(i as int + 1)) by {
                    assert forall|k: int| 0 <= k < rest@.len() implies rest@[k]@ == orig[i + 1 + k] by {
                        assert(rest@[k] == old_rest[k + 1]);
                        assert(old_rest.map_values(|s: Subscriber| s@)[k + 1] == orig.skip(i as int)[k + 1]);
                    }
                }
                lemma_filter_take_step(orig, pred, i as int);
            }
            if s.owner == o {
                removed = removed + 1;
            } else {
                let ghost sv = s@;
                let ghost old_kept = kept@;
                kept.push(s);
                proof {
                    assert(kept@.map_values(|s: Subscriber| s@) =~= old_kept.map_values(|s: Subscriber| s@).push(sv));
                }
            }
            i = i + 1;
        }
        assert(orig.take(orig.len() as int) =~= orig);
        self.subscribers = kept;
        removed
    }

    /// A point-in-time copy of the identifiers of `topic`'s subscribers, in
    /// subscription order.
    pub fn get_subscriptions(&self, topic: &str) -> (r: Vec<Uid>)
        ensures
            r@.map_values(|u: Uid| u@) == topic_ids(self@, topic@),
    {
        let t = topic.to_owned();
        let mut r: Vec<Uid> = Vec::new();
        let mut i: usize = 0;
        let ghost subs = self@;
        let ghost pred = on_topic(topic@);
        while i < self.subscribers.len()
            invariant
                i <= self.subscribers@.len(),
                subs == self@,
                pred == on_topic(topic@),
                subs.len() == self.subscribers@.len(),
                t@ == topic@,
                r@.map_values(|u: Uid| u@) == subs.take(i as int).filter(pred).map_values(|s: SubscriberView| s.id),
            decreases self.subscribers@.len() - i,
        {
            proof {
                lemma_filter_take_step(subs, pred, i as int);
                assert(subs[i as int] == self.subscribers@[i as int]@);
            }
            if self.subscribers[i].topic == t {
                let u = self.subscribers[i].id.duplicate();
                let ghost old_r = r@;
                let ghost f = subs.take(i as int).filter(pred);
                r.push(u);
                proof {
                    assert(pred(subs[i as int]));
                    assert(r@.map_values(|u: Uid| u@) =~= old_r.map_values(|u: Uid| u@).push(subs[i as int].id));
                    assert(f.push(subs[i as int]).map_values(|s: SubscriberView| s.id) =~= f.map_values(
                        |s: SubscriberView| s.id,
                    ).push(subs[i as int].id));
                }
            }
            i = i + 1;
        }
        assert(subs.take(subs.len() as int) =~= subs);
        r
    }

    /// Offers `msg` to every subscriber of `topic` in subscription order: it
    /// enters each inbox that holds fewer than `cap` messages. Returns how
    /// many inboxes took it.
    pub fn deliver(&mut self, topic: &str, msg: &[u8], cap: usize) -> (r: usize)
        ensures
            final(self)@ == published(old(self)@, topic@, msg@, cap as nat),
            r <= old(self)@.len(),
    {
        let t = topic.to_owned();
        let mut n: usize = 0;
        let mut i: usize = 0;
        let ghost orig = self@;
        while i < self.subscribers.len()
            invariant
                i <= self.subscribers@.len(),
                self.subscribers@.len() == orig.len(),
                n <= i,
                t@ == topic@,
                forall|j: int| 0 <= j < i ==> #[trigger] self.subscribers@[j]@ == delivered(orig[j], topic@, msg@, cap as nat),
                forall|j: int| i <= j < orig.len() ==> #[trigger] self.subscribers@[j]@ == orig[j],
            decreases self.subscribers@.len() - i,
        {
            assert(self.subscribers@[i as int]@ == orig[i as int]);
            if self.subscribers[i].topic == t && self.subscribers[i].inbox.len() < cap {
                let m = vstd::slice::slice_to_vec(msg);
                let ghost before = self.subscribers@[i as int];
                self.subscribers[i].inbox.push(m);
                assert(self.subscribers@[i as int]@.inbox =~= before@.inbox.push(msg@));
                n = n + 1;
            }
            i = i + 1;
        }
        assert(self@ =~= published(orig, topic@, msg@, cap as nat));
        n
    }

    /// Index of the subscriber with identifier `id`, if any.
    fn position(&self, id: &Uid) -> (r: Option<usize>)
        ensures
            r matches Some(i) ==> i < self@.len() && self@[i as int].id == id@,
            r is None ==> !has_id(self@, id@),
    {
        let mut i: usize = 0;
        while i < self.subscribers.len()
            invariant
                i <= self.subscribers@.len(),
                forall|j: int| 0 <= j < i ==> self@[j].id != id@,
            decreases self.subscribers@.len() - i,
        {
            if self.subscribers[i].id.equals(id) {
                return Some(i);
            }
            i = i + 1;
        }
        None
    }

    /// Whether some subscriber has the identifier `id`.
    pub fn contains(&self, id: &Uid) -> (r: bool)
        ensures
            r == has_id(self@, id@),
    {
        self.position(id).is_some()
    }

    /// Takes the oldest message from the inbox of the subscriber `id`.
    pub fn take_next(&mut self, id: &Uid) -> (r: Option<Vec<u8>>)
        requires
            ids_unique(old(self)@),
        ensures
            forall|i: int|
                0 <= i < old(self)@.len() && old(self)@[i].id == id@ ==> {
                    let s = old(self)@[i];
                    if s.inbox.len() > 0 {
                        &&& r matches Some(m) && m@ == s.inbox[0]
                        &&& final(self)@ == old(self)@.update(
                            i,
                            SubscriberView { inbox: s.inbox.drop_first(), ..s },
                        )
                    } else {
                        r is None && final(self)@ == old(self)@
                    }
                },
            !has_id(old(self)@, id@) ==> r is None && final(self)@ == old(self)@,
    {
        match self.position(id) {
            None => None,
            Some(i) => {
                if self.subscribers[i].inbox.len() == 0 {
                    return None;
                }
                let ghost before = self.subscribers@[i as int]@;
                let m = self.subscribers[i].inbox.remove(0);
                assert(self.subscribers@[i as int]@.inbox =~= before.inbox.drop_first());
                assert(self@ =~= old(self)@.update(
                    i as int,
                    SubscriberView { inbox: before.inbox.drop_first(), ..before },
                ));
                Some(m)
            }
        }
    }

    /// Number of messages waiting for the subscriber `id`; zero where there
    /// is no such subscriber.
    pub fn pending(&self, id: &Uid) -> (r: usize)
        requires
            ids_unique(self@),
        ensures
            forall|i: int| 0 <= i < self@.len() && self@[i].id == id@ ==> r == self@[i].inbox.len(),
            !has_id(self@, id@) ==> r == 0,
    {
        match self.position(id) {
            None => 0,
            Some(i) => self.subscribers[i].inbox.len(),
        }
    }
}

/// What a broker is: its subscribers in subscription order, the number of
/// messages that each inbox holds at most, the owner of the subscriptions it
/// makes now (empty for the host), and every identifier it has ever
/// subscribed, in order.
pub ghost struct MessengerView {
    pub subscribers: Seq<SubscriberView>,
    pub capacity: nat,
    pub scope: Seq<char>,
    pub issued: Seq<Seq<char>>,
}

/// The broker's invariant: identifiers are unique identifier texts that the
/// broker issued, topics are not empty, and no inbox holds more than the
/// capacity.
pub open spec fn messenger_wf(v: MessengerView) -> bool {
    &&& ids_unique(v.subscribers)
    &&& forall|i: int|
        0 <= i < v.subscribers.len() ==> {
            &&& (#[trigger] v.subscribers[i]).inbox.len() <= v.capacity
            &&& is_uid_text(v.subscribers[i].id)
            &&& v.subscribers[i].topic.len() > 0
            &&& v.issued.contains(v.subscribers[i].id)
        }
}

/// Whether `id` is in `issued`.
fn issued_contains(issued: &Vec<Uid>, id: &Uid) -> (r: bool)
    ensures
        r == issued@.map_values(|u: Uid| u@).contains(id@),
{
    let ghost ids = issued@.map_values(|u: Uid| u@);
    let mut i: usize = 0;
    while i < issued.len()
        invariant
            i <= issued@.len(),
            ids == issued@.map_values(|u: Uid| u@),
            forall|j: int| 0 <= j < i ==> ids[j] != id@,
        decreases issued@.len() - i,
    {
        if issued[i].equals(id) {
            assert(ids[i as int] == id@);
            return true;
        }
        i = i + 1;
    }
    false
}

/// The topic-keyed fan-out hub.
pub struct Messenger {
    repository: SubscriptionRepository,
    capacity: usize,
    scope: String,
    issued: Vec<Uid>,
}

impl View for Messenger {
    type V = MessengerView;

    closed spec fn view(&self) -> MessengerView {
        MessengerView {
            subscribers: self.repository@,
            capacity: self.capacity as nat,
            scope: self.scope@,
            issued: self.issued@.map_values(|u: Uid| u@),
        }
    }
}

impl Messenger {
    #[verifier::type_invariant]
    spec fn inv(self) -> bool {
        messenger_wf(self@)
    }

    /// A broker with no subscribers whose inboxes hold
    /// `DEFAULT_INBOX_CAPACITY` messages.
    pub fn new() -> (r: Messenger)
        ensures
            r@.subscribers == Seq::<SubscriberView>::empty(),
            r@.capacity == DEFAULT_INBOX_CAPACITY,
            r@.scope == Seq::<char>::empty(),
            r@.issued == Seq::<Seq<char>>::empty(),
    {
        Messenger::with_capacity(DEFAULT_INBOX_CAPACITY)
    }

    /// A broker with no subscribers whose inboxes hold `capacity` messages.
    pub fn with_capacity(capacity: usize) -> (r: Messenger)
        ensures
            r@.subscribers == Seq::<SubscriberView>::empty(),
            r@.capacity == capacity,
            r@.scope == Seq::<char>::empty(),
            r@.issued == Seq::<Seq<char>>::empty(),
    {
        let issued: Vec<Uid> = Vec::new();
        assert(issued@.map_values(|u: Uid| u@) =~= Seq::<Seq<char>>::empty());
        Messenger { repository: SubscriptionRepository::new(), capacity, scope: String::new(), issued }
    }

    /// Subscriptions made from now on belong to `owner`; the empty name
    /// stands for the host.
    pub fn set_scope(&mut self, owner: &str)
        ensures
            final(self)@ == (MessengerView { scope: owner@, ..old(self)@ }),
    {
        proof {
            use_type_invariant(&*self);
        }
        self.scope = owner.to_owned();
    }

    /// Takes the registry out, leaving an empty one in its place.
    fn take_repository(&mut self) -> (r: SubscriptionRepository)
        ensures
            r@ == old(self)@.subscribers,
            final(self)@ == (MessengerView { subscribers: Seq::empty(), ..old(self)@ }),
            messenger_wf(old(self)@),
    {
        proof {
            use_type_invariant(&*self);
        }
        let mut repo = SubscriptionRepository::new();
        std::mem::swap(&mut repo, &mut self.repository);
        assert(self@ =~= MessengerView { subscribers: Seq::empty(), ..old(self)@ });
        repo
    }

    /// Puts a registry back in place of the empty one.
    fn put_repository(&mut self, repo: SubscriptionRepository)
        requires
            old(self)@.subscribers == Seq::<SubscriberView>::empty(),
            messenger_wf(MessengerView { subscribers: repo@, ..old(self)@ }),
        ensures
            final(self)@ == (MessengerView { subscribers: repo@, ..old(self)@ }),
    {
        self.repository = repo;
        assert(self@ =~= MessengerView { subscribers: repo@, ..old(self)@ });
    }

    /// Removes every subscription that `owner` owns; returns how many there
    /// were.
    pub fn unsubscribe_owner(&mut self, owner: &str) -> (r: usize)
        ensures
            final(self)@ == (MessengerView {
                subscribers: old(self)@.subscribers.filter(not_owned_by(owner@)),
                ..old(self)@
            }),
            r == old(self)@.subscribers.len() - final(self)@.subscribers.len(),
    {
        let mut repo = self.take_repository();
        let r = repo.remove_owned(owner);
        proof {
            let before = old(self)@.subscribers;
            let after = repo@;
            lemma_filtered(before, not_owned_by(owner@));
            assert forall|i: int| 0 <= i < after.len() implies {
                &&& (#[trigger] after[i]).inbox.len() <= self@.capacity
                &&& is_uid_text(after[i].id)
                &&& after[i].topic.len() > 0
                &&& self@.issued.contains(after[i].id)
            } by {
                assert(before.contains(after[i]));
            }
        }
        self.put_repository(repo);
        r
    }

    pub fn capacity(&self) -> (r: usize)
        ensures
            r == self@.capacity,
    {
        self.capacity
    }

    /// Subscribes `id` to `topic` with an empty inbox, owned by the current
    /// scope. Fails with `SubscribeError` where the topic is empty or the
    /// broker has issued the identifier before: no identifier is used twice,
    /// even after its subscription is gone.
    pub fn subscribe_with_id(&mut self, topic: &str, id: Uid) -> (r: Result<Uid, MessengerError>)
        ensures
            final(self)@.capacity == old(self)@.capacity,
            final(self)@.scope == old(self)@.scope,
            r is Ok <==> topic@.len() > 0 && !old(self)@.issued.contains(id@),
            r matches Ok(u) ==> u@ == id@ && final(self)@.subscribers == old(self)@.subscribers.push(
                SubscriberView { id: id@, topic: topic@, owner: old(self)@.scope, inbox: Seq::empty() },
            ) && final(self)@.issued == old(self)@.issued.push(id@),
            r matches Err(e) ==> e is SubscribeError && final(self)@ == old(self)@,
    {
        proof {
            use_type_invariant(&*self);
        }
        if topic.unicode_len() == 0 {
            return Err(MessengerError::SubscribeError(topic.to_owned()));
        }
        if issued_contains(&self.issued, &id) {
            return Err(MessengerError::SubscribeError(topic.to_owned()));
        }
        let r = id.duplicate();
        let record = id.duplicate();
        let ghost before = old(self)@.subscribers;
        let ghost old_issued = old(self)@.issued;
        let mut repo = self.take_repository();
        let mut issued: Vec<Uid> = Vec::new();
        std::mem::swap(&mut issued, &mut self.issued);
        assert(issued@.map_values(|u: Uid| u@) == old_issued);
        let s = Subscriber::new(id, topic.to_owned(), self.scope.clone());
        repo.add(s);
        issued.push(record);
        let ghost new_issued = issued@.map_values(|u: Uid| u@);
        assert(new_issued =~= old_issued.push(r@));
        proof {
            let after = repo@;
            assert(!has_id(before, r@)) by {
                if has_id(before, r@) {
                    let k = choose|k: int| 0 <= k < before.len() && before[k].id == r@;
                    assert(old_issued.contains(before[k].id));
                }
            }
            assert forall|i: int, j: int|
                0 <= i < after.len() && 0 <= j < after.len() && i != j implies after[i].id != after[j].id by {
                if i < before.len() && j < before.len() {
                    assert(after[i] == before[i] && after[j] == before[j]);
                } else if i < before.len() {
                    assert(after[i] == before[i]);
                } else {
                    assert(after[j] == before[j]);
                }
            }
            assert forall|i: int| 0 <= i < after.len() implies {
                &&& (#[trigger] after[i]).inbox.len() <= self@.capacity
                &&& is_uid_text(after[i].id)
                &&& after[i].topic.len() > 0
                &&& new_issued.contains(after[i].id)
            } by {
                if i < before.len() {
                    assert(after[i] == before[i]);
                    assert(old_issued.contains(before[i].id));
                    let k = choose|k: int| 0 <= k < old_issued.len() && old_issued[k] == before[i].id;
                    assert(new_issued[k] == old_issued[k]);
                } else {
                    assert(new_issued[new_issued.len() - 1] == r@);
                }
            }
        }
        self.issued = issued;
        assert(self@ =~= MessengerView { issued: new_issued, subscribers: Seq::empty(), ..old(self)@ });
        self.put_repository(repo);
        Ok(r)
    }

    /// Subscribes a fresh identifier to `topic`. Fails with `SubscribeError`
    /// where the topic is empty, or where the fresh identifier was issued
    /// before.
    pub fn subscribe(&mut self, topic: &str) -> (r: Result<Uid, MessengerError>)
        ensures
            final(self)@.capacity == old(self)@.capacity,
            final(self)@.scope == old(self)@.scope,
            topic@.len() == 0 ==> r is Err,
            r matches Ok(u) ==> is_uid_text(u@) && !old(self)@.issued.contains(u@)
                && final(self)@.subscribers == old(self)@.subscribers.push(
                SubscriberView { id: u@, topic: topic@, owner: old(self)@.scope, inbox: Seq::empty() },
            ) && final(self)@.issued == old(self)@.issued.push(u@),
            r matches Err(e) ==> e is SubscribeError && final(self)@ == old(self)@,
    {
        let id = Uid::new();
        let r = self.subscribe_with_id(topic, id);
        proof {
            if r is Ok {
                let u = r->Ok_0;
                let n = final(self)@.subscribers.len() - 1;
                assert(final(self)@.subscribers[n].id == u@);
            }
        }
        r
    }

    /// Offers `message` to each subscriber of `topic`, in subscription order;
    /// each inbox that is not full takes it. Returns how many took it.
    pub fn publish(&mut self, topic: &str, message: &[u8]) -> (r: usize)
        ensures
            final(self)@ == (MessengerView {
                subscribers: published(old(self)@.subscribers, topic@, message@, old(self)@.capacity),
                ..old(self)@
            }),
    {
        let cap = self.capacity;
        let mut repo = self.take_repository();
        let r = repo.deliver(topic, message, cap);
        proof {
            let before = old(self)@.subscribers;
            let after = repo@;
            assert forall|i: int| 0 <= i < after.len() implies {
                &&& (#[trigger] after[i]).inbox.len() <= self@.capacity
                &&& is_uid_text(after[i].id)
                &&& after[i].topic.len() > 0
                &&& self@.issued.contains(after[i].id)
            } by {
                assert(after[i] == delivered(before[i], topic@, message@, self@.capacity));
            }
            assert forall|i: int, j: int|
                0 <= i < after.len() && 0 <= j < after.len() && i != j implies after[i].id != after[j].id by {
                assert(after[i].id == before[i].id && after[j].id == before[j].id);
            }
        }
        self.put_repository(repo);
        r
    }

    /// Removes the subscription of `id` to `topic`; does nothing where there
    /// is none. Returns whether there was one.
    pub fn unsubscribe(&mut self, topic: &str, id: &Uid) -> (r: bool)
        ensures
            final(self)@ == (MessengerView {
                subscribers: unsubscribed(old(self)@.subscribers, topic@, id@),
                ..old(self)@
            }),
            r == exists|i: int|
                0 <= i < old(self)@.subscribers.len() && is_subscription(old(self)@.subscribers[i], topic@, id@),
    {
        let mut repo = self.take_repository();
        let r = repo.remove(topic, id);
        proof {
            let before = old(self)@.subscribers;
            let after = repo@;
            lemma_filtered(before, other_than(topic@, id@));
            assert forall|i: int| 0 <= i < after.len() implies {
                &&& (#[trigger] after[i]).inbox.len() <= self@.capacity
                &&& is_uid_text(after[i].id)
                &&& after[i].topic.len() > 0
                &&& self@.issued.contains(after[i].id)
            } by {
                assert(before.contains(after[i]));
            }
        }
        self.put_repository(repo);
        r
    }

    /// Takes the oldest message waiting for the subscriber `id`.
    pub fn receive(&mut self, id: &Uid) -> (r: Option<Vec<u8>>)
        ensures
            final(self)@.capacity == old(self)@.capacity,
            final(self)@.scope == old(self)@.scope,
            final(self)@.issued == old(self)@.issued,
            forall|i: int|
                0 <= i < old(self)@.subscribers.len() && old(self)@.subscribers[i].id == id@ ==> {
                    let s = old(self)@.subscribers[i];
                    if s.inbox.len() > 0 {
                        &&& r matches Some(m) && m@ == s.inbox[0]
                        &&& final(self)@.subscribers == old(self)@.subscribers.update(
                            i,
                            SubscriberView { inbox: s.inbox.drop_first(), ..s },
                        )
                    } else {
                        r is None && final(self)@ == old(self)@
                    }
                },
            !has_id(old(self)@.subscribers, id@) ==> r is None && final(self)@ == old(self)@,
    {
        let mut repo = self.take_repository();
        let r = repo.take_next(id);
        proof {
            let before = old(self)@.subscribers;
            let after = repo@;
            assert forall|i: int| 0 <= i < after.len() implies {
                &&& (#[trigger] after[i]).inbox.len() <= self@.capacity
                &&& is_uid_text(after[i].id)
                &&& after[i].topic.len() > 0
                &&& self@.issued.contains(after[i].id)
            } by {
                assert(after[i].id == before[i].id && after[i].topic == before[i].topic);
                assert(after[i].inbox.len() <= before[i].inbox.len());
            }
            assert forall|i: int, j: int|
                0 <= i < after.len() && 0 <= j < after.len() && i != j implies after[i].id != after[j].id by {
                assert(after[i].id == before[i].id && after[j].id == before[j].id);
            }
        }
        self.put_repository(repo);
        proof {
            if repo@ == old(self)@.subscribers {
                assert(self@ =~= old(self)@);
            }
        }
        r
    }

    /// Number of messages waiting for the subscriber `id`; zero where there is
    /// no such subscriber.
    pub fn pending(&self, id: &Uid) -> (r: usize)
        ensures
            forall|i: int|
                0 <= i < self@.subscribers.len() && self@.subscribers[i].id == id@ ==> r
                    == self@.subscribers[i].inbox.len(),
            !has_id(self@.subscribers, id@) ==> r == 0,
    {
        proof {
            use_type_invariant(self);
        }
        self.repository.pending(id)
    }

    /// A point-in-time copy of the identifiers of `topic`'s subscribers, in
    /// subscription order.
    pub fn subscribers(&self, topic: &str) -> (r: Vec<Uid>)
        ensures
            r@.map_values(|u: Uid| u@) == topic_ids(self@.subscribers, topic@),
    {
        self.repository.get_subscriptions(topic)
    }
}

/// The subscribers after `msgs` were published to `topic`, one after another.
pub open spec fn published_all(
    subs: Seq<SubscriberView>,
    topic: Seq<char>,
    msgs: Seq<Seq<u8>>,
    cap: nat,
) -> Seq<SubscriberView>
    decreases msgs.len(),
{
    if msgs.len() == 0 {
        subs
    } else {
        published(published_all(subs, topic, msgs.drop_last(), cap), topic, msgs.last(), cap)
    }
}

/// How many more messages an inbox has room for.
pub open spec fn room(s: SubscriberView, cap: nat) -> nat {
    if s.inbox.len() < cap {
        (cap - s.inbox.len()) as nat
    } else {
        0
    }
}

pub open spec fn min_nat(a: nat, b: nat) -> nat {
    if a <= b {
        a
    } else {
        b
    }
}

/// Publishing a sequence of messages to a topic leaves in each inbox of that
/// topic the messages it held before, then the published messages that found
/// room, in the order in which they were published; a message is dropped for a
/// subscriber only once its inbox is full. Subscribers of other topics are
/// untouched, and nobody's identifier or topic changes.
pub proof fn lemma_publish_fifo(subs: Seq<SubscriberView>, topic: Seq<char>, msgs: Seq<Seq<u8>>, cap: nat)
    ensures
        published_all(subs, topic, msgs, cap).len() == subs.len(),
        forall|i: int|
            0 <= i < subs.len() ==> {
                let s = subs[i];
                let r = #[trigger] published_all(subs, topic, msgs, cap)[i];
                &&& r.id == s.id
                &&& r.topic == s.topic
                &&& r.inbox == if s.topic == topic {
                    s.inbox + msgs.take(min_nat(room(s, cap), msgs.len()) as int)
                } else {
                    s.inbox
                }
            },
    decreases msgs.len(),
{
    if msgs.len() == 0 {
        assert forall|i: int| 0 <= i < subs.len() implies subs[i].inbox + msgs.take(0) == subs[i].inbox by {
            assert(subs[i].inbox + msgs.take(0) =~= subs[i].inbox);
        }
    } else {
        let prev_msgs = msgs.drop_last();
        lemma_publish_fifo(subs, topic, prev_msgs, cap);
        let prev = published_all(subs, topic, prev_msgs, cap);
        let next = published_all(subs, topic, msgs, cap);
        assert forall|i: int| 0 <= i < subs.len() implies {
            let s = subs[i];
            let r = #[trigger] published_all(subs, topic, msgs, cap)[i];
            &&& r.id == s.id
            &&& r.topic == s.topic
            &&& r.inbox == if s.topic == topic {
                s.inbox + msgs.take(min_nat(room(s, cap), msgs.len()) as int)
            } else {
                s.inbox
            }
        } by {
            let s = subs[i];
            assert(next[i] == delivered(prev[i], topic, msgs.last(), cap));
            if s.topic == topic {
                let n = (msgs.len() - 1) as nat;
                let k = min_nat(room(s, cap), n);
                assert(prev_msgs.take(k as int) == msgs.take(k as int));
                if n < room(s, cap) {
                    assert(prev[i].inbox.len() < cap);
                    assert(msgs.take(n as int).push(msgs.last()) =~= msgs.take(msgs.len() as int));
                    assert(s.inbox + prev_msgs.take(n as int) + seq![msgs.last()] =~= s.inbox + msgs.take(
                        msgs.len() as int,
                    ));
                    assert(next[i].inbox =~= s.inbox + msgs.take(msgs.len() as int));
                } else {
                    assert(prev[i].inbox.len() >= cap);
                }
            }
        }
    }
}

/// After `id` unsubscribes from `topic`, a publish to `topic` reaches no
/// subscription of `id`: none to `topic` is left, and every inbox of `id`
/// stays as it was.
pub proof fn lemma_no_delivery_after_unsubscribe(
    subs: Seq<SubscriberView>,
    topic: Seq<char>,
    id: Seq<char>,
    msg: Seq<u8>,
    cap: nat,
)
    ensures
        ({
            let after = unsubscribed(subs, topic, id);
            let next = published(after, topic, msg, cap);
            &&& next.len() == after.len()
            &&& forall|i: int| 0 <= i < next.len() ==> !is_subscription(#[trigger] next[i], topic, id)
            &&& forall|i: int| 0 <= i < next.len() && (#[trigger] next[i]).id == id ==> next[i].inbox == after[i].inbox
        }),
{
    lemma_filtered(subs, other_than(topic, id));
    let after = unsubscribed(subs, topic, id);
    let next = published(after, topic, msg, cap);
    assert forall|i: int| 0 <= i < next.len() implies !is_subscription(#[trigger] next[i], topic, id) by {
        assert(!is_subscription(after[i], topic, id));
    }
    assert forall|i: int| 0 <= i < next.len() && (#[trigger] next[i]).id == id implies next[i].inbox
        == after[i].inbox by {
        assert(!is_subscription(after[i], topic, id));
    }
}

/// The subscriber identifier whose text is `id`, or `None` where `id` is not
/// the text of an identifier.
pub fn string_to_subscriber_id(id: &str) -> (r: Option<Uid>)
    ensures
        r is Some <==> is_uid_text(id@),
        r matches Some(u) ==> u@ == id@,
{
    Uid::from_string(id)
}

} // verus!
