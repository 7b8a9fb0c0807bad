//! The pub/sub hub: named channels, each a bounded broadcast to its subscribers.
use crate::strmap::StrMap;
use tokio::sync::broadcast::{Receiver, Sender};
use vstd::prelude::*;

verus! {

/// The sending half of a broadcast channel.
#[verifier::external_type_specification]
#[verifier::external_body]
#[verifier::reject_recursive_types(T)]
pub struct ExSender<T>(Sender<T>);

/// A subscription to a broadcast channel.
#[verifier::external_type_specification]
#[verifier::external_body]
#[verifier::reject_recursive_types(T)]
pub struct ExReceiver<T>(Receiver<T>);

/// How many messages each subscriber may have in flight.
pub const CHANNEL_CAPACITY: usize = 1024;

/// Relies on `broadcast::Sender::new`: a channel with no subscriber yet; it
/// panics on a capacity of 0 or above `usize::MAX / 2`.
#[verifier::external_body]
fn new_sender(capacity: usize) -> Sender<Vec<u8>>
    requires
        0 < capacity <= usize::MAX / 2,
{
    Sender::new(capacity)
}

/// Relies on `broadcast::Sender::send`: it fails when no subscriber is active,
/// and otherwise hands back how many were.
#[verifier::external_body]
fn send_to(sender: &Sender<Vec<u8>>, message: Vec<u8>) -> (r: Option<usize>)
    ensures
        r matches Some(n) ==> n > 0,
{
    sender.send(message).ok()
}

/// Relies on `broadcast::Sender::subscribe`: a new subscription to the channel.
#[verifier::external_body]
fn subscribe_to(sender: &Sender<Vec<u8>>) -> Receiver<Vec<u8>> {
    sender.subscribe()
}

/// Relies on `broadcast::Sender::receiver_count`: how many subscriptions are live.
#[verifier::external_body]
fn receivers_of(sender: &Sender<Vec<u8>>) -> usize {
    sender.receiver_count()
}

/// Channels by name.
pub struct PubSub {
    channels: StrMap<Sender<Vec<u8>>>,
}

impl Default for PubSub {
    fn default() -> (r: PubSub)
        ensures
            r.wf(),
            r@ == Set::<Seq<char>>::empty(),
    {
        PubSub::new()
    }
}

impl View for PubSub {
    type V = Set<Seq<char>>;

    /// The names of the channels held.
    closed spec fn view(&self) -> Set<Seq<char>> {
        self.channels@.dom()
    }
}

impl PubSub {
    pub closed spec fn wf(&self) -> bool {
        self.channels.wf()
    }

    pub fn new() -> (r: PubSub)
        ensures
            r.wf(),
            r@ == Set::<Seq<char>>::empty(),
    {
        let r = PubSub { channels: StrMap::new() };
        assert(r@ =~= Set::<Seq<char>>::empty());
        r
    }

    /// Sends `message` to the subscribers of `channel` and hands back how many
    /// there were: 0 when the channel is not held, and then it is not created.
    pub fn publish(&self, channel: &str, message: Vec<u8>) -> (r: usize)
        requires
            self.wf(),
        ensures
            !self@.contains(channel@) ==> r == 0,
    {
        match self.channels.get(channel) {
            Some(sender) => match send_to(sender, message) {
                Some(n) => n,
                None => 0,
            },
            None => 0,
        }
    }

    /// Subscribes to `channel`, creating it on first use.
    pub fn subscribe(&mut self, channel: String) -> (r: Receiver<Vec<u8>>)
        requires
            old(self).wf(),
        ensures
            final(self).wf(),
            final(self)@ == old(self)@.insert(channel@),
    {
        if !self.channels.contains_key(channel.as_str()) {
            let sender = new_sender(CHANNEL_CAPACITY);
            let r = subscribe_to(&sender);
            let ghost name = channel@;
            self.channels.insert(channel, sender);
            assert(self@ =~= old(self)@.insert(name));
            return r;
        }
        let r = subscribe_to(self.channels.get(channel.as_str()).unwrap());
        assert(self@ =~= old(self)@.insert(channel@));
        r
    }

    /// How many subscribers `channel` has; 0 when it is not held.
    pub fn num_subscribers(&self, channel: &str) -> (r: usize)
        requires
            self.wf(),
        ensures
            !self@.contains(channel@) ==> r == 0,
    {
        match self.channels.get(channel) {
            Some(sender) => receivers_of(sender),
            None => 0,
        }
    }

    /// How many channels are held.
    pub fn num_channels(&self) -> (r: usize)
        requires
            self.wf(),
        ensures
            r == self@.len(),
    {
        self.channels.len()
    }

    /// Drops each channel of `names` whose count in `counts` (same place) is 0.
    pub fn drop_idle(&mut self, names: &Vec<String>, counts: &Vec<usize>)
        requires
            old(self).wf(),
            names@.len() == counts@.len(),
        ensures
            final(self).wf(),
            final(self)@ == old(self)@.filter(
                |k: Seq<char>| !named_idle(names@, counts@, names@.len() as int, k),
            ),
    {
        let mut i: usize = 0;
        assert(old(self)@ =~= old(self)@.filter(|k: Seq<char>| !named_idle(names@, counts@, 0, k)));
        while i < names.len()
            invariant
                self.wf(),
                i <= names@.len(),
                names@.len() == counts@.len(),
                self@ == old(self)@.filter(|k: Seq<char>| !named_idle(names@, counts@, i as int, k)),
            decreases names@.len() - i,
        {
            let ghost before = self@;
            if counts[i] == 0 {
                self.channels.remove(names[i].as_str());
            }
            assert forall|k: Seq<char>| #[trigger] self@.contains(k) == old(self)@.filter(
                |k: Seq<char>| !named_idle(names@, counts@, i + 1, k),
            ).contains(k) by {
                if named_idle(names@, counts@, i + 1, k) && !named_idle(names@, counts@, i as int, k) {
                    let j = choose|j: int| 0 <= j < i + 1 && names@[j]@ == k && counts@[j] == 0;
                    assert(j == i);
                }
                if named_idle(names@, counts@, i as int, k) {
                    let j = choose|j: int| 0 <= j < i && names@[j]@ == k && counts@[j] == 0;
                    assert(0 <= j < i + 1 && names@[j]@ == k && counts@[j] == 0);
                }
                if counts@[i as int] == 0 && k == names@[i as int]@ {
                    assert(0 <= i < i + 1 && names@[i as int]@ == k && counts@[i as int] == 0);
                }
            }
            assert(self@ =~= old(self)@.filter(|k: Seq<char>| !named_idle(names@, counts@, i + 1, k)));
            i = i + 1;
        }
    }

    /// Drops the channels that have no subscriber left: each held channel is
    /// dropped exactly when its subscriber count, read once, is 0.
    pub fn cleanup_empty_channels(&mut self)
        requires
            old(self).wf(),
        ensures
            final(self).wf(),
            final(self)@.subset_of(old(self)@),
    {
        let n = self.channels.len();
        let mut names: Vec<String> = Vec::new();
        let mut counts: Vec<usize> = Vec::new();
        let mut i: usize = 0;
        while i < n
            invariant
                self.wf(),
                n == self.channels@.len(),
                i <= n,
                names@.len() == i,
                counts@.len() == i,
            decreases n - i,
        {
            names.push(self.channels.key_at(i).clone());
            counts.push(receivers_of(self.channels.value_at(i)));
            i = i + 1;
        }
        self.drop_idle(&names, &counts);
    }
}

/// Whether one of the first `n` of `names` is `k` with a count of 0.
pub open spec fn named_idle(names: Seq<String>, counts: Seq<usize>, n: int, k: Seq<char>) -> bool {
    exists|i: int| 0 <= i < n && names[i]@ == k && counts[i] == 0
}

} // verus!
