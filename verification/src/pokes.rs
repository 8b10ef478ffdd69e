//! The channels on which users are told that new ops have landed.
use crate::table;
use crate::table::Table;
use vstd::prelude::*;

verus! {

/// Beyond this size the table is swept of channels that nobody listens to.
pub const MAX_POKE_ENTRIES: usize = 1024;

/// One channel for each user who has had one. A channel is whatever pokes are
/// sent on.
pub struct Pokes<C> {
    channels: Table<C>,
}

impl<C> View for Pokes<C> {
    type V = Map<Seq<char>, C>;

    closed spec fn view(&self) -> Map<Seq<char>, C> {
        self.channels@
    }
}

/// What is left of the channels once a large table is swept of those without
/// receivers.
pub open spec fn swept<C>(
    entries: Seq<(Seq<char>, C)>,
    channels: Map<Seq<char>, C>,
    receivers: Seq<usize>,
) -> Map<Seq<char>, C> {
    if channels.dom().len() > MAX_POKE_ENTRIES {
        Map::new(
            |key: Seq<char>|
                exists|i: int|
                    0 <= i < entries.len() && (#[trigger] entries[i]).0 == key && receivers[i] > 0,
            |key: Seq<char>| channels[key],
        )
    } else {
        channels
    }
}

impl<C> Pokes<C> {
    pub closed spec fn wf(self) -> bool {
        self.channels.wf()
    }

    /// The channels in the order they are walked in, with their users.
    pub closed spec fn entries(self) -> Seq<(Seq<char>, C)> {
        self.channels.entries()
    }

    /// Each user has one channel.
    pub proof fn lemma_entries(self)
        requires
            self.wf(),
        ensures
            forall|key: Seq<char>| #[trigger]
                self@.contains_key(key) ==> exists|i: int|
                    0 <= i < self.entries().len() && (#[trigger] self.entries()[i]).0 == key,
            forall|i: int|
                0 <= i < self.entries().len() ==> self@.contains_key(
                    (#[trigger] self.entries()[i]).0,
                ) && self@[self.entries()[i].0] == self.entries()[i].1,
    {
        self.channels.lemma_entries();
        assert forall|key: Seq<char>| #[trigger] self@.contains_key(key) implies exists|i: int|
            0 <= i < self.entries().len() && (#[trigger] self.entries()[i]).0 == key by {
            let i = choose|i: int|
                0 <= i < self.channels.entries().len() && (
                #[trigger] self.channels.entries()[i]).0 == key;
            assert(self.entries()[i].0 == key);
        }
    }

    /// No channels.
    pub fn new() -> (pokes: Self)
        ensures
            pokes.wf(),
            pokes@ == Map::<Seq<char>, C>::empty(),
    {
        Pokes { channels: Table::new() }
    }

    /// How many channels there are.
    pub fn len(&self) -> (len: usize)
        requires
            self.wf(),
        ensures
            len == self@.dom().len(),
            len == self.entries().len(),
    {
        self.channels.len()
    }

    /// The channel at a place.
    pub fn channel_at(&self, i: usize) -> (channel: &C)
        requires
            self.wf(),
            i < self.entries().len(),
        ensures
            *channel == self.entries()[i as int].1,
    {
        self.channels.value_at(i)
    }

    /// The channel of a user, which is `fresh` if there was none. A large
    /// table is swept first; `receivers` then says how many listen to the
    /// channel at each place.
    pub fn poke_channel(&mut self, pubkey: &str, receivers: &Vec<usize>, fresh: C) -> (channel: &C)
        requires
            old(self).wf(),
            old(self)@.dom().len() > MAX_POKE_ENTRIES ==> receivers@.len() == old(
                self,
            ).entries().len(),
        ensures
            final(self).wf(),
            ({
                let left = swept(old(self).entries(), old(self)@, receivers@);
                final(self)@ == if left.contains_key(pubkey@) {
                    left
                } else {
                    left.insert(pubkey@, fresh)
                }
            }),
            *channel == final(self)@[pubkey@],
    {
        let ghost all = self.entries();
        let ghost was = self@;
        if self.channels.len() > MAX_POKE_ENTRIES {
            let mut keep: Vec<bool> = Vec::new();
            let mut i: usize = 0;
            while i < receivers.len()
                invariant
                    i <= receivers.len(),
                    keep@.len() == i,
                    forall|j: int| 0 <= j < i ==> #[trigger] keep@[j] == (receivers@[j] > 0),
                decreases receivers.len() - i,
            {
                keep.push(receivers[i] > 0);
                i += 1;
            }
            self.channels.retain(&keep);
            proof {
                let left = swept(all, was, receivers@);
                assert forall|k: Seq<char>| table::keeps(all, keep@, k, 0) == left.contains_key(
                    k,
                ) by {
                    if table::keeps(all, keep@, k, 0) {
                        let i = choose|i: int|
                            0 <= i < all.len() && (#[trigger] all[i]).0 == k && keep@[i];
                        assert(all[i].0 == k && receivers@[i] > 0);
                    }
                    if left.contains_key(k) {
                        let i = choose|i: int|
                            0 <= i < all.len() && (#[trigger] all[i]).0 == k && receivers@[i] > 0;
                        assert(all[i].0 == k && keep@[i]);
                    }
                }
                assert(self@ =~= left);
            }
        }
        self.channels.get_or_set(pubkey, fresh)
    }
}

/// A channel that somebody listens to is never swept, and no channel of another
/// user is touched: whoever is subscribed goes on hearing the pokes sent on
/// the channel of their user.
pub proof fn listened_channels_stay<C>(pokes: Pokes<C>, receivers: Seq<usize>, i: int)
    requires
        pokes.wf(),
        receivers.len() == pokes.entries().len(),
        0 <= i < pokes.entries().len(),
        receivers[i] > 0,
    ensures
        ({
            let left = swept(pokes.entries(), pokes@, receivers);
            let key = pokes.entries()[i].0;
            left.contains_key(key) && left[key] == pokes.entries()[i].1
        }),
{
    pokes.lemma_entries();
}

/// What a listening stream hears next on its channel.
#[derive(Debug, Clone, Copy)]
pub enum Heard {
    Head(i64),
    /// Some pokes were missed.
    Lagged,
    Closed,
}

/// What a listening stream does about it.
#[derive(Debug, Clone, Copy)]
pub enum PokeStep {
    /// Tells the client the head.
    Emit(i64),
    /// Keeps listening: only the latest head matters.
    Listen,
    /// Ends the stream.
    End,
}

/// What a listening stream does next.
pub fn poke_step(heard: Heard) -> (step: PokeStep)
    ensures
        match heard {
            Heard::Head(head) => step == PokeStep::Emit(head),
            Heard::Lagged => step is Listen,
            Heard::Closed => step is End,
        },
{
    match heard {
        Heard::Head(head) => PokeStep::Emit(head),
        Heard::Lagged => PokeStep::Listen,
        Heard::Closed => PokeStep::End,
    }
}

/// Up to 1024 channels nothing is swept. Beyond that exactly the channels that
/// nobody listens to go, and those that stay are what they were.
pub proof fn only_unheard_channels_are_swept<C>(pokes: Pokes<C>, receivers: Seq<usize>, i: int)
    requires
        pokes.wf(),
        receivers.len() == pokes.entries().len(),
        0 <= i < pokes.entries().len(),
    ensures
        ({
            let left = swept(pokes.entries(), pokes@, receivers);
            let key = pokes.entries()[i].0;
            &&& pokes@.dom().len() <= 1024 ==> left == pokes@
            &&& pokes@.dom().len() > 1024 ==> (left.contains_key(key) <==> receivers[i] > 0)
            &&& left.contains_key(key) ==> left[key] == pokes.entries()[i].1
            &&& forall|k: Seq<char>| #[trigger] left.contains_key(k) ==> pokes@.contains_key(k)
        }),
{
    pokes.lemma_entries();
    pokes.channels.lemma_entries();
    let left = swept(pokes.entries(), pokes@, receivers);
    let key = pokes.entries()[i].0;
    if pokes@.dom().len() > 1024 && left.contains_key(key) {
        let j = choose|j: int|
            0 <= j < pokes.entries().len() && (#[trigger] pokes.entries()[j]).0 == key
                && receivers[j] > 0;
        if i < j {
            assert(pokes.channels.entries()[i].0 != pokes.channels.entries()[j].0);
        } else if j < i {
            assert(pokes.channels.entries()[j].0 != pokes.channels.entries()[i].0);
        }
    }
}

} // verus!
