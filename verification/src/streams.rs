//! How many poke streams each user holds open.
use crate::table::Table;
use vstd::prelude::*;

verus! {

/// The open streams of each user who has any.
pub struct Streams {
    open: Table<usize>,
}

/// One open stream of a user. It is given back when the stream ends, however
/// it ended.
#[derive(Debug)]
pub struct StreamSlot {
    pubkey: String,
}

impl StreamSlot {
    /// Whose stream it is.
    pub closed spec fn owner(self) -> Seq<char> {
        self.pubkey@
    }
}

/// The open streams of a user.
pub open spec fn open_of(open: Map<Seq<char>, usize>, pubkey: Seq<char>) -> int {
    if open.contains_key(pubkey) {
        open[pubkey] as int
    } else {
        0
    }
}

/// The open streams once a user has opened one more; none if they hold as many
/// as allowed already.
pub open spec fn opened(open: Map<Seq<char>, usize>, pubkey: Seq<char>, cap: usize) -> Option<
    Map<Seq<char>, usize>,
> {
    if open_of(open, pubkey) < cap {
        Some(open.insert(pubkey, (open_of(open, pubkey) + 1) as usize))
    } else {
        None
    }
}

/// The open streams once a user has closed one.
pub open spec fn closed_one(open: Map<Seq<char>, usize>, pubkey: Seq<char>) -> Map<
    Seq<char>,
    usize,
> {
    if open_of(open, pubkey) > 1 {
        open.insert(pubkey, (open_of(open, pubkey) - 1) as usize)
    } else {
        open.remove(pubkey)
    }
}

impl View for Streams {
    type V = Map<Seq<char>, usize>;

    closed spec fn view(&self) -> Map<Seq<char>, usize> {
        self.open@
    }
}

impl Streams {
    /// Users without open streams take up no room.
    pub closed spec fn wf(self) -> bool {
        &&& self.open.wf()
        &&& forall|pubkey: Seq<char>| #[trigger]
            self@.contains_key(pubkey) ==> self@[pubkey] > 0
    }

    /// No streams.
    pub fn new() -> (streams: Self)
        ensures
            streams.wf(),
            streams@ == Map::<Seq<char>, usize>::empty(),
    {
        Streams { open: Table::new() }
    }

    /// The open streams of a user.
    pub fn count(&self, pubkey: &str) -> (count: usize)
        requires
            self.wf(),
        ensures
            count == open_of(self@, pubkey@),
    {
        match self.open.get(pubkey) {
            Some(count) => *count,
            None => 0,
        }
    }

    /// Reserves one slot, or returns None when the user is at their cap.
    pub fn acquire(&mut self, pubkey: &str, cap: usize) -> (slot: Option<StreamSlot>)
        requires
            old(self).wf(),
        ensures
            final(self).wf(),
            match slot {
                Some(s) => {
                    &&& open_of(old(self)@, pubkey@) < cap
                    &&& final(self)@ == old(self)@.insert(
                        pubkey@,
                        (open_of(old(self)@, pubkey@) + 1) as usize,
                    )
                    &&& s.owner() == pubkey@
                },
                None => open_of(old(self)@, pubkey@) >= cap && final(self)@ == old(self)@,
            },
            match opened(old(self)@, pubkey@, cap) {
                Some(open) => slot is Some && final(self)@ == open,
                None => slot is None,
            },
    {
        let count = self.count(pubkey);
        if count >= cap {
            return None;
        }
        self.open.set(pubkey, count + 1);
        Some(StreamSlot { pubkey: pubkey.to_owned() })
    }

    /// Gives a slot back.
    pub fn release(&mut self, slot: StreamSlot)
        requires
            old(self).wf(),
        ensures
            final(self).wf(),
            final(self)@ == if open_of(old(self)@, slot.owner()) > 1 {
                old(self)@.insert(slot.owner(), (open_of(old(self)@, slot.owner()) - 1) as usize)
            } else {
                old(self)@.remove(slot.owner())
            },
            final(self)@ == closed_one(old(self)@, slot.owner()),
    {
        let count = self.count(slot.pubkey.as_str());
        if count > 1 {
            self.open.set(slot.pubkey.as_str(), count - 1);
        } else {
            self.open.remove(slot.pubkey.as_str());
        }
    }
}

/// Releasing a slot undoes acquiring it.
pub proof fn releasing_undoes_acquiring(open: Map<Seq<char>, usize>, pubkey: Seq<char>, cap: usize)
    requires
        forall|key: Seq<char>| #[trigger] open.contains_key(key) ==> open[key] > 0,
        open_of(open, pubkey) < cap,
    ensures
        ({
            let held = open.insert(pubkey, (open_of(open, pubkey) + 1) as usize);
            (if open_of(held, pubkey) > 1 {
                held.insert(pubkey, (open_of(held, pubkey) - 1) as usize)
            } else {
                held.remove(pubkey)
            }) == open
        }),
{
    let held = open.insert(pubkey, (open_of(open, pubkey) + 1) as usize);
    if open_of(held, pubkey) > 1 {
        assert(held.insert(pubkey, (open_of(held, pubkey) - 1) as usize) =~= open);
    } else {
        assert(held.remove(pubkey) =~= open);
    }
}

/// The open streams of a user are those that were opened and not yet closed:
/// opening one adds one, as long as there are fewer than allowed, closing one
/// takes one away where there is one, and the streams of the others stay as they
/// are. Who has none is not in the table.
pub proof fn open_streams_are_counted(
    open: Map<Seq<char>, usize>,
    pubkey: Seq<char>,
    cap: usize,
    other: Seq<char>,
)
    requires
        other != pubkey,
        forall|key: Seq<char>| #[trigger] open.contains_key(key) ==> open[key] > 0,
    ensures
        ({
            let held = if open.contains_key(pubkey) {
                open[pubkey] as int
            } else {
                0
            };
            let more = opened(open, pubkey, cap);
            let fewer = closed_one(open, pubkey);
            &&& held >= cap <==> more is None
            &&& more is Some ==> {
                &&& more->0.contains_key(pubkey)
                &&& more->0[pubkey] == held + 1
                &&& more->0.contains_key(other) == open.contains_key(other)
                &&& more->0[other] == open[other]
                &&& closed_one(more->0, pubkey) == open
            }
            &&& held > 1 ==> fewer.contains_key(pubkey) && fewer[pubkey] == held - 1
            &&& held <= 1 ==> !fewer.contains_key(pubkey)
            &&& fewer.contains_key(other) == open.contains_key(other)
            &&& fewer[other] == open[other]
        }),
{
    if open_of(open, pubkey) < cap {
        releasing_undoes_acquiring(open, pubkey, cap);
    }
}

} // verus!
