//! Fixed-window rate limiting, per public key and minute.
use crate::table;
use crate::table::Table;
use vstd::prelude::*;

verus! {

/// Beyond this size the table is swept. It is far above the number of live
/// entries a real deployment produces; it exists because a public-facing
/// server can be handed unlimited distinct public keys.
pub const MAX_RATE_ENTRIES: usize = 4096;

/// For each public key, the minute of its last request and the requests in
/// that minute.
pub type Windows = Map<Seq<char>, (u64, u32)>;

/// The minute of a time in seconds.
pub open spec fn minute_of(now: int) -> int {
    (if now < 0 {
        -now
    } else {
        now
    }) / 60
}

/// The requests of a key in a minute.
pub open spec fn used(windows: Windows, pubkey: Seq<char>, minute: int) -> int {
    if windows.contains_key(pubkey) && windows[pubkey].0 == minute {
        windows[pubkey].1 as int
    } else {
        0
    }
}

/// What is left once a large table is swept of windows that are over.
pub open spec fn swept(windows: Windows, minute: int) -> Windows {
    if windows.dom().len() > MAX_RATE_ENTRIES {
        Map::new(
            |key: Seq<char>| windows.contains_key(key) && windows[key].0 >= minute,
            |key: Seq<char>| windows[key],
        )
    } else {
        windows
    }
}

/// The requests of a key in a minute with one more of them.
pub open spec fn counted(windows: Windows, pubkey: Seq<char>, minute: int) -> int {
    if used(windows, pubkey, minute) < u32::MAX {
        used(windows, pubkey, minute) + 1
    } else {
        u32::MAX as int
    }
}

/// The table after a request.
pub open spec fn after_request(windows: Windows, pubkey: Seq<char>, minute: int) -> Windows {
    swept(windows, minute).insert(
        pubkey,
        (minute as u64, counted(windows, pubkey, minute) as u32),
    )
}

/// The table of windows.
pub struct Rate {
    windows: Table<(u64, u32)>,
}

impl View for Rate {
    type V = Windows;

    closed spec fn view(&self) -> Windows {
        self.windows@
    }
}

/// The minute of a time in seconds.
fn minute(now: i64) -> (minute: u64)
    ensures
        minute == minute_of(now as int),
{
    let seconds: i128 = if now < 0 {
        -(now as i128)
    } else {
        now as i128
    };
    (seconds / 60) as u64
}

impl Rate {
    pub closed spec fn wf(self) -> bool {
        self.windows.wf()
    }

    /// A table without requests.
    pub fn new() -> (rate: Self)
        ensures
            rate.wf(),
            rate@ == Map::<Seq<char>, (u64, u32)>::empty(),
    {
        Rate { windows: Table::new() }
    }

    /// How many keys are in the table.
    pub fn len(&self) -> (len: usize)
        requires
            self.wf(),
        ensures
            len == self@.dom().len(),
    {
        self.windows.len()
    }

    /// Drops windows that are over. Entries only matter for the window they
    /// name, so anything older is dead weight.
    fn sweep(&mut self, minute: u64)
        requires
            old(self).wf(),
        ensures
            final(self).wf(),
            final(self)@ == swept(old(self)@, minute as int),
    {
        let len = self.windows.len();
        if len <= MAX_RATE_ENTRIES {
            return;
        }
        let ghost all = self.windows.entries();
        let mut keep: Vec<bool> = Vec::new();
        let mut i: usize = 0;
        while i < len
            invariant
                i <= len,
                self.windows.wf(),
                self.windows.entries() == all,
                len == all.len(),
                keep@.len() == i,
                forall|j: int| 0 <= j < i ==> #[trigger] keep@[j] == (all[j].1.0 >= minute),
            decreases len - i,
        {
            keep.push(self.windows.value_at(i).0 >= minute);
            i += 1;
        }
        proof {
            self.windows.lemma_entries();
        }
        self.windows.retain(&keep);
        proof {
            let was = old(self)@;
            assert forall|k: Seq<char>| table::keeps(all, keep@, k, 0) == (was.contains_key(k)
                && was[k].0 >= minute) by {
                if was.contains_key(k) {
                    let i = choose|i: int| 0 <= i < all.len() && (#[trigger] all[i]).0 == k;
                    assert(was[all[i].0] == all[i].1);
                    assert(keep@[i] == (all[i].1.0 >= minute));
                    if table::keeps(all, keep@, k, 0) {
                        let j = choose|j: int|
                            0 <= j < all.len() && (#[trigger] all[j]).0 == k && keep@[j];
                        assert(i == j);
                    }
                } else if table::keeps(all, keep@, k, 0) {
                    let j = choose|j: int|
                        0 <= j < all.len() && (#[trigger] all[j]).0 == k && keep@[j];
                    assert(was.contains_key(all[j].0));
                }
            }
            assert(self@ =~= swept(was, minute as int));
        }
    }

    /// Counts a request and says whether it is within the limit.
    pub fn allow(&mut self, pubkey: &str, now: i64, limit: u32) -> (allowed: bool)
        requires
            old(self).wf(),
        ensures
            final(self).wf(),
            final(self)@ == after_request(old(self)@, pubkey@, minute_of(now as int)),
            allowed == (counted(old(self)@, pubkey@, minute_of(now as int)) <= limit),
    {
        let minute = minute(now);
        self.sweep(minute);
        let before: u32 = match self.windows.get(pubkey) {
            Some(window) => if window.0 == minute {
                window.1
            } else {
                0
            },
            None => 0,
        };
        assert(before == used(old(self)@, pubkey@, minute as int));
        let count: u32 = if before < u32::MAX {
            before + 1
        } else {
            u32::MAX
        };
        self.windows.set(pubkey, (minute, count));
        count <= limit
    }
}

/// Sweeping forgets nothing that counts: the requests of every key in the
/// current minute stay what they were.
pub proof fn sweeping_keeps_the_current_minute(windows: Windows, pubkey: Seq<char>, minute: int)
    ensures
        used(swept(windows, minute), pubkey, minute) == used(windows, pubkey, minute),
{
}

/// One key's requests spend nothing of another key's budget.
pub proof fn budgets_are_separate(
    windows: Windows,
    pubkey: Seq<char>,
    other: Seq<char>,
    minute: int,
)
    requires
        other != pubkey,
    ensures
        used(after_request(windows, pubkey, minute), other, minute) == used(windows, other, minute),
{
}

/// After a sweep only windows that can still count are left, besides that of
/// the request itself.
pub proof fn sweeping_drops_stale_windows(
    windows: Windows,
    pubkey: Seq<char>,
    minute: int,
    key: Seq<char>,
)
    requires
        windows.dom().len() > MAX_RATE_ENTRIES,
        after_request(windows, pubkey, minute).contains_key(key),
        key != pubkey,
    ensures
        windows.contains_key(key),
        windows[key].0 >= minute,
{
}

/// A request: the key it came from, and the minute.
pub struct RequestView {
    pub pubkey: Seq<char>,
    pub minute: u64,
}

/// The table after some requests.
pub open spec fn after_requests(windows: Windows, requests: Seq<RequestView>) -> Windows
    decreases requests.len(),
{
    if requests.len() == 0 {
        windows
    } else {
        after_request(
            after_requests(windows, requests.drop_last()),
            requests.last().pubkey,
            requests.last().minute as int,
        )
    }
}

/// How many of some requests of a key in a minute are allowed.
pub open spec fn granted(
    windows: Windows,
    requests: Seq<RequestView>,
    pubkey: Seq<char>,
    minute: int,
    limit: int,
) -> int
    decreases requests.len(),
{
    if requests.len() == 0 {
        0
    } else {
        let init = requests.drop_last();
        let last = requests.last();
        granted(windows, init, pubkey, minute, limit) + if last.pubkey == pubkey && last.minute
            == minute && counted(after_requests(windows, init), pubkey, minute) <= limit {
            1int
        } else {
            0
        }
    }
}

/// Whether minutes never go back.
pub open spec fn in_time_order(requests: Seq<RequestView>) -> bool {
    forall|i: int, j: int|
        0 <= i < j < requests.len() ==> (#[trigger] requests[i]).minute <= (
        #[trigger] requests[j]).minute
}

proof fn lemma_granted(
    windows: Windows,
    requests: Seq<RequestView>,
    pubkey: Seq<char>,
    minute: int,
    limit: int,
)
    requires
        in_time_order(requests),
        0 <= limit < u32::MAX,
    ensures
        0 <= granted(windows, requests, pubkey, minute, limit) <= limit,
        requests.len() > 0 && requests.last().minute == minute ==> granted(
            windows,
            requests,
            pubkey,
            minute,
            limit,
        ) <= used(after_requests(windows, requests), pubkey, minute),
        requests.len() > 0 && requests.last().minute < minute ==> granted(
            windows,
            requests,
            pubkey,
            minute,
            limit,
        ) == 0,
    decreases requests.len(),
{
    if requests.len() > 0 {
        let init = requests.drop_last();
        let last = requests.last();
        assert forall|i: int, j: int| 0 <= i < j < init.len() implies (#[trigger] init[i]).minute
            <= (#[trigger] init[j]).minute by {
            assert(requests[i].minute <= requests[j].minute);
        }
        lemma_granted(windows, init, pubkey, minute, limit);
        if init.len() > 0 {
            assert(requests[init.len() - 1].minute <= requests[requests.len() - 1].minute);
            assert(init.last() == requests[init.len() - 1]);
        }
    }
}

/// However many requests a key sends, no more than the limit are allowed in
/// one minute, as long as the clock does not go back. (Counting stops at the
/// largest number a counter holds, so that number as a limit is no limit.)
pub proof fn no_minute_exceeds_the_limit(
    windows: Windows,
    requests: Seq<RequestView>,
    pubkey: Seq<char>,
    minute: int,
    limit: int,
)
    requires
        in_time_order(requests),
        0 <= limit < u32::MAX,
    ensures
        granted(windows, requests, pubkey, minute, limit) <= limit,
{
    lemma_granted(windows, requests, pubkey, minute, limit);
}

/// How many of some requests a key sent in a minute.
pub open spec fn sent(requests: Seq<RequestView>, pubkey: Seq<char>, minute: int) -> int
    decreases requests.len(),
{
    if requests.len() == 0 {
        0
    } else {
        let last = requests.last();
        sent(requests.drop_last(), pubkey, minute) + if last.pubkey == pubkey && last.minute
            == minute {
            1int
        } else {
            0
        }
    }
}

/// Up to the end of a minute, the table holds what a key sent in it.
proof fn lemma_sent(
    windows: Windows,
    requests: Seq<RequestView>,
    pubkey: Seq<char>,
    minute: int,
)
    requires
        in_time_order(requests),
        requests.len() > 0 ==> requests.last().minute <= minute,
        used(windows, pubkey, minute) == 0,
    ensures
        used(after_requests(windows, requests), pubkey, minute) == if sent(requests, pubkey, minute)
            <= u32::MAX {
            sent(requests, pubkey, minute)
        } else {
            u32::MAX as int
        },
        requests.len() > 0 && requests.last().minute < minute ==> sent(requests, pubkey, minute)
            == 0,
        0 <= sent(requests, pubkey, minute),
    decreases requests.len(),
{
    if requests.len() > 0 {
        let init = requests.drop_last();
        assert forall|i: int, j: int| 0 <= i < j < init.len() implies (#[trigger] init[i]).minute
            <= (#[trigger] init[j]).minute by {
            assert(requests[i].minute <= requests[j].minute);
        }
        if init.len() > 0 {
            assert(requests[init.len() - 1].minute <= requests[requests.len() - 1].minute);
            assert(init.last() == requests[init.len() - 1]);
        }
        lemma_sent(windows, init, pubkey, minute);
    }
}

/// As long as the clock does not go back, a key's requests in a minute are
/// allowed in turn until the limit is reached, and refused from there on: the
/// last of some requests is allowed exactly if no more than the limit were sent
/// with it. (Counting stops at the largest number a counter holds, so with that
/// number as a limit more are allowed than can be counted.)
pub proof fn requests_are_allowed_up_to_the_limit(
    windows: Windows,
    requests: Seq<RequestView>,
    pubkey: Seq<char>,
    minute: int,
    limit: int,
)
    requires
        in_time_order(requests),
        requests.len() > 0,
        requests.last().pubkey == pubkey,
        requests.last().minute == minute,
        used(windows, pubkey, minute) == 0,
        0 <= limit <= u32::MAX,
        limit < u32::MAX || sent(requests, pubkey, minute) <= u32::MAX,
    ensures
        counted(after_requests(windows, requests.drop_last()), pubkey, minute) <= limit <==> sent(
            requests,
            pubkey,
            minute,
        ) <= limit,
{
    let init = requests.drop_last();
    assert forall|i: int, j: int| 0 <= i < j < init.len() implies (#[trigger] init[i]).minute <= (
    #[trigger] init[j]).minute by {
        assert(requests[i].minute <= requests[j].minute);
    }
    if init.len() > 0 {
        assert(requests[init.len() - 1].minute <= requests[requests.len() - 1].minute);
        assert(init.last() == requests[init.len() - 1]);
    }
    lemma_sent(windows, init, pubkey, minute);
}

/// A minute is sixty seconds: the minute of a time is how many whole ones lie
/// between it and the epoch.
pub proof fn minutes_have_sixty_seconds(now: int)
    ensures
        now >= 0 ==> 60 * minute_of(now) <= now < 60 * minute_of(now) + 60,
        now < 0 ==> 60 * minute_of(now) <= -now < 60 * minute_of(now) + 60,
{
}

/// A request adds one to what its key has sent in that minute, and to nothing
/// else; a key that was last heard in another minute starts at one. The other
/// keys stay as they are, unless there are more than 4096: then exactly those
/// that were last heard in an earlier minute are forgotten.
pub proof fn requests_are_counted_one_by_one(
    windows: Windows,
    pubkey: Seq<char>,
    minute: u64,
    other: Seq<char>,
)
    requires
        other != pubkey,
    ensures
        ({
            let after = after_request(windows, pubkey, minute as int);
            let heard = windows.contains_key(pubkey) && windows[pubkey].0 == minute;
            &&& after.contains_key(pubkey)
            &&& after[pubkey].0 == minute
            &&& !heard ==> after[pubkey].1 == 1
            &&& heard && windows[pubkey].1 < u32::MAX ==> after[pubkey].1 == windows[pubkey].1 + 1
            &&& heard && windows[pubkey].1 == u32::MAX ==> after[pubkey].1 == u32::MAX
            &&& after.contains_key(other) <==> windows.contains_key(other) && (
            windows.dom().len() <= 4096 || windows[other].0 >= minute)
            &&& after.contains_key(other) ==> after[other] == windows[other]
            &&& counted(windows, pubkey, minute as int) == after[pubkey].1
        }),
{
}

} // verus!
