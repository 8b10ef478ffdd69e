//! What an operator sets through environment variables.
use crate::db::Caps;
use crate::text;
use vstd::prelude::*;

verus! {

/// Default ceiling on one op's payload, measured on the decoded payload rather
/// than its base64 form. Operators raise it with `SHOAL_MAX_PAYLOAD_BYTES` for
/// apps whose records are legitimately large.
pub const MAX_PAYLOAD_BYTES: usize = 262144;

/// The value of a variable in an environment.
pub open spec fn variable(env: Seq<(String, String)>, name: Seq<char>) -> Option<Seq<char>>
    decreases env.len(),
{
    if env.len() == 0 {
        None
    } else if env[0].0@ == name {
        Some(env[0].1@)
    } else {
        variable(env.drop_first(), name)
    }
}

/// Looks a variable up in an environment.
pub fn look_up(env: &Vec<(String, String)>, name: &str) -> (value: Option<String>)
    ensures
        (match value {
            Some(v) => Some(v@),
            None => None,
        }) == variable(env@, name@),
{
    let wanted = name.to_owned();
    let mut i: usize = 0;
    assert(env@.skip(0) =~= env@);
    while i < env.len()
        invariant
            i <= env.len(),
            wanted@ == name@,
            variable(env@, name@) == variable(env@.skip(i as int), name@),
        decreases env.len() - i,
    {
        assert(env@.skip(i as int)[0] == env@[i as int]);
        if env[i].0 == wanted {
            return Some(env[i].1.clone());
        }
        assert(env@.skip(i as int).drop_first() =~= env@.skip(i + 1));
        i += 1;
    }
    None
}

/// The number that a variable gives, or the default if it is not set or not
/// such a number.
pub open spec fn setting(
    value: Option<Seq<char>>,
    signed: bool,
    min: int,
    max: int,
    default: int,
) -> int {
    match value {
        Some(v) => match text::number_within(v, signed, min, max) {
            Some(n) => n,
            None => default,
        },
        None => default,
    }
}

/// Reads an unsigned number out of an environment.
fn unsigned_setting(env: &Vec<(String, String)>, name: &str, max: u64, default: u64) -> (n: u64)
    requires
        default <= max,
    ensures
        n == setting(variable(env@, name@), false, 0, max as int, default as int),
        n <= max,
{
    match look_up(env, name) {
        Some(value) => match text::parse_u64(value.as_str()) {
            Some(n) => if n <= max {
                n
            } else {
                default
            },
            None => default,
        },
        None => default,
    }
}

/// Reads a signed number out of an environment.
fn signed_setting(env: &Vec<(String, String)>, name: &str, default: i64) -> (n: i64)
    ensures
        n == setting(
            variable(env@, name@),
            true,
            i64::MIN as int,
            i64::MAX as int,
            default as int,
        ),
{
    match look_up(env, name) {
        Some(value) => match text::parse_i64(value.as_str()) {
            Some(n) => n,
            None => default,
        },
        None => default,
    }
}

/// Abuse guards. Defaults are far above what a personal sync client
/// generates; they exist so a leaked URL or runaway client cannot fill the
/// disk or monopolize the server.
#[derive(Clone, Copy, Debug)]
pub struct Limits {
    /// Authenticated requests per pubkey per minute (fixed window).
    pub requests_per_minute: u32,
    /// Total stored ops per user; pushes that would exceed it are rejected.
    pub max_ops_per_user: i64,
    /// Distinct users the server will ever create. 0 means unlimited.
    pub max_users: i64,
    /// Stored ops across all users. 0 means unlimited.
    pub max_total_ops: i64,
    /// Concurrent SSE streams one user may hold open.
    pub max_streams_per_user: usize,
    /// Largest accepted op payload, measured after base64 decoding.
    pub max_payload_bytes: usize,
}

/// The limits where nothing is set.
pub open spec fn default_limits() -> Limits {
    Limits {
        requests_per_minute: 120,
        max_ops_per_user: 1_000_000,
        max_users: 0,
        max_total_ops: 0,
        max_streams_per_user: 8,
        max_payload_bytes: MAX_PAYLOAD_BYTES,
    }
}

/// The limits that an environment sets.
pub open spec fn limits_of(env: Seq<(String, String)>) -> Limits {
    Limits {
        requests_per_minute: setting(
            variable(env, "SHOAL_RATE_PER_MIN"@),
            false,
            0,
            u32::MAX as int,
            120,
        ) as u32,
        max_ops_per_user: setting(
            variable(env, "SHOAL_MAX_OPS_PER_USER"@),
            true,
            i64::MIN as int,
            i64::MAX as int,
            1_000_000,
        ) as i64,
        max_users: setting(
            variable(env, "SHOAL_MAX_USERS"@),
            true,
            i64::MIN as int,
            i64::MAX as int,
            0,
        ) as i64,
        max_total_ops: setting(
            variable(env, "SHOAL_MAX_TOTAL_OPS"@),
            true,
            i64::MIN as int,
            i64::MAX as int,
            0,
        ) as i64,
        max_streams_per_user: setting(
            variable(env, "SHOAL_MAX_STREAMS_PER_USER"@),
            false,
            0,
            usize::MAX as int,
            8,
        ) as usize,
        max_payload_bytes: setting(
            variable(env, "SHOAL_MAX_PAYLOAD_BYTES"@),
            false,
            0,
            usize::MAX as int,
            MAX_PAYLOAD_BYTES as int,
        ) as usize,
    }
}

impl Default for Limits {
    fn default() -> (limits: Self)
        ensures
            limits == default_limits(),
    {
        Limits {
            requests_per_minute: 120,
            max_ops_per_user: 1_000_000,
            max_users: 0,
            max_total_ops: 0,
            max_streams_per_user: 8,
            max_payload_bytes: MAX_PAYLOAD_BYTES,
        }
    }
}

impl Limits {
    /// The limits that an environment sets. What is not set, or is not a
    /// number of its kind, has its default.
    pub fn from_env(env: &Vec<(String, String)>) -> (limits: Self)
        ensures
            limits.requests_per_minute == setting(
                variable(env@, "SHOAL_RATE_PER_MIN"@),
                false,
                0,
                u32::MAX as int,
                120,
            ),
            limits.max_ops_per_user == setting(
                variable(env@, "SHOAL_MAX_OPS_PER_USER"@),
                true,
                i64::MIN as int,
                i64::MAX as int,
                1_000_000,
            ),
            limits.max_users == setting(
                variable(env@, "SHOAL_MAX_USERS"@),
                true,
                i64::MIN as int,
                i64::MAX as int,
                0,
            ),
            limits.max_total_ops == setting(
                variable(env@, "SHOAL_MAX_TOTAL_OPS"@),
                true,
                i64::MIN as int,
                i64::MAX as int,
                0,
            ),
            limits.max_streams_per_user == setting(
                variable(env@, "SHOAL_MAX_STREAMS_PER_USER"@),
                false,
                0,
                usize::MAX as int,
                8,
            ),
            limits.max_payload_bytes == setting(
                variable(env@, "SHOAL_MAX_PAYLOAD_BYTES"@),
                false,
                0,
                usize::MAX as int,
                MAX_PAYLOAD_BYTES as int,
            ),
            limits == limits_of(env@),
    {
        let d = Limits::default();
        Limits {
            requests_per_minute: unsigned_setting(
                env,
                "SHOAL_RATE_PER_MIN",
                u32::MAX as u64,
                d.requests_per_minute as u64,
            ) as u32,
            max_ops_per_user: signed_setting(env, "SHOAL_MAX_OPS_PER_USER", d.max_ops_per_user),
            max_users: signed_setting(env, "SHOAL_MAX_USERS", d.max_users),
            max_total_ops: signed_setting(env, "SHOAL_MAX_TOTAL_OPS", d.max_total_ops),
            max_streams_per_user: unsigned_setting(
                env,
                "SHOAL_MAX_STREAMS_PER_USER",
                usize::MAX as u64,
                d.max_streams_per_user as u64,
            ) as usize,
            max_payload_bytes: unsigned_setting(
                env,
                "SHOAL_MAX_PAYLOAD_BYTES",
                usize::MAX as u64,
                d.max_payload_bytes as u64,
            ) as usize,
        }
    }

    /// The storage ceilings among the limits.
    pub open spec fn ceilings(self) -> Caps {
        Caps {
            max_ops_per_user: self.max_ops_per_user,
            max_total_ops: self.max_total_ops,
            max_users: self.max_users,
        }
    }

    /// The storage ceilings among the limits.
    pub fn caps(&self) -> (caps: Caps)
        ensures
            caps == self.ceilings(),
    {
        Caps {
            max_ops_per_user: self.max_ops_per_user,
            max_total_ops: self.max_total_ops,
            max_users: self.max_users,
        }
    }
}

/// Which public keys the server will serve.
///
/// A valid signature proves possession of a key, not that the key is one the
/// operator meant to host. Generating a keypair is free, so without an
/// allowlist every per-user limit is per-identity rather than per-person and
/// bounds nothing. An empty allowlist keeps the server open, in which case
/// `Limits::max_users` and `max_total_ops` are the only ceilings.
#[derive(Clone, Debug)]
pub struct Access {
    allowed: Option<Vec<String>>,
}

/// Whether a key is among some keys.
pub open spec fn among(keys: Seq<String>, key: Seq<char>) -> bool {
    exists|i: int| 0 <= i < keys.len() && (#[trigger] keys[i])@ == key
}

/// Whether a key is named by a list, whose entries are trimmed and may be
/// blank.
pub open spec fn named(list: Seq<Seq<char>>, key: Seq<char>) -> bool {
    &&& key.len() > 0
    &&& exists|i: int| 0 <= i < list.len() && text::trimmed(#[trigger] list[i]) == key
}

/// Who a list lets in: everyone if it names nobody, else those it names.
pub open spec fn let_in(list: Seq<Seq<char>>) -> Option<Set<Seq<char>>> {
    if exists|key: Seq<char>| named(list, key) {
        Some(Set::new(|key: Seq<char>| named(list, key)))
    } else {
        None
    }
}

impl View for Access {
    type V = Option<Set<Seq<char>>>;

    closed spec fn view(&self) -> Option<Set<Seq<char>>> {
        match self.allowed {
            Some(keys) => Some(Set::new(|key: Seq<char>| among(keys@, key))),
            None => None,
        }
    }
}

impl Default for Access {
    fn default() -> (access: Self)
        ensures
            access@ is None,
    {
        Access::open()
    }
}

impl Access {
    /// Lets everyone in.
    pub fn open() -> (access: Self)
        ensures
            access@ is None,
    {
        Access { allowed: None }
    }

    /// Lets those in that a list names, or everyone if it names nobody.
    pub fn allowlist(keys: Vec<String>) -> (access: Self)
        ensures
            access@ == let_in(keys@.map_values(|key: String| key@)),
    {
        let ghost list = keys@.map_values(|key: String| key@);
        let mut allowed: Vec<String> = Vec::new();
        let mut i: usize = 0;
        while i < keys.len()
            invariant
                i <= keys.len(),
                list == keys@.map_values(|key: String| key@),
                forall|key: Seq<char>| #[trigger]
                    among(allowed@, key) == named(list.take(i as int), key),
                forall|a: int, b: int|
                    0 <= a < b < allowed@.len() ==> (#[trigger] allowed@[a])@ != (
                    #[trigger] allowed@[b])@,
            decreases keys.len() - i,
        {
            let key = text::trim(keys[i].as_str());
            let ghost was = allowed@;
            if !key.as_str().is_empty() && !is_among(&allowed, key.as_str()) {
                allowed.push(key);
            }
            proof {
                let before = list.take(i as int);
                let now = list.take(i + 1);
                assert(now =~= before.push(list[i as int]));
                assert(now[i as int] == keys@[i as int]@);
                assert forall|k: Seq<char>| #[trigger] among(allowed@, k) == named(now, k) by {
                    assert(among(was, k) == named(before, k));
                    if among(was, k) {
                        let a = choose|a: int| 0 <= a < was.len() && (#[trigger] was[a])@ == k;
                        assert(allowed@[a]@ == k);
                        let b = choose|b: int|
                            0 <= b < before.len() && text::trimmed(#[trigger] before[b]) == k;
                        assert(text::trimmed(now[b]) == k);
                    }
                    if among(allowed@, k) {
                        let a = choose|a: int|
                            0 <= a < allowed@.len() && (#[trigger] allowed@[a])@ == k;
                        if a < was.len() {
                            assert(was[a]@ == k);
                        } else {
                            assert(text::trimmed(now[i as int]) == k);
                        }
                    }
                    if named(now, k) {
                        let b = choose|b: int|
                            0 <= b < now.len() && text::trimmed(#[trigger] now[b]) == k;
                        if b < i {
                            assert(text::trimmed(before[b]) == k);
                        } else if !among(was, k) {
                            assert(allowed@[was.len() as int]@ == k);
                        }
                    }
                }
                assert forall|a: int, b: int| 0 <= a < b < allowed@.len() implies (
                #[trigger] allowed@[a])@ != (#[trigger] allowed@[b])@ by {
                    assert(was[a] == allowed@[a]);
                }
            }
            i += 1;
        }
        assert(list.take(i as int) =~= list);
        if allowed.len() == 0 {
            proof {
                if exists|key: Seq<char>| named(list, key) {
                    let key = choose|key: Seq<char>| named(list, key);
                    assert(among(allowed@, key));
                }
            }
            Access::open()
        } else {
            proof {
                assert(among(allowed@, allowed@[0]@));
                assert(Set::new(|key: Seq<char>| among(allowed@, key)) =~= Set::new(
                    |key: Seq<char>| named(list, key),
                ));
            }
            Access { allowed: Some(allowed) }
        }
    }

    /// Who an environment lets in: those that `SHOAL_ALLOWED_PUBKEYS` names,
    /// separated by commas.
    pub fn from_env(env: &Vec<(String, String)>) -> (access: Self)
        ensures
            access@ == match variable(env@, "SHOAL_ALLOWED_PUBKEYS"@) {
                Some(v) => let_in(text::pieces(v, ',')),
                None => None,
            },
    {
        match look_up(env, "SHOAL_ALLOWED_PUBKEYS") {
            Some(value) => Access::allowlist(text::split(value.as_str(), ',')),
            None => Access::open(),
        }
    }

    /// Whether everyone is let in.
    pub fn is_open(&self) -> (open: bool)
        ensures
            open == (self@ is None),
    {
        self.allowed.is_none()
    }

    /// Whether a key is let in.
    pub fn permits(&self, pubkey: &str) -> (permitted: bool)
        ensures
            permitted == (self@ is None || self@->0.contains(pubkey@)),
    {
        match &self.allowed {
            None => true,
            Some(keys) => is_among(keys, pubkey),
        }
    }
}

/// Whether a key is among some keys.
fn is_among(keys: &Vec<String>, key: &str) -> (yes: bool)
    ensures
        yes == among(keys@, key@),
{
    let wanted = key.to_owned();
    let mut i: usize = 0;
    while i < keys.len()
        invariant
            i <= keys.len(),
            wanted@ == key@,
            forall|j: int| 0 <= j < i ==> (#[trigger] keys@[j])@ != key@,
        decreases keys.len() - i,
    {
        if keys[i] == wanted {
            assert(keys@[i as int]@ == key@);
            return true;
        }
        i += 1;
    }
    false
}

/// Whether nothing bounds what the server may come to store: anyone can create
/// a user, and neither users nor ops are limited in total.
pub fn storage_is_unbounded(access: &Access, limits: &Limits) -> (unbounded: bool)
    ensures
        unbounded == (access@ is None && limits.max_users == 0 && limits.max_total_ops == 0),
{
    access.is_open() && limits.max_users == 0 && limits.max_total_ops == 0
}

/// Which origins browsers may call from.
#[derive(Debug, Clone)]
pub enum Origins {
    Any,
    List(Vec<String>),
}

/// Which origins browsers may call from, as a mathematical value.
#[verifier::ext_equal]
pub enum OriginsView {
    Any,
    List(Seq<Seq<char>>),
}

impl View for Origins {
    type V = OriginsView;

    open spec fn view(&self) -> OriginsView {
        match self {
            Origins::Any => OriginsView::Any,
            Origins::List(list) => OriginsView::List(list@.map_values(|origin: String| origin@)),
        }
    }
}

/// Whether a text can be sent as the value of a header: it holds no control
/// character but tabs.
pub open spec fn sendable(origin: Seq<char>) -> bool {
    forall|i: int|
        0 <= i < origin.len() ==> (#[trigger] origin[i] as int >= 32 && origin[i] as int != 127)
            || origin[i] == '\t'
}

/// The origins of a list, trimmed, without those that cannot be sent.
pub open spec fn sendable_origins(list: Seq<Seq<char>>) -> Seq<Seq<char>>
    decreases list.len(),
{
    if list.len() == 0 {
        Seq::empty()
    } else {
        let before = sendable_origins(list.drop_last());
        let origin = text::trimmed(list.last());
        if sendable(origin) {
            before.push(origin)
        } else {
            before
        }
    }
}

/// The origins that a setting names: all of them if it is blank, a star or
/// names none that can be sent.
pub open spec fn origins_of(setting: Seq<char>) -> OriginsView {
    let inner = text::trimmed(setting);
    let list = sendable_origins(text::pieces(inner, ','));
    if inner.len() == 0 || inner == "*"@ || list.len() == 0 {
        OriginsView::Any
    } else {
        OriginsView::List(list)
    }
}

/// Whether a character can be sent in the value of a header.
fn can_send(c: char) -> (yes: bool)
    ensures
        yes == ((c as int >= 32 && c as int != 127) || c == '\t'),
{
    (c as u32 >= 32 && c as u32 != 127) || c == '\t'
}

/// Whether a text can be sent as the value of a header.
fn is_sendable(origin: &str) -> (yes: bool)
    ensures
        yes == sendable(origin@),
{
    let chars = text::chars_of(origin);
    let mut i: usize = 0;
    while i < chars.len()
        invariant
            i <= chars.len(),
            chars@ == origin@,
            forall|j: int|
                0 <= j < i ==> (#[trigger] origin@[j] as int >= 32 && origin@[j] as int != 127)
                    || origin@[j] == '\t',
        decreases chars.len() - i,
    {
        if !can_send(chars[i]) {
            assert(!((origin@[i as int] as int >= 32 && origin@[i as int] as int != 127)
                || origin@[i as int] == '\t'));
            return false;
        }
        i += 1;
    }
    true
}

/// Reads the setting of the allowed origins.
pub fn parse_origins(setting: &str) -> (origins: Origins)
    ensures
        origins@ == origins_of(setting@),
{
    let inner = text::trim(setting);
    let star = "*".to_owned();
    if inner.as_str().is_empty() || inner == star {
        return Origins::Any;
    }
    let parts = text::split(inner.as_str(), ',');
    let ghost list = text::pieces(inner@, ',');
    let mut origins: Vec<String> = Vec::new();
    let mut i: usize = 0;
    assert(origins@.map_values(|origin: String| origin@) =~= sendable_origins(list.take(0)));
    while i < parts.len()
        invariant
            i <= parts.len(),
            list == parts@.map_values(|part: String| part@),
            origins@.map_values(|origin: String| origin@) == sendable_origins(list.take(i as int)),
        decreases parts.len() - i,
    {
        let origin = text::trim(parts[i].as_str());
        let ghost was = origins@;
        assert(list.take(i + 1).drop_last() =~= list.take(i as int));
        assert(list.take(i + 1).last() == parts@[i as int]@);
        if is_sendable(origin.as_str()) {
            origins.push(origin);
            assert(origins@.map_values(|origin: String| origin@) =~= was.map_values(
                |origin: String| origin@,
            ).push(origin@));
        }
        i += 1;
    }
    assert(list.take(i as int) =~= list);
    if origins.len() == 0 {
        Origins::Any
    } else {
        Origins::List(origins)
    }
}

impl Origins {
    /// The origins that an environment allows: those that
    /// `SHOAL_ALLOWED_ORIGINS` names, or all of them.
    pub fn from_env(env: &Vec<(String, String)>) -> (origins: Self)
        ensures
            origins@ == match variable(env@, "SHOAL_ALLOWED_ORIGINS"@) {
                Some(v) => origins_of(v),
                None => OriginsView::Any,
            },
    {
        match look_up(env, "SHOAL_ALLOWED_ORIGINS") {
            Some(value) => parse_origins(value.as_str()),
            None => Origins::Any,
        }
    }
}

/// A variable has the value of the first entry with its name, and none if no
/// entry has its name.
pub proof fn variables_are_found_by_name(env: Seq<(String, String)>, name: Seq<char>)
    ensures
        match variable(env, name) {
            Some(value) => exists|i: int|
                0 <= i < env.len() && (#[trigger] env[i]).0@ == name && env[i].1@ == value && (
                forall|j: int| 0 <= j < i ==> (#[trigger] env[j]).0@ != name),
            None => forall|i: int| 0 <= i < env.len() ==> (#[trigger] env[i]).0@ != name,
        },
    decreases env.len(),
{
    if env.len() > 0 && env[0].0@ != name {
        let rest = env.drop_first();
        variables_are_found_by_name(rest, name);
        if variable(env, name) is Some {
            let value = variable(env, name)->0;
            let i = choose|i: int|
                0 <= i < rest.len() && (#[trigger] rest[i]).0@ == name && rest[i].1@ == value && (
                forall|j: int| 0 <= j < i ==> (#[trigger] rest[j]).0@ != name);
            assert(env[i + 1] == rest[i]);
            assert forall|j: int| 0 <= j < i + 1 implies (#[trigger] env[j]).0@ != name by {
                if j > 0 {
                    assert(env[j] == rest[j - 1]);
                }
            }
        } else {
            assert forall|i: int| 0 <= i < env.len() implies (#[trigger] env[i]).0@ != name by {
                if i > 0 {
                    assert(env[i] == rest[i - 1]);
                }
            }
        }
    }
}

/// A number that is set is the one that holds: written in decimal and within
/// the range of its kind, it takes the place of the default. Outside the range,
/// or where nothing is set, the default holds.
pub proof fn set_numbers_hold(n: int, min: int, max: int, default: int)
    ensures
        setting(Some(text::signed_decimal(n)), true, min, max, default) == if min <= n <= max {
            n
        } else {
            default
        },
        n >= 0 ==> setting(Some(text::decimal(n as nat)), false, min, max, default) == if min <= n
            <= max {
            n
        } else {
            default
        },
        setting(None, true, min, max, default) == default,
        setting(None, false, min, max, default) == default,
{
    text::written_integers_read_back(n);
}

/// A text that is empty, or holds anything but digits after a sign at its
/// beginning, leaves the default.
pub proof fn other_settings_leave_the_default(
    value: Seq<char>,
    signed: bool,
    min: int,
    max: int,
    default: int,
    i: int,
)
    requires
        value.len() > 0 ==> {
            &&& 0 <= i < value.len()
            &&& !('0' as int <= value[i] as int <= '9' as int)
            &&& i > 0 || !(value[0] == '+' || (signed && value[0] == '-')) || value.len() == 1
        },
    ensures
        setting(Some(value), signed, min, max, default) == default,
{
    if text::number_within(value, signed, min, max) is Some {
        text::other_texts_are_no_numbers(value, signed, min, max);
    }
}

/// Where nothing is set, a key may send 120 requests a minute, store a million
/// ops of up to 256 KiB and hold 8 streams open, and neither users nor ops are
/// limited in total. The ceilings of the storage are those among the limits.
pub proof fn limits_have_their_defaults(limits: Limits)
    ensures
        default_limits().requests_per_minute == 120,
        default_limits().max_ops_per_user == 1_000 * 1_000,
        default_limits().max_payload_bytes == 256 * 1024,
        default_limits().max_streams_per_user == 8,
        default_limits().max_users == 0,
        default_limits().max_total_ops == 0,
        limits.ceilings().max_users == limits.max_users,
        limits.ceilings().max_total_ops == limits.max_total_ops,
        limits.ceilings().max_ops_per_user == limits.max_ops_per_user,
{
}

/// A list of keys lets in those it holds, however much white space stands
/// around them. One whose entries are all blank lets everyone in.
pub proof fn lists_let_in_whom_they_name(list: Seq<Seq<char>>, key: Seq<char>)
    ensures
        let_in(list) is None <==> forall|i: int|
            0 <= i < list.len() ==> text::trimmed(#[trigger] list[i]).len() == 0,
        let_in(list) is Some ==> (let_in(list)->0.contains(key) <==> key.len() > 0 && exists|i: int|
            0 <= i < list.len() && text::trimmed(#[trigger] list[i]) == key),
{
    if exists|key: Seq<char>| named(list, key) {
        let k = choose|key: Seq<char>| named(list, key);
        let i = choose|i: int| 0 <= i < list.len() && text::trimmed(#[trigger] list[i]) == k;
        assert(text::trimmed(list[i]).len() > 0);
    } else {
        assert forall|i: int| 0 <= i < list.len() implies text::trimmed(
            #[trigger] list[i],
        ).len() == 0 by {
            if text::trimmed(list[i]).len() > 0 {
                assert(named(list, text::trimmed(list[i])));
            }
        }
    }
}

/// Origins are taken one by one: an entry gives its trimmed text if no control
/// character but a tab is in it, and nothing otherwise, and a list gives what
/// its entries give, in order.
pub proof fn origins_are_taken_one_by_one(
    list: Seq<Seq<char>>,
    more: Seq<Seq<char>>,
    entry: Seq<char>,
)
    ensures
        sendable_origins(list + more) == sendable_origins(list) + sendable_origins(more),
        sendable_origins(seq![entry]) == if exists|i: int|
            0 <= i < text::trimmed(entry).len() && ((#[trigger] text::trimmed(entry)[i] as int) < 32
                && text::trimmed(entry)[i] != '\t' || text::trimmed(entry)[i] as int == 127) {
            Seq::<Seq<char>>::empty()
        } else {
            seq![text::trimmed(entry)]
        },
    decreases more.len(),
{
    if more.len() == 0 {
        assert(list + more =~= list);
        assert(sendable_origins(list) + sendable_origins(more) =~= sendable_origins(list));
    } else {
        origins_are_taken_one_by_one(list, more.drop_last(), entry);
        assert((list + more).drop_last() =~= list + more.drop_last());
        assert(sendable_origins(list + more) =~= sendable_origins(list) + sendable_origins(more));
    }
    let one = seq![entry];
    assert(one.drop_last() =~= Seq::<Seq<char>>::empty());
    assert(one.last() == entry);
    assert(sendable_origins(one.drop_last()) =~= Seq::<Seq<char>>::empty());
    assert(sendable_origins(one) =~= if sendable(text::trimmed(entry)) {
        seq![text::trimmed(entry)]
    } else {
        Seq::<Seq<char>>::empty()
    });
}

/// All origins are allowed exactly if the setting is blank, a star, or names
/// none that can be sent; else those between its commas are.
pub proof fn origins_are_those_between_the_commas(setting: Seq<char>)
    ensures
        ({
            let inner = text::trimmed(setting);
            match origins_of(setting) {
                OriginsView::Any => inner.len() == 0 || inner == seq!['*'] || sendable_origins(
                    text::pieces(inner, ','),
                ).len() == 0,
                OriginsView::List(list) => {
                    &&& inner.len() > 0
                    &&& inner != seq!['*']
                    &&& list.len() > 0
                    &&& list == sendable_origins(text::pieces(inner, ','))
                },
            }
        }),
{
    reveal_strlit("*");
    assert("*"@ =~= seq!['*']);
}

/// Each limit is set by the variable of its name: the number that is written
/// there is the limit, and where the variable is not set the default is.
pub proof fn limits_are_set_by_their_variables(env: Seq<(String, String)>, n: int)
    ensures
        0 <= n <= u32::MAX && variable(env, "SHOAL_RATE_PER_MIN"@) == Some(text::decimal(n as nat))
            ==> limits_of(env).requests_per_minute == n,
        variable(env, "SHOAL_RATE_PER_MIN"@) is None ==> limits_of(env).requests_per_minute
            == default_limits().requests_per_minute,
        0 <= n <= usize::MAX && variable(env, "SHOAL_MAX_STREAMS_PER_USER"@) == Some(text::decimal(n as nat))
            ==> limits_of(env).max_streams_per_user == n,
        variable(env, "SHOAL_MAX_STREAMS_PER_USER"@) is None ==> limits_of(env).max_streams_per_user
            == default_limits().max_streams_per_user,
        0 <= n <= usize::MAX && variable(env, "SHOAL_MAX_PAYLOAD_BYTES"@) == Some(text::decimal(n as nat))
            ==> limits_of(env).max_payload_bytes == n,
        variable(env, "SHOAL_MAX_PAYLOAD_BYTES"@) is None ==> limits_of(env).max_payload_bytes
            == default_limits().max_payload_bytes,
        i64::MIN <= n <= i64::MAX && variable(env, "SHOAL_MAX_OPS_PER_USER"@) == Some(text::signed_decimal(n))
            ==> limits_of(env).max_ops_per_user == n,
        variable(env, "SHOAL_MAX_OPS_PER_USER"@) is None ==> limits_of(env).max_ops_per_user
            == default_limits().max_ops_per_user,
        i64::MIN <= n <= i64::MAX && variable(env, "SHOAL_MAX_USERS"@) == Some(text::signed_decimal(n))
            ==> limits_of(env).max_users == n,
        variable(env, "SHOAL_MAX_USERS"@) is None ==> limits_of(env).max_users
            == default_limits().max_users,
        i64::MIN <= n <= i64::MAX && variable(env, "SHOAL_MAX_TOTAL_OPS"@) == Some(text::signed_decimal(n))
            ==> limits_of(env).max_total_ops == n,
        variable(env, "SHOAL_MAX_TOTAL_OPS"@) is None ==> limits_of(env).max_total_ops
            == default_limits().max_total_ops,
{
    text::written_integers_read_back(n);
}

} // verus!
