//! Control-plane client: keeps the validator allowlist in sync with the control plane.
//!
//! The allowlist is the `allowed_validators` list of the snapshot that the control plane serves for
//! this component:
//!
//! - boot: `GET {url}/v1/config/{component_id}` gives a snapshot, else the disk cache does;
//! - runtime: `GET {url}/v1/config/{component_id}/watch` is a stream of events, one full snapshot per
//!   change;
//! - after: `POST {url}/v1/config/{component_id}/ack` tells which version is applied.
//!
//! A validator removed from the registry is refused at the next challenge and its live packet stream
//! is closed on the next heartbeat tick. The last applied list stays in force while the control plane
//! is unreachable.

use vstd::prelude::*;

use crate::policy::{named_keys, names, parse_set, texts};
use crate::pubkey::{pubkey_of_text, Pubkey, PubkeySet};
use crate::text::{from_chars, to_chars, trim_end, trimmed_end};

verus! {

/// How long a connection to the control plane may take to come about, in seconds.
pub const CONNECT_TIMEOUT_S: u64 = 5;

/// How long a request may take, in seconds.
pub const REQUEST_TIMEOUT_S: u64 = 10;

/// How long startup waits for the first snapshot, in seconds, so that a dead control plane cannot
/// hang it.
pub const BOOT_WAIT_S: u64 = 15;

/// How long a watch stream may be silent before it is opened anew, in seconds.
pub const WATCH_IDLE_S: u64 = 60;

/// How long to wait after the first failure to open a watch stream, in seconds.
pub const FIRST_BACKOFF_S: u64 = 1;

/// How long to wait at most, in seconds.
pub const MAX_BACKOFF_S: u64 = 60;

/// The subset of the control-plane snapshot the relayer uses.
pub struct Snapshot {
    pub version: u64,
    pub allowed_validators: Vec<String>,
}

/// What a [`Snapshot`] holds.
pub struct SnapshotView {
    pub version: u64,
    pub allowed_validators: Seq<Seq<char>>,
}

impl View for Snapshot {
    type V = SnapshotView;

    open spec fn view(&self) -> SnapshotView {
        SnapshotView {
            version: self.version,
            allowed_validators: texts(self.allowed_validators@),
        }
    }
}

/// What the control plane has told, and whether it can be reached.
pub struct ControlClient {
    allowed: PubkeySet,
    version: u64,
    connected: bool,
    origin: String,
    backoff: Backoff,
}

/// What a [`ControlClient`] holds.
pub struct ClientView {
    pub allowed: Set<Pubkey>,
    pub version: u64,
    pub connected: bool,
    pub origin: Seq<char>,
    /// How long to wait after the next failure to open a watch stream, in seconds.
    pub backoff: u64,
}

impl View for ControlClient {
    type V = ClientView;

    closed spec fn view(&self) -> ClientView {
        ClientView {
            allowed: self.allowed@,
            version: self.version,
            connected: self.connected,
            origin: self.origin@,
            backoff: self.backoff.secs,
        }
    }
}

/// The control plane has told nothing yet: nobody is allowed.
pub open spec fn unbooted() -> ClientView {
    ClientView {
        allowed: Set::empty(),
        version: 0,
        connected: false,
        origin: "none"@,
        backoff: FIRST_BACKOFF_S,
    }
}

/// The client after a snapshot. Malformed keys in it are ignored.
pub open spec fn applied(client: ClientView, snap: SnapshotView, origin: Seq<char>) -> ClientView {
    ClientView {
        allowed: named_keys(snap.allowed_validators),
        version: snap.version,
        origin,
        ..client
    }
}

/// Where a snapshot that was fetched comes from.
pub open spec fn remote_origin(url: Seq<char>, component_id: Seq<char>) -> Seq<char> {
    trimmed_end(url, '/') + " as "@ + component_id
}

/// Where a snapshot that was cached comes from.
pub open spec fn cache_origin(cache: Seq<char>) -> Seq<char> {
    "cache "@ + cache
}

/// The client after the first snapshot was asked for. Where it could not be fetched, the cached one
/// is taken; where there is none either, nobody is allowed until the control plane answers.
pub open spec fn booted(
    client: ClientView,
    fetched: Option<SnapshotView>,
    cached: Option<SnapshotView>,
    url: Seq<char>,
    component_id: Seq<char>,
    cache: Seq<char>,
) -> ClientView {
    match (fetched, cached) {
        (Some(snap), _) => ClientView {
            connected: true,
            ..applied(client, snap, remote_origin(url, component_id))
        },
        (None, Some(snap)) => applied(client, snap, cache_origin(cache)),
        (None, None) => client,
    }
}

/// What an optional snapshot holds.
pub open spec fn snapshot_view(snap: Option<&Snapshot>) -> Option<SnapshotView> {
    match snap {
        Some(snap) => Some(snap@),
        None => None,
    }
}

/// What happens on the watch stream.
pub enum WatchEvent {
    /// It was opened.
    Opened,
    /// It could not be opened: the control plane cannot be reached, or refuses.
    Refused,
    /// It ended, broke off, or was silent for too long.
    Lost,
    /// A snapshot came on the stream at the address `watch_url`.
    Update { snap: Snapshot, watch_url: String },
    /// An event came that is not a snapshot.
    BadEvent,
}

/// What to do next about the watch stream.
pub enum WatchAction {
    /// Read on.
    Read,
    /// Wait so many seconds, and open the stream again.
    Wait { secs: u64 },
    /// Open the stream again, at once.
    Reconnect,
    /// Cache the snapshot, acknowledge its version, and read on.
    CacheAndAck { snap: Snapshot },
}

/// What a [`WatchEvent`] holds.
pub enum WatchEventView {
    Opened,
    Refused,
    Lost,
    Update { snap: SnapshotView, watch_url: Seq<char> },
    BadEvent,
}

/// What a [`WatchAction`] holds.
pub enum WatchActionView {
    Read,
    Wait { secs: u64 },
    Reconnect,
    CacheAndAck { snap: SnapshotView },
}

impl View for WatchEvent {
    type V = WatchEventView;

    open spec fn view(&self) -> WatchEventView {
        match *self {
            WatchEvent::Opened => WatchEventView::Opened,
            WatchEvent::Refused => WatchEventView::Refused,
            WatchEvent::Lost => WatchEventView::Lost,
            WatchEvent::Update { snap, watch_url } => WatchEventView::Update {
                snap: snap@,
                watch_url: watch_url@,
            },
            WatchEvent::BadEvent => WatchEventView::BadEvent,
        }
    }
}

impl View for WatchAction {
    type V = WatchActionView;

    open spec fn view(&self) -> WatchActionView {
        match *self {
            WatchAction::Read => WatchActionView::Read,
            WatchAction::Wait { secs } => WatchActionView::Wait { secs },
            WatchAction::Reconnect => WatchActionView::Reconnect,
            WatchAction::CacheAndAck { snap } => WatchActionView::CacheAndAck { snap: snap@ },
        }
    }
}

/// The client after an event on the watch stream, and what to do next.
pub open spec fn watched(client: ClientView, event: WatchEventView) -> (
    ClientView,
    WatchActionView,
) {
    match event {
        WatchEventView::Opened => (
            ClientView { connected: true, backoff: FIRST_BACKOFF_S, ..client },
            WatchActionView::Read,
        ),
        WatchEventView::Refused => (
            ClientView { connected: false, backoff: longer(client.backoff), ..client },
            WatchActionView::Wait { secs: client.backoff },
        ),
        WatchEventView::Lost => (
            ClientView { connected: false, ..client },
            WatchActionView::Reconnect,
        ),
        WatchEventView::Update { snap, watch_url } => (
            applied(client, snap, watch_url),
            WatchActionView::CacheAndAck { snap },
        ),
        WatchEventView::BadEvent => (client, WatchActionView::Read),
    }
}

/// The client after events on the watch stream, one after the other.
pub open spec fn watched_all(client: ClientView, events: Seq<WatchEventView>) -> ClientView
    decreases events.len(),
{
    if events.len() == 0 {
        client
    } else {
        watched(watched_all(client, events.drop_last()), events.last()).0
    }
}

impl ControlClient {
    /// The control plane has told nothing yet: everyone is refused until it answers.
    pub fn new() -> (r: Self)
        ensures
            r@ == unbooted(),
    {
        ControlClient {
            allowed: PubkeySet::new(),
            version: 0,
            connected: false,
            origin: "none".to_owned(),
            backoff: Backoff::new(),
        }
    }

    /// Applies a snapshot.
    pub fn apply(&mut self, snap: &Snapshot, origin: &str)
        ensures
            final(self)@ == applied(old(self)@, snap@, origin@),
    {
        self.version = snap.version;
        self.allowed = parse_set(&snap.allowed_validators);
        self.origin = origin.to_owned();
    }

    /// Takes in what came of asking for the first snapshot: the one that was fetched, or else the one
    /// that was cached under `cache`. Returns the version to acknowledge, which is also the one to
    /// cache, where one was fetched.
    pub fn boot(
        &mut self,
        fetched: Option<&Snapshot>,
        cached: Option<&Snapshot>,
        url: &str,
        component_id: &str,
        cache: &str,
    ) -> (r: Option<u64>)
        ensures
            final(self)@ == booted(
                old(self)@,
                snapshot_view(fetched),
                snapshot_view(cached),
                url@,
                component_id@,
                cache@,
            ),
            r == (match fetched {
                Some(snap) => Some(snap.version),
                None => None,
            }),
    {
        match fetched {
            Some(snap) => {
                let origin: String = control_url(url).concat(" as ").concat(component_id);
                self.apply(snap, origin.as_str());
                self.connected = true;
                Some(snap.version)
            },
            None => {
                if let Some(snap) = cached {
                    let origin: String = "cache ".to_owned().concat(cache);
                    self.apply(snap, origin.as_str());
                }
                None
            },
        }
    }

    /// Takes in what happened on the watch stream. Returns what to do next. The last applied list stays
    /// in force until a snapshot replaces it.
    pub fn watch_step(&mut self, event: WatchEvent) -> (r: WatchAction)
        ensures
            (final(self)@, r@) == watched(old(self)@, event@),
    {
        match event {
            WatchEvent::Opened => {
                self.connected = true;
                self.backoff.opened();
                WatchAction::Read
            },
            WatchEvent::Refused => {
                self.connected = false;
                let secs: u64 = self.backoff.failed();
                WatchAction::Wait { secs }
            },
            WatchEvent::Lost => {
                self.connected = false;
                WatchAction::Reconnect
            },
            WatchEvent::Update { snap, watch_url } => {
                self.apply(&snap, watch_url.as_str());
                WatchAction::CacheAndAck { snap }
            },
            WatchEvent::BadEvent => WatchAction::Read,
        }
    }

    /// The validators that are allowed.
    pub fn allowed(&self) -> (r: &PubkeySet)
        ensures
            r@ == self@.allowed,
    {
        &self.allowed
    }

    /// The version of the snapshot that is applied.
    pub fn version(&self) -> (r: u64)
        ensures
            r == self@.version,
    {
        self.version
    }

    /// Whether the control plane can be reached.
    pub fn connected(&self) -> (r: bool)
        ensures
            r == self@.connected,
    {
        self.connected
    }

    /// Where the snapshot that is applied comes from.
    pub fn origin(&self) -> (r: String)
        ensures
            r@ == self@.origin,
    {
        self.origin.clone()
    }

    /// Whether the validator may connect.
    pub fn is_authorized(&self, pubkey: &Pubkey) -> (r: bool)
        ensures
            r == self@.allowed.contains(*pubkey),
    {
        self.allowed.contains(pubkey)
    }
}

/// The address of the control plane without the slashes at its end.
pub fn control_url(url: &str) -> (r: String)
    ensures
        r@ == trimmed_end(url@, '/'),
{
    let mut chars: Vec<char> = to_chars(url);
    trim_end(&mut chars, '/');
    from_chars(&chars)
}

/// The address of this component's snapshot.
pub open spec fn config_address(url: Seq<char>, component_id: Seq<char>) -> Seq<char> {
    trimmed_end(url, '/') + "/v1/config/"@ + component_id
}

/// The address of this component's snapshot.
pub fn config_url(url: &str, component_id: &str) -> (r: String)
    ensures
        r@ == config_address(url@, component_id@),
{
    control_url(url).concat("/v1/config/").concat(component_id)
}

/// The address of the stream of snapshots, given that of the snapshot.
pub fn watch_url(base: &str) -> (r: String)
    ensures
        r@ == base@ + "/watch"@,
{
    base.to_owned().concat("/watch")
}

/// The address for acknowledgements, given that of the snapshot.
pub fn ack_url(base: &str) -> (r: String)
    ensures
        r@ == base@ + "/ack"@,
{
    base.to_owned().concat("/ack")
}

/// How long to wait after the next failure, given how long was waited after the last one.
pub open spec fn longer(backoff: u64) -> u64 {
    if 2 * backoff < MAX_BACKOFF_S {
        (2 * backoff) as u64
    } else {
        MAX_BACKOFF_S
    }
}

/// How long to wait after a failure that `n` others came right before.
pub open spec fn wait_after(backoff: u64, n: nat) -> u64
    decreases n,
{
    if n == 0 {
        backoff
    } else {
        longer(wait_after(backoff, (n - 1) as nat))
    }
}

/// How long to wait before a watch stream is opened again.
pub struct Backoff {
    pub secs: u64,
}

impl Backoff {
    /// No failure so far.
    pub fn new() -> (r: Self)
        ensures
            r.secs == FIRST_BACKOFF_S,
    {
        Backoff { secs: FIRST_BACKOFF_S }
    }

    /// The stream could not be opened. Returns how many seconds to wait.
    pub fn failed(&mut self) -> (r: u64)
        ensures
            r == old(self).secs,
            final(self).secs == longer(old(self).secs),
    {
        let secs: u64 = self.secs;
        self.secs = if secs < MAX_BACKOFF_S && 2 * secs < MAX_BACKOFF_S {
            2 * secs
        } else {
            MAX_BACKOFF_S
        };
        secs
    }

    /// The stream was opened.
    pub fn opened(&mut self)
        ensures
            final(self).secs == FIRST_BACKOFF_S,
    {
        self.secs = FIRST_BACKOFF_S;
    }
}

/// The waits double from one second on until they reach a minute, and stay there.
pub proof fn law_backoff_doubles_up_to_a_minute(n: nat)
    ensures
        wait_after(FIRST_BACKOFF_S, n) == (if n < 6 {
            vstd::arithmetic::power2::pow2(n) as int
        } else {
            MAX_BACKOFF_S as int
        }),
    decreases n,
{
    vstd::arithmetic::power2::lemma2_to64();
    if n > 0 {
        law_backoff_doubles_up_to_a_minute((n - 1) as nat);
    }
}

/// The client never fails open: a validator is allowed only by a list that the control plane served,
/// be it now or at an earlier start.
pub proof fn law_never_fails_open(
    fetched: Option<SnapshotView>,
    cached: Option<SnapshotView>,
    url: Seq<char>,
    component_id: Seq<char>,
    cache: Seq<char>,
    key: Pubkey,
)
    requires
        booted(unbooted(), fetched, cached, url, component_id, cache).allowed.contains(key),
    ensures
        match (fetched, cached) {
            (Some(snap), _) => named_keys(snap.allowed_validators).contains(key),
            (None, Some(snap)) => named_keys(snap.allowed_validators).contains(key),
            (None, None) => false,
        },
{
}

/// As long as no snapshot comes, nothing changes about who is allowed, whatever else happens on the
/// watch stream: losing the control plane does not, and neither does a start at which it gives nothing.
pub proof fn law_last_list_stays_in_force(
    client: ClientView,
    events: Seq<WatchEventView>,
    url: Seq<char>,
    component_id: Seq<char>,
    cache: Seq<char>,
)
    requires
        forall|i: int| 0 <= i < events.len() ==> !((#[trigger] events[i]) is Update),
    ensures
        watched_all(client, events).allowed == client.allowed,
        watched_all(client, events).version == client.version,
        watched_all(client, events).origin == client.origin,
        booted(client, None, None, url, component_id, cache) == client,
    decreases events.len(),
{
    if events.len() > 0 {
        let init = events.drop_last();
        assert forall|i: int| 0 <= i < init.len() implies !((#[trigger] init[i]) is Update) by {
            assert(init[i] == events[i]);
        }
        law_last_list_stays_in_force(client, init, url, component_id, cache);
        assert(!(events[events.len() - 1] is Update));
    }
}

/// Of the snapshots that came on the watch stream, the last one is in force.
pub proof fn law_last_snapshot_is_in_force(
    client: ClientView,
    events: Seq<WatchEventView>,
    snap: SnapshotView,
    watch_url: Seq<char>,
    later: Seq<WatchEventView>,
)
    requires
        forall|i: int| 0 <= i < later.len() ==> !((#[trigger] later[i]) is Update),
    ensures
        ({
            let after = watched_all(
                client,
                events.push(WatchEventView::Update { snap, watch_url }) + later,
            );
            &&& after.allowed == named_keys(snap.allowed_validators)
            &&& after.version == snap.version
            &&& after.origin == watch_url
        }),
    decreases later.len(),
{
    let first = events.push(WatchEventView::Update { snap, watch_url });
    let all = first + later;
    if later.len() == 0 {
        assert(all =~= first);
        assert(first.drop_last() =~= events);
    } else {
        let init = later.drop_last();
        assert forall|i: int| 0 <= i < init.len() implies !((#[trigger] init[i]) is Update) by {
            assert(init[i] == later[i]);
        }
        law_last_snapshot_is_in_force(client, events, snap, watch_url, init);
        assert(all.drop_last() =~= first + init);
        assert(all.last() == later.last());
        assert(!(later[later.len() - 1] is Update));
    }
}

/// Whenever the watch stream has been opened and could then not be opened `n` times in a row, the wait
/// after the next failure is the one that follows `n` others.
pub proof fn law_waits_grow_until_opened(client: ClientView, n: nat)
    ensures
        watched(
            watched_all(
                watched(client, WatchEventView::Opened).0,
                Seq::new(n, |i: int| WatchEventView::Refused),
            ),
            WatchEventView::Refused,
        ).1 == (WatchActionView::Wait { secs: wait_after(FIRST_BACKOFF_S, n) }),
    decreases n,
{
    let opened = watched(client, WatchEventView::Opened).0;
    let refusals = Seq::new(n, |i: int| WatchEventView::Refused);
    if n > 0 {
        let fewer = Seq::new((n - 1) as nat, |i: int| WatchEventView::Refused);
        law_waits_grow_until_opened(client, (n - 1) as nat);
        assert(refusals.drop_last() =~= fewer);
    }
}

/// A snapshot replaces the list as a whole: a validator that it does not name is refused from then
/// on, whatever was allowed before.
pub proof fn law_removed_validator_is_refused(
    client: ClientView,
    snap: SnapshotView,
    origin: Seq<char>,
    key: Pubkey,
)
    ensures
        applied(client, snap, origin).allowed.contains(key) <==> named_keys(
            snap.allowed_validators,
        ).contains(key),
{
}

/// What is told of snapshots, events and actions is all that they hold.
pub proof fn law_snapshots_are_told(
    snap: Snapshot,
    watch_url: String,
    secs: u64,
    optional: Option<&Snapshot>,
)
    ensures
        snap@.version == snap.version,
        snap@.allowed_validators.len() == snap.allowed_validators@.len(),
        forall|i: int|
            0 <= i < snap.allowed_validators@.len() ==> #[trigger] snap@.allowed_validators[i]
                == snap.allowed_validators@[i]@,
        WatchEvent::Opened@ == WatchEventView::Opened,
        WatchEvent::Refused@ == WatchEventView::Refused,
        WatchEvent::Lost@ == WatchEventView::Lost,
        WatchEvent::BadEvent@ == WatchEventView::BadEvent,
        (WatchEvent::Update { snap, watch_url })@ == (WatchEventView::Update {
            snap: snap@,
            watch_url: watch_url@,
        }),
        WatchAction::Read@ == WatchActionView::Read,
        WatchAction::Reconnect@ == WatchActionView::Reconnect,
        (WatchAction::Wait { secs })@ == (WatchActionView::Wait { secs }),
        (WatchAction::CacheAndAck { snap })@ == (WatchActionView::CacheAndAck { snap: snap@ }),
        optional matches Some(some) ==> snapshot_view(optional) == Some(some@),
        optional is None ==> snapshot_view(optional) is None,
{
}

/// Before the control plane has told anything nobody is allowed.
pub proof fn law_nobody_is_allowed_at_first(key: Pubkey)
    ensures
        !unbooted().allowed.contains(key),
        unbooted().version == 0,
        !unbooted().connected,
        unbooted().origin == "none"@,
        unbooted().backoff == 1,
{
}

/// A snapshot allows exactly the validators that one of its texts names, brings its version and where it
/// comes from, and changes nothing else.
pub proof fn law_what_a_snapshot_changes(
    client: ClientView,
    snap: SnapshotView,
    origin: Seq<char>,
    key: Pubkey,
)
    ensures
        applied(client, snap, origin).allowed.contains(key) <==> exists|i: int|
            0 <= i < snap.allowed_validators.len() && pubkey_of_text(
                #[trigger] snap.allowed_validators[i],
            ) == Some(key),
        applied(client, snap, origin).version == snap.version,
        applied(client, snap, origin).origin == origin,
        applied(client, snap, origin).connected == client.connected,
        applied(client, snap, origin).backoff == client.backoff,
{
    if exists|i: int|
        0 <= i < snap.allowed_validators.len() && pubkey_of_text(
            #[trigger] snap.allowed_validators[i],
        ) == Some(key) {
        let i = choose|i: int|
            0 <= i < snap.allowed_validators.len() && pubkey_of_text(
                #[trigger] snap.allowed_validators[i],
            ) == Some(key);
        assert(names(snap.allowed_validators[i], key));
    }
}

/// What a start changes: a snapshot that was fetched is applied and the control plane counts as reached;
/// else one that was cached is applied, and it does not; else nothing changes.
pub proof fn law_what_a_start_changes(
    client: ClientView,
    fetched: Option<SnapshotView>,
    cached: Option<SnapshotView>,
    url: Seq<char>,
    component_id: Seq<char>,
    cache: Seq<char>,
)
    ensures
        ({
            let after = booted(client, fetched, cached, url, component_id, cache);
            &&& fetched matches Some(snap) ==> after == (ClientView {
                connected: true,
                ..applied(client, snap, trimmed_end(url, '/') + " as "@ + component_id)
            })
            &&& fetched is None && cached is Some ==> after == applied(
                client,
                cached->0,
                "cache "@ + cache,
            )
            &&& fetched is None && cached is None ==> after == client
        }),
        config_address(url, component_id) == trimmed_end(url, '/') + "/v1/config/"@ + component_id,
{
}

/// What each event on the watch stream changes, and what is done next.
pub proof fn law_what_an_event_changes(
    client: ClientView,
    snap: SnapshotView,
    watch_url: Seq<char>,
)
    ensures
        ({
            let (after, next) = watched(client, WatchEventView::Opened);
            &&& after == (ClientView { connected: true, backoff: 1, ..client })
            &&& next == WatchActionView::Read
        }),
        ({
            let (after, next) = watched(client, WatchEventView::Refused);
            &&& client.backoff < 30 ==> after.backoff == 2 * client.backoff
            &&& client.backoff >= 30 ==> after.backoff == 60
            &&& after == (ClientView { connected: false, backoff: after.backoff, ..client })
            &&& next == (WatchActionView::Wait { secs: client.backoff })
        }),
        ({
            let (after, next) = watched(client, WatchEventView::Lost);
            &&& after == (ClientView { connected: false, ..client })
            &&& next == WatchActionView::Reconnect
        }),
        ({
            let (after, next) = watched(client, WatchEventView::Update { snap, watch_url });
            &&& after == applied(client, snap, watch_url)
            &&& next == (WatchActionView::CacheAndAck { snap })
        }),
        ({
            let (after, next) = watched(client, WatchEventView::BadEvent);
            &&& after == client
            &&& next == WatchActionView::Read
        }),
{
}

/// Events are taken in one after the other.
pub proof fn law_one_more_event(
    client: ClientView,
    events: Seq<WatchEventView>,
    event: WatchEventView,
)
    ensures
        events.len() == 0 ==> watched_all(client, events) == client,
        watched_all(client, events.push(event)) == watched(watched_all(client, events), event).0,
{
    assert(events.push(event).drop_last() =~= events);
}

/// The waits and timeouts in seconds: a wait doubles, up to a minute.
pub proof fn law_waits_in_seconds(backoff: u64)
    ensures
        backoff < 30 ==> longer(backoff) == 2 * backoff,
        backoff >= 30 ==> longer(backoff) == 60,
        FIRST_BACKOFF_S == 1,
        MAX_BACKOFF_S == 60,
        CONNECT_TIMEOUT_S == 5,
        REQUEST_TIMEOUT_S == 10,
        BOOT_WAIT_S == 15,
        WATCH_IDLE_S == 60,
{
}

} // verus!
