//! What download-client detection found, and the job that runs it.

use vstd::prelude::*;

verus! {

/// The download clients mistarr talks to.
#[derive(Debug, Clone, Copy, PartialEq, Eq, Structural)]
pub enum ClientKind {
    /// rTorrent over SCGI.
    Rtorrent,
    /// Transmission over its RPC.
    Transmission,
}

impl ClientKind {
    /// The name the client is stored and shown under.
    pub fn as_str(self) -> (s: &'static str)
        ensures
            s@ == match self {
                ClientKind::Rtorrent => "rtorrent"@,
                ClientKind::Transmission => "transmission"@,
            },
    {
        match self {
            ClientKind::Rtorrent => "rtorrent",
            ClientKind::Transmission => "transmission",
        }
    }
}

/// What detection found, stored under `client.detected` and shown in `/system/status`.
#[derive(Debug, Clone)]
pub struct ClientStatus {
    /// The client in use, or `None` when nothing answered.
    pub kind: Option<ClientKind>,
    /// Its RPC URL or SCGI address.
    pub url: Option<String>,
    /// Whether it answered the last probe.
    pub reachable: bool,
    /// The version it reported, when the protocol reports one.
    pub version: Option<String>,
    /// Whether an `rtorrent` executable is on `PATH`, for the "Start rtorrent" offer.
    pub rtorrent_on_path: bool,
    /// Whether `transmission-daemon` is on `PATH`, for the "Start Transmission" offer.
    pub transmission_on_path: bool,
    /// Whether the `Buildroot_MiSTer` init script for Transmission exists.
    pub transmission_service: bool,
    /// Whether its opt-in directory exists, so the image starts it at boot.
    pub transmission_opt_in: bool,
    /// Unix seconds of the probe.
    pub checked_at: i64,
}

/// Two optional texts are equal.
pub open spec fn same_text(a: Option<String>, b: Option<String>) -> bool {
    match (a, b) {
        (Some(x), Some(y)) => x@ == y@,
        (None, None) => true,
        _ => false,
    }
}

/// Two statuses say the same apart from when the probe ran.
pub open spec fn same_finding(a: ClientStatus, b: ClientStatus) -> bool {
    &&& a.kind == b.kind
    &&& same_text(a.url, b.url)
    &&& a.reachable == b.reachable
    &&& same_text(a.version, b.version)
    &&& a.rtorrent_on_path == b.rtorrent_on_path
    &&& a.transmission_on_path == b.transmission_on_path
    &&& a.transmission_service == b.transmission_service
    &&& a.transmission_opt_in == b.transmission_opt_in
}

/// Whether two optional texts are equal.
fn texts_equal(a: &Option<String>, b: &Option<String>) -> (r: bool)
    ensures
        r == same_text(*a, *b),
{
    match (a, b) {
        (Some(x), Some(y)) => crate::text::string_eq(x, y),
        (None, None) => true,
        _ => false,
    }
}

impl ClientStatus {
    /// A status that found nothing, probed at time 0.
    pub fn none() -> (s: ClientStatus)
        ensures
            s.kind is None,
            s.url is None,
            !s.reachable,
            s.version is None,
            !s.rtorrent_on_path,
            !s.transmission_on_path,
            !s.transmission_service,
            !s.transmission_opt_in,
            s.checked_at == 0,
    {
        ClientStatus {
            kind: None,
            url: None,
            reachable: false,
            version: None,
            rtorrent_on_path: false,
            transmission_on_path: false,
            transmission_service: false,
            transmission_opt_in: false,
            checked_at: 0,
        }
    }

    /// True when a client was found and answered.
    pub fn usable(&self) -> (r: bool)
        ensures
            r == (self.kind is Some && self.reachable),
    {
        self.kind.is_some() && self.reachable
    }

    /// Whether this status says the same as `other` apart from the probe time.
    pub fn same_finding(&self, other: &ClientStatus) -> (r: bool)
        ensures
            r == same_finding(*self, *other),
    {
        self.kind == other.kind && texts_equal(&self.url, &other.url) && self.reachable
            == other.reachable && texts_equal(&self.version, &other.version)
            && self.rtorrent_on_path == other.rtorrent_on_path && self.transmission_on_path
            == other.transmission_on_path && self.transmission_service
            == other.transmission_service && self.transmission_opt_in
            == other.transmission_opt_in
    }
}

/// What to do with a probe that began at `began`, given the status stored before it.
#[derive(Debug, Clone, Copy, PartialEq, Eq, Structural)]
pub enum Store {
    /// A newer result is stored; the probe is dropped and the stored one returned.
    KeepNewer,
    /// The probe is stored; `changed` when it says something new, so `status` is
    /// published.
    Write { changed: bool },
}

/// Whether a probe that began at `began` and found `status` is stored over `before`: a
/// result taken after the probe began wins; otherwise the probe is stored, and it
/// changed something unless it says the same as `before` apart from the time.
pub fn store_probe(before: &Option<ClientStatus>, began: i64, status: &ClientStatus) -> (r: Store)
    ensures
        r == match *before {
            Some(b) => if b.checked_at > began {
                Store::KeepNewer
            } else {
                Store::Write { changed: !same_finding(b, *status) }
            },
            None => Store::Write { changed: true },
        },
{
    match before {
        Some(b) => {
            if b.checked_at > began {
                Store::KeepNewer
            } else {
                Store::Write { changed: !b.same_finding(status) }
            }
        },
        None => Store::Write { changed: true },
    }
}

/// Detects the download client, stores the result in settings and publishes `status`.
#[derive(Debug, Clone, Copy, Default)]
pub struct DetectClient;

/// The `jobs.kind` of [`DetectClient`].
pub const KIND: &'static str = "detect_client";

impl DetectClient {
    /// The job's kind.
    pub fn kind(&self) -> (k: &'static str)
        ensures
            k@ == KIND@,
    {
        KIND
    }
}

} // verus!
