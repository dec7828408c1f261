//! When the public rate table is fetched, and which copy of it counts.
//!
//! Requests, files and the clock belong to the caller. It asks here what to do,
//! does it, and reports back.
use crate::decimal::{count_text, digits};
use crate::json::{json_text, parse};
use crate::model_rate_table::{canonical, completes, entries_in, parse_rate_table};
use crate::rate::Rate;
use crate::rate_map::RateMap;
use serde_json::Value;
use std::time::SystemTime;
use vstd::prelude::*;
use vstd::string::*;

verus! {

/// Refetch at most once a day. Prices move on the order of months.
pub const TTL_SECS: u64 = 86_400;

/// The real document is a few megabytes. The cap is generous but bounded, so a
/// runaway or hostile response cannot exhaust memory.
pub const MAX_RESPONSE_BYTES: u64 = 16_777_216;

/// Long enough for a slow connection, short enough that a hung request does not
/// leave the dashboard waiting forever.
pub const FETCH_TIMEOUT_SECS: u64 = 20;

/// A moment by the system's clock.
#[verifier::external_type_specification]
#[verifier::external_body]
pub struct ExSystemTime(std::time::SystemTime);

/// How many whole seconds `SystemTime::duration_since` finds between the Unix
/// epoch and a moment that is not before it.
pub uninterp spec fn epoch_seconds(time: SystemTime) -> Option<u64>;

/// `SystemTime::duration_since`, asked about the Unix epoch, gives the time that
/// has passed, of which the whole seconds are kept, or says that the moment is
/// earlier.
#[verifier::external_body]
fn since_epoch(time: SystemTime) -> (seconds: Option<u64>)
    ensures
        seconds == epoch_seconds(time),
{
    match time.duration_since(SystemTime::UNIX_EPOCH) {
        Ok(passed) => Some(passed.as_secs()),
        Err(_) => None,
    }
}

/// Seconds that have passed, where a moment before the epoch counts as the
/// epoch.
pub open spec fn whole_seconds(passed: Option<u64>) -> u64 {
    match passed {
        Some(found) => found,
        None => 0,
    }
}

/// Seconds that have passed, where a moment before the epoch counts as the
/// epoch.
pub fn seconds_or_zero(passed: Option<u64>) -> (seconds: u64)
    ensures
        seconds == whole_seconds(passed),
{
    match passed {
        Some(found) => found,
        None => 0,
    }
}

/// Whole seconds since the Unix epoch. A moment before it counts as the epoch.
pub fn seconds_since_epoch(time: SystemTime) -> (seconds: u64)
    ensures
        seconds == whole_seconds(epoch_seconds(time)),
{
    seconds_or_zero(since_epoch(time))
}

/// Why there is no fresh document.
pub enum FetchError {
    /// The server answered with this status.
    Status(String),
    /// The response could not be read to its end.
    Unreadable,
    /// The response is longer than [`MAX_RESPONSE_BYTES`].
    TooLong,
    /// The response is not JSON.
    Malformed(serde_json::Error),
    /// There was no answer in time.
    TimedOut,
}

impl FetchError {
    /// What the log says.
    pub open spec fn text(self) -> Seq<char> {
        match self {
            FetchError::Status(status) => "price table returned "@ + status@,
            FetchError::Unreadable => "reading price table"@,
            FetchError::TooLong => "price table exceeded "@ + digits(
                MAX_RESPONSE_BYTES as nat,
            ) + " bytes"@,
            FetchError::Malformed(_) => "parsing price table"@,
            FetchError::TimedOut => "price table request timed out"@,
        }
    }

    /// What the log says.
    pub fn message(&self) -> (message: String)
        ensures
            message@ == self.text(),
    {
        match self {
            FetchError::Status(status) => {
                let mut message: String = "price table returned ".to_owned();
                message.append(status.as_str());
                message
            },
            FetchError::Unreadable => "reading price table".to_owned(),
            FetchError::TooLong => {
                let mut message: String = "price table exceeded ".to_owned();
                let cap: String = count_text(MAX_RESPONSE_BYTES);
                message.append(cap.as_str());
                message.append(" bytes");
                message
            },
            FetchError::Malformed(_) => "parsing price table".to_owned(),
            FetchError::TimedOut => "price table request timed out".to_owned(),
        }
    }
}

/// How much of a response to read: one byte more than is allowed, so that a
/// longer one shows. A `Content-Length` is not trusted.
pub fn read_limit() -> (limit: u64)
    ensures
        limit == MAX_RESPONSE_BYTES + 1,
{
    MAX_RESPONSE_BYTES + 1
}

/// Only a successful response has a body worth reading.
pub open spec fn status_verdict(success: bool, status: String) -> Result<(), FetchError> {
    if success {
        Ok(())
    } else {
        Err(FetchError::Status(status))
    }
}

/// Only a successful response has a body worth reading.
pub fn accept_status(success: bool, status: String) -> (result: Result<(), FetchError>)
    ensures
        result == status_verdict(success, status),
        result is Ok <==> success,
{
    if success {
        Ok(())
    } else {
        Err(FetchError::Status(status))
    }
}

/// A document, or why there is none.
pub open spec fn accepted(parsed: Result<Value, serde_json::Error>) -> Result<Value, FetchError> {
    match parsed {
        Ok(document) => Ok(document),
        Err(error) => Err(FetchError::Malformed(error)),
    }
}

/// A document, or why there is none.
pub fn accept_document(parsed: Result<Value, serde_json::Error>) -> (result: Result<
    Value,
    FetchError,
>)
    ensures
        result == accepted(parsed),
{
    match parsed {
        Ok(document) => Ok(document),
        Err(error) => Err(FetchError::Malformed(error)),
    }
}

/// The document in a response: one that is too long has none, and of any other
/// the parse decides.
pub open spec fn body_verdict(
    length: nat,
    parsed: Result<Value, serde_json::Error>,
) -> Result<Value, FetchError> {
    if length > MAX_RESPONSE_BYTES {
        Err(FetchError::TooLong)
    } else {
        accepted(parsed)
    }
}

/// The document in a response, of which at most [`read_limit`] bytes were read.
pub fn accept_body(body: &Vec<u8>) -> (result: Result<Value, FetchError>)
    ensures
        result == body_verdict(body@.len(), json_text(body@)),
        result is Ok <==> body@.len() <= 16_777_216 && json_text(body@) is Ok,
        result matches Ok(document) ==> json_text(body@) == Ok::<Value, serde_json::Error>(
            document,
        ),
{
    if body.len() as u64 > MAX_RESPONSE_BYTES {
        return Err(FetchError::TooLong);
    }
    accept_document(parse(body.as_slice()))
}

/// A document and when it was obtained.
///
/// The document is kept exactly as served, and read again on every load, so a
/// tampered cache file gets the same validation as a fresh response instead of
/// being trusted for being local.
pub struct CachedRates {
    pub fetched_at_secs: u64,
    pub document: Value,
}

/// Whether a copy from disk is inside the TTL. One from the future is.
pub open spec fn is_fresh(fetched_at_secs: u64, now: u64) -> bool {
    now < fetched_at_secs + TTL_SECS
}

/// Where the next document comes from.
pub enum LoadStep {
    /// From disk: this copy is inside the TTL.
    Use(CachedRates),
    /// From the network. What is on disk, if anything is, remains to fall back
    /// on.
    Fetch(Option<CachedRates>),
}

/// Where the next document comes from: from disk while that copy is inside the
/// TTL, from the network otherwise.
pub open spec fn first_step(cached: Option<CachedRates>, now: u64) -> LoadStep {
    match cached {
        Some(copy) => if is_fresh(copy.fetched_at_secs, now) {
            LoadStep::Use(copy)
        } else {
            LoadStep::Fetch(Some(copy))
        },
        None => LoadStep::Fetch(None),
    }
}

/// The first step of a load: what is on disk, and the time.
pub fn begin_load(cached: Option<CachedRates>, now: u64) -> (step: LoadStep)
    ensures
        step == first_step(cached, now),
        step is Use <==> cached is Some && now < cached->0.fetched_at_secs + 86_400,
{
    match cached {
        Some(copy) => {
            let age: u64 = now.saturating_sub(copy.fetched_at_secs);
            if age < TTL_SECS {
                LoadStep::Use(copy)
            } else {
                LoadStep::Fetch(Some(copy))
            }
        },
        None => LoadStep::Fetch(None),
    }
}

/// How a load ends.
pub struct Loaded {
    /// The document, if there is one.
    pub rates: Option<CachedRates>,
    /// Whether it is new, and to be written to disk so that the next launch can
    /// skip the request.
    pub write: bool,
}

/// How a load ends: with what the network gave, or else with what is on disk.
pub open spec fn last_step(stale: Option<CachedRates>, fetched: Option<Value>, now: u64) -> Loaded {
    match fetched {
        Some(document) => Loaded {
            rates: Some(CachedRates { fetched_at_secs: now, document }),
            write: true,
        },
        None => Loaded { rates: stale, write: false },
    }
}

/// The last step of a load: what is on disk, what the network gave, and the
/// time at which the load began.
///
/// Falls back to a stale document when the network fails, because a stale price
/// beats no price at all.
pub fn end_load(stale: Option<CachedRates>, fetched: Option<Value>, now: u64) -> (loaded: Loaded)
    ensures
        loaded == last_step(stale, fetched, now),
        loaded.write <==> fetched is Some,
        fetched is None ==> loaded.rates == stale,
        fetched is Some ==> loaded.rates is Some && loaded.rates->0.fetched_at_secs == now,
{
    match fetched {
        Some(document) => Loaded {
            rates: Some(CachedRates { fetched_at_secs: now, document }),
            write: true,
        },
        None => Loaded { rates: stale, write: false },
    }
}

/// What a caller who wants prices is to do.
#[derive(Clone, Copy, Debug, PartialEq, Eq, Structural)]
pub enum RefreshAction {
    /// Nothing: there is nothing to wait for.
    Ready,
    /// Wait for the load that is under way.
    Join,
    /// Begin a load, and let others join it.
    Load,
}

/// Whether a table in memory is younger than the TTL. One from the future is
/// not, nor is any while the clock stands before the epoch.
pub open spec fn is_current(fetched_at: Option<u64>, now: Option<u64>) -> bool {
    match (fetched_at, now) {
        (Some(at), Some(now)) => at <= now && now - at < TTL_SECS,
        _ => false,
    }
}

/// What a caller who wants prices is to do.
pub open spec fn refresh_action(
    enabled: bool,
    in_flight: bool,
    fetched_at: Option<u64>,
    now: Option<u64>,
) -> RefreshAction {
    if !enabled {
        RefreshAction::Ready
    } else if in_flight {
        RefreshAction::Join
    } else if is_current(fetched_at, now) {
        RefreshAction::Ready
    } else {
        RefreshAction::Load
    }
}

/// Decides what a caller who wants prices is to do.
pub fn decide_refresh(
    enabled: bool,
    in_flight: bool,
    fetched_at: Option<u64>,
    now: Option<u64>,
) -> (action: RefreshAction)
    ensures
        action == refresh_action(enabled, in_flight, fetched_at, now),
        action == RefreshAction::Join <==> enabled && in_flight,
        action == RefreshAction::Load <==> enabled && !in_flight && !(fetched_at is Some && now
            is Some && fetched_at->0 <= now->0 && now->0 < fetched_at->0 + 86_400),
{
    if !enabled {
        return RefreshAction::Ready;
    }
    if in_flight {
        return RefreshAction::Join;
    }
    match (fetched_at, now) {
        (Some(at), Some(now)) => if at <= now && now - at < TTL_SECS {
            RefreshAction::Ready
        } else {
            RefreshAction::Load
        },
        _ => RefreshAction::Load,
    }
}

/// The fetched table plus enough state to honour the TTL and to keep concurrent
/// refreshes down to one request.
pub struct GlobalModelRates {
    pub table: RateMap,
    /// Seconds since the Unix epoch.
    pub fetched_at: Option<u64>,
    pub in_flight: bool,
}

impl GlobalModelRates {
    pub open spec fn wf(&self) -> bool {
        self.table.wf()
    }

    /// Nothing fetched yet.
    pub fn new() -> (rates: GlobalModelRates)
        ensures
            rates.wf(),
            rates.table@ == Map::<Seq<char>, Rate>::empty(),
            rates.fetched_at is None,
            !rates.in_flight,
    {
        GlobalModelRates { table: RateMap::new(), fetched_at: None, in_flight: false }
    }

    /// How an action that was decided on changes the state: a load that is to
    /// begin is under way.
    pub open spec fn refreshed(
        before: GlobalModelRates,
        action: RefreshAction,
        after: GlobalModelRates,
    ) -> bool {
        &&& after.in_flight == (before.in_flight || action == RefreshAction::Load)
        &&& after.table == before.table
        &&& after.fetched_at == before.fetched_at
    }

    /// How a rate table is taken in, unless it is empty.
    pub open spec fn adopted(
        before: GlobalModelRates,
        table: RateMap,
        fetched_at_secs: u64,
        after: GlobalModelRates,
    ) -> bool {
        &&& after.in_flight == before.in_flight
        &&& if table@.is_empty() {
            after.table == before.table && after.fetched_at == before.fetched_at
        } else {
            after.table == table && after.fetched_at == Some(fetched_at_secs)
        }
    }

    /// How the end of a load changes the state.
    pub open spec fn finished(
        before: GlobalModelRates,
        loaded: Option<CachedRates>,
        after: GlobalModelRates,
    ) -> bool {
        &&& after.wf()
        &&& !after.in_flight
        &&& match loaded {
            None => after.table == before.table && after.fetched_at == before.fetched_at,
            Some(copy) => if canonical(entries_in(copy.document)).is_empty() {
                after.table == before.table && after.fetched_at == before.fetched_at
            } else {
                &&& completes(canonical(entries_in(copy.document)), after.table@)
                &&& after.fetched_at == Some(copy.fetched_at_secs)
            },
        }
    }

    /// Makes the fetched table available: says what the caller is to do for it,
    /// and marks a load that is to begin as under way.
    ///
    /// Concurrent callers share one load, so opening several dashboards issues
    /// one request. A table younger than the TTL is left alone.
    pub fn refresh(&mut self, enabled: bool, now: SystemTime) -> (action: RefreshAction)
        ensures
            action == refresh_action(
                enabled,
                old(self).in_flight,
                old(self).fetched_at,
                epoch_seconds(now),
            ),
            Self::refreshed(*old(self), action, *final(self)),
            final(self).in_flight <==> old(self).in_flight || action == RefreshAction::Load,
            action == RefreshAction::Join <==> enabled && old(self).in_flight,
            action == RefreshAction::Load <==> enabled && !old(self).in_flight && !(old(
                self,
            ).fetched_at is Some && epoch_seconds(now) is Some && old(self).fetched_at->0
                <= epoch_seconds(now)->0 && epoch_seconds(now)->0 < old(self).fetched_at->0
                + 86_400),
    {
        let action: RefreshAction = decide_refresh(
            enabled,
            self.in_flight,
            self.fetched_at,
            since_epoch(now),
        );
        if action == RefreshAction::Load {
            self.in_flight = true;
        }
        action
    }

    /// Takes a rate table in. An empty one means that the document changed
    /// shape: what there was is kept rather than replaced with nothing.
    pub fn adopt(&mut self, table: RateMap, fetched_at_secs: u64)
        requires
            table.wf(),
        ensures
            Self::adopted(*old(self), table, fetched_at_secs, *final(self)),
    {
        if !table.is_empty() {
            self.table = table;
            self.fetched_at = Some(fetched_at_secs);
        }
    }

    /// A load has ended: none is under way any more, and the document that it
    /// found, if it found one, is read.
    pub fn finish(&mut self, loaded: Option<CachedRates>)
        requires
            old(self).wf(),
        ensures
            Self::finished(*old(self), loaded, *final(self)),
            !final(self).in_flight,
            loaded is None ==> final(self).table == old(self).table && final(self).fetched_at
                == old(self).fetched_at,
    {
        self.in_flight = false;
        match loaded {
            None => {},
            Some(copy) => {
                let table: RateMap = parse_rate_table(&copy.document);
                proof {
                    let own = canonical(entries_in(copy.document));
                    if own.is_empty() {
                        assert(table@.dom() =~= Set::empty());
                    } else {
                        let name = own.dom().choose();
                        assert(own.contains_key(name));
                        assert(table@.contains_key(name));
                    }
                }
                self.adopt(table, copy.fetched_at_secs);
            },
        }
    }
}

} // verus!
