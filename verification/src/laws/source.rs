//! Laws of the price source: when it is asked, and which copy counts.
use crate::decimal::digits;
use crate::model_rate_table::{canonical, completes, entries_in};
use crate::price_source::{
    accepted, body_verdict, first_step, is_current, last_step, refresh_action, status_verdict,
    whole_seconds, CachedRates, FetchError, GlobalModelRates, LoadStep, RefreshAction,
    MAX_RESPONSE_BYTES, TTL_SECS,
};
use crate::rate_map::RateMap;
use serde_json::Value;
use vstd::prelude::*;

verus! {

/// The copy that a load ends with: what is on disk, what the network would give,
/// and the time at which the load begins.
pub open spec fn loaded_copy(
    cached: Option<CachedRates>,
    fetched: Option<Value>,
    now: u64,
) -> Option<CachedRates> {
    match first_step(cached, now) {
        LoadStep::Use(copy) => Some(copy),
        LoadStep::Fetch(stale) => last_step(stale, fetched, now).rates,
    }
}

/// A stale price beats no price at all: where there is a copy on disk a load
/// always ends with one, whatever the network does.
pub proof fn law_stale_beats_none(cached: Option<CachedRates>, fetched: Option<Value>, now: u64)
    requires
        cached is Some,
    ensures
        loaded_copy(cached, fetched, now) is Some,
        fetched is None ==> loaded_copy(cached, fetched, now) == cached,
{
}

/// A copy inside the TTL is used as it is, whatever the network would give.
pub proof fn law_fresh_copy_is_used(cached: CachedRates, fetched: Option<Value>, now: u64)
    requires
        now < cached.fetched_at_secs + TTL_SECS,
    ensures
        loaded_copy(Some(cached), fetched, now) == Some(cached),
{
}

/// Without a copy inside the TTL, a document from the network counts, as of now.
pub proof fn law_fetched_document_counts(cached: Option<CachedRates>, document: Value, now: u64)
    requires
        cached matches Some(copy) ==> now >= copy.fetched_at_secs + TTL_SECS,
    ensures
        loaded_copy(cached, Some(document), now) == Some(
            CachedRates { fetched_at_secs: now, document },
        ),
{
}

/// Concurrent callers share one load: while one is under way, no other begins.
pub proof fn law_one_load_at_a_time(enabled: bool, fetched_at: Option<u64>, now: Option<u64>)
    ensures
        refresh_action(enabled, true, fetched_at, now) != RefreshAction::Load,
{
}

/// With fetching turned off nothing is ever loaded.
pub proof fn law_turned_off_is_off(in_flight: bool, fetched_at: Option<u64>, now: Option<u64>)
    ensures
        refresh_action(false, in_flight, fetched_at, now) == RefreshAction::Ready,
{
}

/// A table younger than the TTL is left alone, so that a table that was fetched
/// is fetched again at most once a day.
pub proof fn law_young_table_is_left_alone(
    enabled: bool,
    in_flight: bool,
    fetched_at: u64,
    now: u64,
)
    requires
        fetched_at <= now,
        now < fetched_at + TTL_SECS,
    ensures
        refresh_action(enabled, in_flight, Some(fetched_at), Some(now)) != RefreshAction::Load,
{
}

/// Where fetching is on, nothing is under way and no table is young enough, a
/// load begins.
pub proof fn law_missing_table_is_loaded(fetched_at: Option<u64>, now: Option<u64>)
    requires
        !is_current(fetched_at, now),
    ensures
        refresh_action(true, false, fetched_at, now) == RefreshAction::Load,
{
}

/// A copy that was taken from disk for being inside the TTL makes a table that
/// is left alone, unless it is from the future.
pub proof fn law_fresh_copy_settles(cached: CachedRates, now: u64)
    requires
        first_step(Some(cached), now) is Use,
        cached.fetched_at_secs <= now,
    ensures
        refresh_action(true, false, Some(cached.fetched_at_secs), Some(now))
            == RefreshAction::Ready,
{
}

/// Reading one byte more than is allowed shows whether a response is too long,
/// however long it is.
pub proof fn law_long_response_shows(length: nat, read: nat)
    requires
        read == (if length < MAX_RESPONSE_BYTES + 1 {
            length
        } else {
            (MAX_RESPONSE_BYTES + 1) as nat
        }),
    ensures
        read > MAX_RESPONSE_BYTES <==> length > MAX_RESPONSE_BYTES,
{
}

/// A table that is a day old or older is loaded again, however old it is, as long
/// as fetching is on and nothing is under way.
pub proof fn law_old_table_is_loaded_again(fetched_at: u64, now: u64)
    requires
        now >= fetched_at + 86_400,
    ensures
        refresh_action(true, false, Some(fetched_at), Some(now)) == RefreshAction::Load,
{
}

/// A table from the future is loaded again, and so is any while the clock stands
/// before the epoch, and where there is no table there is one to load.
pub proof fn law_unaged_table_is_loaded_again(fetched_at: u64, now: u64, clock: Option<u64>)
    ensures
        now < fetched_at ==> refresh_action(true, false, Some(fetched_at), Some(now))
            == RefreshAction::Load,
        refresh_action(true, false, Some(fetched_at), None) == RefreshAction::Load,
        refresh_action(true, false, None, clock) == RefreshAction::Load,
{
}

/// What a caller is to do is decided for every state: nothing where fetching is
/// off or the table is less than a day old, to wait where a load is under way,
/// and otherwise to begin one.
pub proof fn law_refresh_is_decided(
    enabled: bool,
    in_flight: bool,
    fetched_at: Option<u64>,
    now: Option<u64>,
)
    ensures
        ({
            let action = refresh_action(enabled, in_flight, fetched_at, now);
            let young = fetched_at is Some && now is Some && fetched_at->0 <= now->0 && now->0
                < fetched_at->0 + 86_400;
            &&& action == RefreshAction::Join <==> enabled && in_flight
            &&& action == RefreshAction::Load <==> enabled && !in_flight && !young
            &&& action == RefreshAction::Ready <==> !enabled || (!in_flight && young)
        }),
{
}

/// As time goes by a table does not become young again.
pub proof fn law_tables_only_age(fetched_at: u64, now: u64, later: u64)
    requires
        fetched_at <= now <= later,
        refresh_action(true, false, Some(fetched_at), Some(now)) == RefreshAction::Load,
    ensures
        refresh_action(true, false, Some(fetched_at), Some(later)) == RefreshAction::Load,
{
}

/// A copy on disk is used exactly while it is less than a day old, or from the
/// future. Otherwise the network is asked, and the copy is kept to fall back on.
pub proof fn law_copies_are_used_for_a_day(cached: Option<CachedRates>, now: u64)
    ensures
        first_step(cached, now) is Use <==> cached is Some && now < cached->0.fetched_at_secs
            + 86_400,
        first_step(cached, now) matches LoadStep::Use(copy) ==> cached == Some(copy),
        first_step(cached, now) matches LoadStep::Fetch(stale) ==> cached == stale,
{
}

/// A copy does not become fresh again.
pub proof fn law_copies_only_age(cached: CachedRates, now: u64, later: u64)
    requires
        now <= later,
        first_step(Some(cached), now) is Fetch,
    ensures
        first_step(Some(cached), later) is Fetch,
{
}

/// What is written to disk is what the network gave, stamped with the time, and
/// nothing else ever is. Without it the load ends with what was there before.
pub proof fn law_only_fetched_documents_are_written(
    stale: Option<CachedRates>,
    fetched: Option<Value>,
    now: u64,
)
    ensures
        ({
            let end = last_step(stale, fetched, now);
            &&& end.write <==> fetched is Some
            &&& end.write ==> end.rates is Some && fetched == Some(end.rates->0.document)
                && end.rates->0.fetched_at_secs == now
            &&& !end.write ==> end.rates == stale
        }),
{
}

/// A response is read on exactly where it was successful; otherwise its status is
/// the error.
pub proof fn law_only_success_is_read(success: bool, status: String)
    ensures
        status_verdict(success, status) is Ok <==> success,
        !success ==> status_verdict(success, status) == Err::<(), FetchError>(
            FetchError::Status(status),
        ),
{
}

/// A response of up to 16 MiB gives exactly the document that its text is, and
/// the parser's own error where it is none. A longer one gives none, whatever it
/// says.
pub proof fn law_documents_are_accepted_as_they_are(
    length: nat,
    parsed: Result<Value, serde_json::Error>,
)
    ensures
        length > 16_777_216 ==> body_verdict(length, parsed) == Err::<Value, FetchError>(
            FetchError::TooLong,
        ),
        length <= 16_777_216 ==> {
            &&& parsed matches Ok(document) ==> body_verdict(length, parsed) == Ok::<
                Value,
                FetchError,
            >(document)
            &&& parsed matches Err(error) ==> body_verdict(length, parsed) == Err::<
                Value,
                FetchError,
            >(FetchError::Malformed(error))
        },
        parsed matches Ok(document) ==> accepted(parsed) == Ok::<Value, FetchError>(document),
        parsed matches Err(error) ==> accepted(parsed) == Err::<Value, FetchError>(
            FetchError::Malformed(error),
        ),
{
}

/// A moment before the epoch counts as the epoch, and any other as the seconds
/// that have passed.
pub proof fn law_seconds_are_whole(passed: u64)
    ensures
        whole_seconds(Some(passed)) == passed,
        whole_seconds(None) == 0,
{
}

/// Two callers, one after the other: where the first begins a load, the second
/// waits for it, whatever the time, and neither touches the table.
pub proof fn law_second_caller_waits(
    before: GlobalModelRates,
    now: Option<u64>,
    after: GlobalModelRates,
    later: Option<u64>,
)
    requires
        GlobalModelRates::refreshed(
            before,
            refresh_action(true, before.in_flight, before.fetched_at, now),
            after,
        ),
        refresh_action(true, before.in_flight, before.fetched_at, now) == RefreshAction::Load,
    ensures
        refresh_action(true, after.in_flight, after.fetched_at, later) == RefreshAction::Join,
        after.table == before.table,
        after.fetched_at == before.fetched_at,
{
}

/// A caller who begins no load changes nothing at all.
pub proof fn law_other_callers_change_nothing(
    before: GlobalModelRates,
    action: RefreshAction,
    after: GlobalModelRates,
)
    requires
        GlobalModelRates::refreshed(before, action, after),
        action != RefreshAction::Load,
    ensures
        after.in_flight == before.in_flight,
        after.table == before.table,
        after.fetched_at == before.fetched_at,
{
}

/// After a load has ended, another can begin: none is under way. Where the load
/// found nothing, or a document without a single price, the table and its age
/// are what they were.
pub proof fn law_failed_load_keeps_the_table(
    before: GlobalModelRates,
    loaded: Option<CachedRates>,
    after: GlobalModelRates,
)
    requires
        GlobalModelRates::finished(before, loaded, after),
    ensures
        !after.in_flight,
        loaded is None ==> after.table == before.table && after.fetched_at == before.fetched_at,
        loaded matches Some(copy) ==> {
            (forall|name: Seq<char>| !canonical(entries_in(copy.document)).contains_key(name))
                ==> after.table == before.table && after.fetched_at == before.fetched_at
        },
{
    if loaded is Some {
        let own = canonical(entries_in(loaded->0.document));
        if forall|name: Seq<char>| !own.contains_key(name) {
            assert(own.dom() =~= Set::empty());
        }
    }
}

/// A document with a price replaces the table, and the new table is as old as the
/// document: it is left alone until the document is a day old, and not longer.
pub proof fn law_loaded_table_lasts_a_day(
    before: GlobalModelRates,
    copy: CachedRates,
    after: GlobalModelRates,
    name: Seq<char>,
    now: u64,
)
    requires
        GlobalModelRates::finished(before, Some(copy), after),
        canonical(entries_in(copy.document)).contains_key(name),
    ensures
        after.table@.contains_key(name),
        after.table@[name] == canonical(entries_in(copy.document))[name],
        completes(canonical(entries_in(copy.document)), after.table@),
        copy.fetched_at_secs <= now < copy.fetched_at_secs + 86_400 ==> refresh_action(
            true,
            after.in_flight,
            after.fetched_at,
            Some(now),
        ) == RefreshAction::Ready,
        now >= copy.fetched_at_secs + 86_400 ==> refresh_action(
            true,
            after.in_flight,
            after.fetched_at,
            Some(now),
        ) == RefreshAction::Load,
{
    let own = canonical(entries_in(copy.document));
    assert(own.dom().contains(name));
    assert(!own.is_empty());
}

/// A table is taken in with its age unless it has no names at all, in which case
/// the one before stays. A load that is under way stays so.
pub proof fn law_tables_are_adopted(
    before: GlobalModelRates,
    table: RateMap,
    fetched_at_secs: u64,
    after: GlobalModelRates,
    name: Seq<char>,
)
    requires
        GlobalModelRates::adopted(before, table, fetched_at_secs, after),
    ensures
        after.in_flight == before.in_flight,
        table@.contains_key(name) ==> after.table == table && after.fetched_at == Some(
            fetched_at_secs,
        ),
        (forall|any: Seq<char>| !table@.contains_key(any)) ==> after.table == before.table
            && after.fetched_at == before.fetched_at,
{
    if table@.contains_key(name) {
        assert(table@.dom().contains(name));
        assert(!table@.is_empty());
    }
    if forall|any: Seq<char>| !table@.contains_key(any) {
        assert(table@.dom() =~= Set::empty());
    }
}

/// What the log says of a status names the status, whatever it is, and what it
/// says of a response that is too long names the limit in bytes.
pub proof fn law_errors_say_what_happened(status: String)
    ensures
        FetchError::Status(status).text() == "price table returned "@ + status@,
        FetchError::TooLong.text() == "price table exceeded "@ + digits(16_777_216) + " bytes"@,
{
}

} // verus!
