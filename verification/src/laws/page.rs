//! Laws of the page: which figure stands where, and what it counts.
use crate::binary64::Binary64;
use crate::decimal::{digits, fixed};
use crate::laws::arithmetic::law_counts_are_exact;
use crate::rate::{Rate, TokenUsage};
use crate::rounding::UNIT_EXPONENT;
use crate::usage_dashboard::{
    all_input, are_buttons, history, line_of, tokens_text, usd_text, warning_text, Body, Page,
    Range, RangeButton, UsageDashboard,
};
use crate::usage_summary::{picked, ModelSpend, Summary, ThreadUsageRow};
use vstd::arithmetic::power2::pow2;
use vstd::prelude::*;

verus! {

/// A range is as long as it says, today among its days: one day, seven or thirty.
/// All time has no first day.
pub proof fn law_ranges_are_as_long_as_they_say(range: Range, today: i32)
    requires
        range.has_begin(today),
    ensures
        range == Range::All <==> range.first_day(today) is None,
        range == Range::Today ==> today - range.first_day(today)->0 + 1 == 1,
        range == Range::Week ==> today - range.first_day(today)->0 + 1 == 7,
        range == Range::Month ==> today - range.first_day(today)->0 + 1 == 30,
{
}

/// A range begins on every day of the calendar that is far enough from its ends.
pub proof fn law_ranges_begin_on_ordinary_days(range: Range, today: i32)
    ensures
        range == Range::All ==> range.has_begin(today),
        -95_746_129 + 29 <= today <= 95_745_399 ==> range.has_begin(today),
        range != Range::All && range.has_begin(today) ==> -95_746_129 <= today <= 95_745_399,
        range == Range::Week ==> (range.has_begin(today) <==> -95_746_129 + 6 <= today
            <= 95_745_399),
        range == Range::Month ==> (range.has_begin(today) <==> -95_746_129 + 29 <= today
            <= 95_745_399),
{
}

/// The input and the output that are shown of a row account for all its tokens:
/// the input is everything but the output.
pub proof fn law_input_and_output_are_all_tokens(usage: TokenUsage)
    ensures
        all_input(usage) + usage.output_tokens == usage.total(),
        all_input(usage) + usage.output_tokens == usage.input_tokens + usage.output_tokens
            + usage.cache_read_input_tokens + usage.cache_creation_input_tokens,
{
}

/// One more token of any class of input is one more in the input that is shown,
/// and one more of output changes it not at all.
pub proof fn law_every_input_token_shows(usage: TokenUsage, more: TokenUsage)
    requires
        more.output_tokens >= usage.output_tokens,
    ensures
        more.input_tokens == usage.input_tokens + 1 && more.cache_read_input_tokens
            == usage.cache_read_input_tokens && more.cache_creation_input_tokens
            == usage.cache_creation_input_tokens ==> all_input(more) == all_input(usage) + 1,
        more.input_tokens == usage.input_tokens && more.cache_read_input_tokens
            == usage.cache_read_input_tokens + 1 && more.cache_creation_input_tokens
            == usage.cache_creation_input_tokens ==> all_input(more) == all_input(usage) + 1,
        more.input_tokens == usage.input_tokens && more.cache_read_input_tokens
            == usage.cache_read_input_tokens && more.cache_creation_input_tokens
            == usage.cache_creation_input_tokens + 1 ==> all_input(more) == all_input(usage) + 1,
        more.input_tokens == usage.input_tokens && more.cache_read_input_tokens
            == usage.cache_read_input_tokens && more.cache_creation_input_tokens
            == usage.cache_creation_input_tokens ==> all_input(more) == all_input(usage),
{
}

/// What the table says of a row: its names, its count of threads, its output,
/// everything else as input, and its cost, or that there is no rate.
pub proof fn law_lines_say_what_rows_hold(row: ModelSpend)
    ensures
        line_of(row).model == row.model_id@,
        line_of(row).provider == row.provider_id@,
        line_of(row).threads == digits(row.threads as nat),
        line_of(row).output == tokens_text(row.usage.output_tokens as nat),
        line_of(row).input == tokens_text(
            (row.usage.input_tokens + row.usage.cache_read_input_tokens
                + row.usage.cache_creation_input_tokens) as nat,
        ),
        forall|rest: nat|
            rest + row.usage.output_tokens == row.usage.total() ==> line_of(row).input
                == #[trigger] tokens_text(rest),
        row.cost matches Some(amount) ==> line_of(row).cost == usd_text(amount),
        row.cost is None ==> line_of(row).cost == "No rate"@,
        line_of(row).priced <==> row.cost is Some,
{
}

/// The figures of a page are those of the summary, each in its own place: what
/// was spent, all tokens of all classes, what caching saved, and the threads.
pub proof fn law_figures_stand_in_their_places(dashboard: UsageDashboard, page: Page)
    requires
        dashboard.is_page(page),
    ensures
        page.spend@ == usd_text(dashboard.summary.cost),
        page.saved_by_caching@ == usd_text(dashboard.summary.cache_savings),
        page.threads@ == digits(dashboard.summary.threads as nat),
        page.tokens@ == tokens_text(
            (dashboard.summary.usage.input_tokens + dashboard.summary.usage.output_tokens
                + dashboard.summary.usage.cache_read_input_tokens
                + dashboard.summary.usage.cache_creation_input_tokens) as nat,
        ),
        page.warning is Some <==> dashboard.summary.unpriced_models > 0,
        page.warning matches Some(text) ==> exists|rest: Seq<char>|
            text@ == #[trigger] (digits(dashboard.summary.unpriced_models as nat) + rest),
{
    if dashboard.summary.unpriced_models > 0 {
        let rest =
            " model(s) have no known price, so spend is a lower bound. Set `agent.model_pricing` to include them."@;
        assert(page.warning->0@ == digits(dashboard.summary.unpriced_models as nat) + rest);
    }
}

/// The warning counts the models without a price, and there is none where every
/// model has one.
pub proof fn law_warnings_count_the_unpriced(unpriced_models: nat)
    ensures
        warning_text(0) is None,
        unpriced_models > 0 ==> warning_text(unpriced_models) == Some(
            digits(unpriced_models)
                + " model(s) have no known price, so spend is a lower bound. Set `agent.model_pricing` to include them."@,
        ),
{
}

/// The table shows every row of the summary, in its order, with all its tokens,
/// as soon as history has been read and there is a row. Before that, and where
/// there is none, a sentence says so.
pub proof fn law_the_table_shows_every_row(dashboard: UsageDashboard, page: Page)
    requires
        dashboard.is_page(page),
    ensures
        page.body is Table <==> !dashboard.loading && dashboard.summary.rows@.len() > 0,
        page.body matches Body::Table(lines) ==> {
            &&& lines@.len() == dashboard.summary.rows@.len()
            &&& forall|i: int|
                0 <= i < lines@.len() ==> {
                    let row = dashboard.summary.rows@[i];
                    &&& (#[trigger] lines@[i]).model@ == row.model_id@
                    &&& lines@[i].provider@ == row.provider_id@
                    &&& lines@[i].threads@ == digits(row.threads as nat)
                    &&& lines@[i].output@ == tokens_text(row.usage.output_tokens as nat)
                    &&& lines@[i].input@ == tokens_text(
                        (row.usage.input_tokens + row.usage.cache_read_input_tokens
                            + row.usage.cache_creation_input_tokens) as nat,
                    )
                    &&& row.cost matches Some(amount) ==> lines@[i].priced && lines@[i].cost@
                        == usd_text(amount)
                    &&& row.cost is None ==> !lines@[i].priced && lines@[i].cost@ == "No rate"@
                }
        },
        page.body matches Body::Notice(notice) ==> {
            &&& dashboard.loading ==> notice@ == "Reading thread history\u{2026}"@
            &&& !dashboard.loading ==> notice@ == "No agent usage recorded in this range."@
        },
{
    match page.body {
        Body::Table(lines) => {
            assert forall|i: int| 0 <= i < lines@.len() implies {
                let row = dashboard.summary.rows@[i];
                &&& (#[trigger] lines@[i]).model@ == row.model_id@
                &&& lines@[i].provider@ == row.provider_id@
                &&& lines@[i].threads@ == digits(row.threads as nat)
                &&& lines@[i].output@ == tokens_text(row.usage.output_tokens as nat)
                &&& lines@[i].input@ == tokens_text(
                    (row.usage.input_tokens + row.usage.cache_read_input_tokens
                        + row.usage.cache_creation_input_tokens) as nat,
                )
                &&& row.cost matches Some(amount) ==> lines@[i].priced && lines@[i].cost@
                    == usd_text(amount)
                &&& row.cost is None ==> !lines@[i].priced && lines@[i].cost@ == "No rate"@
            } by {
                assert(lines@[i]@ == line_of(dashboard.summary.rows@[i]));
            }
        },
        Body::Notice(_) => {},
    }
}

/// There is one button for each range, and that of the range that is shown is
/// the only one that is marked.
pub proof fn law_one_button_is_marked(buttons: Seq<RangeButton>, range: Range, at: int)
    requires
        are_buttons(buttons, range),
        0 <= at < buttons.len(),
    ensures
        buttons.len() == 4,
        buttons[0].range == Range::Today && buttons[0].label@ == "Today"@,
        buttons[1].range == Range::Week && buttons[1].label@ == "7 days"@,
        buttons[2].range == Range::Month && buttons[2].label@ == "30 days"@,
        buttons[3].range == Range::All && buttons[3].label@ == "All time"@,
        buttons[at].selected <==> buttons[at].range == range,
{
    assert(buttons[0].range == Range::Today);
    assert(buttons[1].range == Range::Week);
    assert(buttons[2].range == Range::Month);
    assert(buttons[3].range == Range::All);
}

/// Dollars have as many places as their size asks for: none from a hundred
/// dollars on, two from one dollar on, and four below, and where there is no
/// number.
pub proof fn law_places_by_size(amount: Binary64)
    ensures
        ({
            let dollar = pow2(1074);
            &&& !amount.is_nan() && amount.value() >= 100 * dollar ==> usd_text(amount)
                == seq!['$'] + fixed(amount, 0)
            &&& !amount.is_nan() && dollar <= amount.value() < 100 * dollar ==> usd_text(amount)
                == seq!['$'] + fixed(amount, 2)
            &&& !amount.is_nan() && amount.value() < dollar ==> usd_text(amount) == seq!['$']
                + fixed(amount, 4)
            &&& amount.is_nan() ==> usd_text(amount) == seq!['$'] + fixed(amount, 4)
        }),
{
    law_counts_are_exact(100);
    law_counts_are_exact(1);
    assert(UNIT_EXPONENT as nat == 1074);
    assert(1 * pow2(1074) == pow2(1074));
}

/// A count of tokens is written in full below a thousand, in thousands to one
/// place below a million, and in millions to two places from there on.
pub proof fn law_tokens_are_shortened_by_size(tokens: nat)
    ensures
        tokens < 1_000 ==> tokens_text(tokens) == digits(tokens),
        1_000 <= tokens < 1_000_000 ==> tokens_text(tokens) == fixed(
            Binary64::from_count(tokens).over(1_000),
            1,
        ) + seq!['K'],
        tokens >= 1_000_000 ==> tokens_text(tokens) == fixed(
            Binary64::from_count(tokens).over(1_000_000),
            2,
        ) + seq!['M'],
{
    if 1_000 <= tokens < 1_000_000 {
        let text = fixed(Binary64::from_count(tokens).over(1_000), 1);
        assert(text.push('K') =~= text + seq!['K']);
    } else if tokens >= 1_000_000 {
        let text = fixed(Binary64::from_count(tokens).over(1_000_000), 2);
        assert(text.push('M') =~= text + seq!['M']);
    }
}

/// A summary fits the page exactly where its total, and the input of each row,
/// is less than 2^64.
pub proof fn law_counts_that_fit(summary: Summary)
    ensures
        summary.can_show() <==> {
            &&& summary.usage.input_tokens + summary.usage.output_tokens
                + summary.usage.cache_read_input_tokens
                + summary.usage.cache_creation_input_tokens < 0x1_0000_0000_0000_0000
            &&& forall|i: int|
                0 <= i < summary.rows@.len() ==> (#[trigger] summary.rows@[i]).usage.input_tokens
                    + summary.rows@[i].usage.cache_read_input_tokens
                    + summary.rows@[i].usage.cache_creation_input_tokens < 0x1_0000_0000_0000_0000
        },
{
}

/// What the reader and the loads do to the dashboard: history replaces the rows
/// and ends the loading, a choice of range changes the range, new prices change
/// neither, and each leaves totals of all rows in the range as it now is.
pub proof fn law_changes_of_the_dashboard(
    before: UsageDashboard,
    rows: Option<Vec<ThreadUsageRow>>,
    range: Range,
    today: i32,
    offsets: Seq<i32>,
    rates: Map<Seq<char>, Rate>,
    after: UsageDashboard,
)
    ensures
        UsageDashboard::loaded(before, rows, today, offsets, rates, after) ==> {
            &&& !after.loading
            &&& after.range == before.range
            &&& rows matches Some(found) ==> after.rows@ == found@
            &&& rows is None ==> after.rows@.len() == 0
            &&& after.summary.sums_up(
                picked(history(rows), offsets, before.range.first_day(today)),
                rates,
            )
        },
        UsageDashboard::selected(before, range, today, offsets, rates, after) ==> {
            &&& after.loading == before.loading
            &&& after.range == range
            &&& after.rows == before.rows
            &&& after.summary.sums_up(
                picked(before.rows@, offsets, range.first_day(today)),
                rates,
            )
        },
        UsageDashboard::recomputed(before, today, offsets, rates, after) ==> {
            &&& after.loading == before.loading
            &&& after.range == before.range
            &&& after.rows == before.rows
            &&& after.summary.sums_up(
                picked(before.rows@, offsets, before.range.first_day(today)),
                rates,
            )
        },
{
}

/// Choosing a range and the one before it again shows what was shown: the same
/// rows are summed up over the same days.
pub proof fn law_going_back_restores_the_totals(
    first: UsageDashboard,
    range: Range,
    second: UsageDashboard,
    third: UsageDashboard,
    today: i32,
    offsets: Seq<i32>,
    rates: Map<Seq<char>, Rate>,
)
    requires
        first.shows(today, offsets, rates),
        UsageDashboard::selected(first, range, today, offsets, rates, second),
        UsageDashboard::selected(second, first.range, today, offsets, rates, third),
    ensures
        third.range == first.range,
        third.rows == first.rows,
        third.summary.cost == first.summary.cost,
        third.summary.cache_savings == first.summary.cache_savings,
        third.summary.usage == first.summary.usage,
        third.summary.threads == first.summary.threads,
        third.summary.unpriced_models == first.summary.unpriced_models,
{
    crate::laws::summary::law_summary_is_determined(
        third.summary,
        first.summary,
        picked(first.rows@, offsets, first.range.first_day(today)),
        rates,
    );
}

} // verus!
