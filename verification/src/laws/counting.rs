//! Laws of counting: which threads count, and towards what.
use crate::calendar::is_local_time;
use crate::laws::summary::law_rows_are_in_order;
use crate::model_rate_table::looked_up;
use crate::rate::{Rate, TokenCount, TokenUsage};
use crate::usage_dashboard::{Range, UsageDashboard};
use crate::usage_summary::{
    can_sum_up, cost, group_of, groups, in_range, known, lemma_groups, lemma_push, of_group,
    picked, rows_view, savings, spend_of, spends, tokens, Group, Spend, Summary, ThreadUsageRow,
};
use vstd::prelude::*;

verus! {

/// Whether, by the clock of a reader `offset` seconds ahead of UTC, a thread was
/// last active when or after the day began that is `day` days after the last
/// one of the year before the year 1. January 1, 1970, is day 719163, and a day
/// has 86400 seconds.
pub open spec fn active_since(row: ThreadUsageRow, offset: i32, day: i32) -> bool {
    86_400 * (day - 719_163) <= row.updated_at + offset
}

/// A thread counts exactly where it was active, by the reader's own time, on the
/// first day or later, for every offset. Without a first day every thread
/// counts.
pub proof fn law_threads_count_by_local_day(row: ThreadUsageRow, offset: i32, day: i32)
    ensures
        in_range(row, offset, Some(day)) <==> active_since(row, offset, day),
        in_range(row, offset, Some(day)) <==> (row.updated_at + offset) / 86_400 + 719_163 >= day,
        in_range(row, offset, None),
{
    vstd::arithmetic::div_mod::lemma_fundamental_div_mod(row.updated_at + offset, 86_400);
}

/// Only the reader's own time decides: threads that were active at the same
/// local time count together, whatever their offsets.
pub proof fn law_local_time_decides(
    row: ThreadUsageRow,
    offset: i32,
    other: ThreadUsageRow,
    its: i32,
    since: Option<i32>,
)
    requires
        row.updated_at + offset == other.updated_at + its,
    ensures
        in_range(row, offset, since) == in_range(other, its, since),
{
}

/// A later thread never counts less than an earlier one.
pub proof fn law_later_threads_count_too(
    row: ThreadUsageRow,
    offset: i32,
    later: ThreadUsageRow,
    its: i32,
    since: Option<i32>,
)
    requires
        row.updated_at + offset <= later.updated_at + its,
        in_range(row, offset, since),
    ensures
        in_range(later, its, since),
{
    if since is Some {
        law_threads_count_by_local_day(row, offset, since->0);
        law_threads_count_by_local_day(later, its, since->0);
    }
}

/// Whether a thread counts.
pub open spec fn counts(row: ThreadUsageRow, offset: i32, since: Option<i32>) -> bool {
    since is None || active_since(row, offset, since->0)
}

/// One more thread is one more that counts, at the end, or changes nothing.
pub proof fn law_one_more_thread(
    rows: Seq<ThreadUsageRow>,
    row: ThreadUsageRow,
    offsets: Seq<i32>,
    since: Option<i32>,
)
    ensures
        picked(Seq::empty(), offsets, since).len() == 0,
        counts(row, offsets[rows.len() as int], since) ==> picked(rows.push(row), offsets, since)
            == picked(rows, offsets, since).push(row),
        !counts(row, offsets[rows.len() as int], since) ==> picked(rows.push(row), offsets, since)
            == picked(rows, offsets, since),
{
    assert(rows.push(row).drop_last() =~= rows);
    if since is Some {
        law_threads_count_by_local_day(row, offsets[rows.len() as int], since->0);
    }
}

/// What the threads that count come to, by one measure of a thread.
pub open spec fn total(
    rows: Seq<ThreadUsageRow>,
    offsets: Seq<i32>,
    since: Option<i32>,
    measure: spec_fn(ThreadUsageRow) -> nat,
) -> nat
    decreases rows.len(),
{
    if rows.len() == 0 {
        0
    } else {
        total(rows.drop_last(), offsets, since, measure) + (if counts(
            rows.last(),
            offsets[rows.len() - 1],
            since,
        ) {
            measure(rows.last())
        } else {
            0
        })
    }
}

proof fn lemma_totals(rows: Seq<ThreadUsageRow>, offsets: Seq<i32>, since: Option<i32>)
    ensures
        picked(rows, offsets, since).len() == total(rows, offsets, since, |row: ThreadUsageRow| 1),
        ({
            let sum = tokens(picked(rows, offsets, since));
            &&& sum.input == total(
                rows,
                offsets,
                since,
                |row: ThreadUsageRow| row.usage.input_tokens as nat,
            )
            &&& sum.output == total(
                rows,
                offsets,
                since,
                |row: ThreadUsageRow| row.usage.output_tokens as nat,
            )
            &&& sum.cache_read == total(
                rows,
                offsets,
                since,
                |row: ThreadUsageRow| row.usage.cache_read_input_tokens as nat,
            )
            &&& sum.cache_creation == total(
                rows,
                offsets,
                since,
                |row: ThreadUsageRow| row.usage.cache_creation_input_tokens as nat,
            )
        }),
    decreases rows.len(),
{
    if rows.len() > 0 {
        let before = rows.drop_last();
        lemma_totals(before, offsets, since);
        assert(before.push(rows.last()) =~= rows);
        law_one_more_thread(before, rows.last(), offsets, since);
        lemma_push(picked(before, offsets, since), rows.last());
    }
}

/// A summary counts every thread that was active in range by the reader's own
/// time, once, and its tokens, class by class.
pub proof fn law_summary_counts_what_is_in_range(
    summary: Summary,
    rows: Seq<ThreadUsageRow>,
    offsets: Seq<i32>,
    since: Option<i32>,
    rates: Map<Seq<char>, Rate>,
)
    requires
        summary.sums_up(picked(rows, offsets, since), rates),
    ensures
        summary.threads == total(rows, offsets, since, |row: ThreadUsageRow| 1),
        summary.usage.input_tokens == total(
            rows,
            offsets,
            since,
            |row: ThreadUsageRow| row.usage.input_tokens as nat,
        ),
        summary.usage.output_tokens == total(
            rows,
            offsets,
            since,
            |row: ThreadUsageRow| row.usage.output_tokens as nat,
        ),
        summary.usage.cache_read_input_tokens == total(
            rows,
            offsets,
            since,
            |row: ThreadUsageRow| row.usage.cache_read_input_tokens as nat,
        ),
        summary.usage.cache_creation_input_tokens == total(
            rows,
            offsets,
            since,
            |row: ThreadUsageRow| row.usage.cache_creation_input_tokens as nat,
        ),
{
    lemma_totals(rows, offsets, since);
}

/// The first of the one, seven or thirty days that end today.
pub open spec fn begin(range: Range, today: i32) -> Option<i32> {
    match range {
        Range::Today => Some(today),
        Range::Week => Some((today - 7 + 1) as i32),
        Range::Month => Some((today - 30 + 1) as i32),
        Range::All => None,
    }
}

/// The dashboard counts as many days as the range says, today among them: one,
/// seven or thirty, or all of history.
pub proof fn law_dashboard_counts_the_days_of_its_range(
    dashboard: UsageDashboard,
    today: i32,
    offsets: Seq<i32>,
    rates: Map<Seq<char>, Rate>,
)
    requires
        dashboard.shows(today, offsets, rates),
        dashboard.range.has_begin(today),
    ensures
        dashboard.summary.threads == total(
            dashboard.rows@,
            offsets,
            begin(dashboard.range, today),
            |row: ThreadUsageRow| 1,
        ),
{
    lemma_totals(dashboard.rows@, offsets, dashboard.range.first_day(today));
}

/// A local time can be shown exactly where the offset is less than a day and the
/// moment lies, by UTC and by local time, from January 1 of the year -262143 to
/// December 31 of the year 262142.
pub proof fn law_times_that_can_be_shown(seconds: i64, offset: i32)
    ensures
        is_local_time(seconds, offset) <==> {
            &&& -86_400 < offset < 86_400
            &&& -8_334_601_228_800 <= seconds < 8_210_266_876_800
            &&& -8_334_601_228_800 <= seconds + offset < 8_210_266_876_800
        },
{
}

/// Threads of any ordinary time can be summed up, as long as each class of
/// tokens that counts comes to less than 2^64. A range without a first day needs
/// no times at all.
pub proof fn law_ordinary_threads_can_be_summed_up(
    rows: Seq<ThreadUsageRow>,
    offsets: Seq<i32>,
    since: Option<i32>,
)
    requires
        since is Some ==> offsets.len() == rows.len() && forall|i: int|
            0 <= i < rows.len() ==> {
                &&& -8_200_000_000_000 <= (#[trigger] rows[i]).updated_at <= 8_200_000_000_000
                &&& -86_400 < offsets[i] < 86_400
            },
        total(rows, offsets, since, |row: ThreadUsageRow| row.usage.input_tokens as nat)
            < 0x1_0000_0000_0000_0000,
        total(rows, offsets, since, |row: ThreadUsageRow| row.usage.output_tokens as nat)
            < 0x1_0000_0000_0000_0000,
        total(
            rows,
            offsets,
            since,
            |row: ThreadUsageRow| row.usage.cache_read_input_tokens as nat,
        ) < 0x1_0000_0000_0000_0000,
        total(
            rows,
            offsets,
            since,
            |row: ThreadUsageRow| row.usage.cache_creation_input_tokens as nat,
        ) < 0x1_0000_0000_0000_0000,
    ensures
        can_sum_up(rows, offsets, since),
{
    lemma_totals(rows, offsets, since);
}

/// A thread counts under the provider and the model that were recorded, each
/// replaced by `unknown` where none was.
pub proof fn law_threads_count_under_their_names(row: ThreadUsageRow)
    ensures
        row.provider_id matches Some(name) ==> group_of(row).provider == name@,
        row.model_id matches Some(name) ==> group_of(row).model == name@,
        row.provider_id is None ==> group_of(row).provider == "unknown"@,
        row.model_id is None ==> group_of(row).model == "unknown"@,
        known(row.model_id) == group_of(row).model,
{
}

/// A thread changes the spend of its own group alone: there it is one thread
/// more, with its tokens, and where a rate is known with its cost and savings.
pub proof fn law_a_thread_changes_its_own_group(
    rows: Seq<ThreadUsageRow>,
    row: ThreadUsageRow,
    group: Group,
    rates: Map<Seq<char>, Rate>,
)
    ensures
        group_of(row) != group ==> spend_of(rows.push(row), group, rates) == spend_of(
            rows,
            group,
            rates,
        ),
        group_of(row) == group ==> {
            let before = spend_of(rows, group, rates);
            let after = spend_of(rows.push(row), group, rates);
            &&& after.group == group
            &&& after.threads == before.threads + 1
            &&& after.usage.input == before.usage.input + row.usage.input_tokens
            &&& after.usage.output == before.usage.output + row.usage.output_tokens
            &&& after.usage.cache_read == before.usage.cache_read
                + row.usage.cache_read_input_tokens
            &&& after.usage.cache_creation == before.usage.cache_creation
                + row.usage.cache_creation_input_tokens
            &&& looked_up(rates, group.model) is None ==> after.cost is None
                && after.cache_savings == before.cache_savings
            &&& looked_up(rates, group.model) matches Some(rate) ==> after.cost == Some(
                before.cost->0.plus(rate.cost_of(row.usage)),
            ) && before.cost is Some && after.cache_savings == before.cache_savings.plus(
                rate.savings_of(row.usage),
            )
        },
{
    lemma_push(rows, row);
    lemma_push(of_group(rows, group), row);
}

/// Nothing has been spent on a group without threads: no tokens, no threads,
/// and where a rate is known a cost of nothing.
pub proof fn law_nothing_is_spent_without_threads(group: Group, rates: Map<Seq<char>, Rate>)
    ensures
        ({
            let spend = spend_of(Seq::empty(), group, rates);
            &&& spend.threads == 0
            &&& spend.usage.input == 0
            &&& spend.usage.output == 0
            &&& spend.usage.cache_read == 0
            &&& spend.usage.cache_creation == 0
            &&& spend.cache_savings.bits == 0
            &&& spend.cost is Some <==> looked_up(rates, group.model) is Some
            &&& spend.cost matches Some(amount) ==> amount.bits == 0
        }),
{
}

/// A thread adds its own cost and savings to the totals, at the rate of its own
/// model, and none where there is no rate.
pub proof fn law_a_thread_adds_its_cost(
    rows: Seq<ThreadUsageRow>,
    row: ThreadUsageRow,
    rates: Map<Seq<char>, Rate>,
)
    ensures
        cost(Seq::empty(), rates).bits == 0,
        savings(Seq::empty(), rates).bits == 0,
        looked_up(rates, group_of(row).model) matches Some(rate) ==> {
            &&& cost(rows.push(row), rates) == cost(rows, rates).plus(rate.cost_of(row.usage))
            &&& savings(rows.push(row), rates) == savings(rows, rates).plus(
                rate.savings_of(row.usage),
            )
        },
        looked_up(rates, group_of(row).model) is None ==> {
            &&& cost(rows.push(row), rates) == cost(rows, rates)
            &&& savings(rows.push(row), rates) == savings(rows, rates)
        },
{
    lemma_push(rows, row);
}

proof fn lemma_group_has_thread(rows: Seq<ThreadUsageRow>, group: Group)
    requires
        groups(rows).contains(group),
    ensures
        exists|i: int| 0 <= i < rows.len() && group_of(#[trigger] rows[i]) == group,
    decreases rows.len(),
{
    if rows.len() > 0 {
        let before = rows.drop_last();
        if group_of(rows.last()) == group {
            assert(group_of(rows[rows.len() - 1]) == group);
        } else {
            let at = choose|at: int| 0 <= at < groups(rows).len() && groups(rows)[at] == group;
            assert(groups(before)[at] == group);
            lemma_group_has_thread(before, group);
            let i = choose|i: int|
                0 <= i < before.len() && group_of(#[trigger] before[i]) == group;
            assert(group_of(rows[i]) == group);
        }
    }
}

/// There is a group exactly where there is a thread of it, and it stands once.
pub proof fn law_groups_are_those_of_the_threads(rows: Seq<ThreadUsageRow>, group: Group)
    ensures
        groups(rows).contains(group) <==> exists|i: int|
            0 <= i < rows.len() && group_of(#[trigger] rows[i]) == group,
        groups(rows).no_duplicates(),
{
    lemma_groups(rows);
    if groups(rows).contains(group) {
        lemma_group_has_thread(rows, group);
    }
    if exists|i: int| 0 <= i < rows.len() && group_of(#[trigger] rows[i]) == group {
        let i = choose|i: int| 0 <= i < rows.len() && group_of(#[trigger] rows[i]) == group;
        crate::laws::summary::lemma_has_group(rows, i);
    }
}

/// Of two rows that cost the same, or of two without a cost, the one with more
/// tokens stands above, all four classes counted.
pub proof fn law_more_tokens_stand_above(
    summary: Summary,
    rows: Seq<ThreadUsageRow>,
    rates: Map<Seq<char>, Rate>,
    above: int,
    below: int,
)
    requires
        summary.sums_up(rows, rates),
        0 <= above < below < summary.rows@.len(),
        summary.rows@[above].cost == summary.rows@[below].cost,
    ensures
        ({
            let more = summary.rows@[above].usage;
            let less = summary.rows@[below].usage;
            more.input_tokens + more.output_tokens + more.cache_read_input_tokens
                + more.cache_creation_input_tokens >= less.input_tokens + less.output_tokens
                + less.cache_read_input_tokens + less.cache_creation_input_tokens
        }),
{
    law_rows_are_in_order(spends(rows, rates));
    let all = rows_view(summary.rows@);
    assert(all[above] == summary.rows@[above]@);
    assert(all[below] == summary.rows@[below]@);
    assert(!all[below].precedes(all[above]));
}

/// The order of two rows is decided by their costs and their tokens: one with a
/// cost precedes one without; of two costs the one that is the greater number
/// precedes, and of one and the same cost, or of none, the greater count of
/// tokens. No row precedes one that precedes it.
pub proof fn law_what_precedes(one: Spend, other: Spend)
    ensures
        one.cost is Some && other.cost is None ==> one.precedes(other),
        one.cost is Some && other.cost is Some && one.cost->0.at_least(other.cost->0)
            && !other.cost->0.at_least(one.cost->0) ==> one.precedes(other),
        one.cost == other.cost && one.usage.input + one.usage.output + one.usage.cache_read
            + one.usage.cache_creation > other.usage.input + other.usage.output
            + other.usage.cache_read + other.usage.cache_creation ==> one.precedes(other),
        one.precedes(other) ==> !other.precedes(one),
        one.cost == other.cost && one.usage.input + one.usage.output + one.usage.cache_read
            + one.usage.cache_creation == other.usage.input + other.usage.output
            + other.usage.cache_read + other.usage.cache_creation ==> !one.precedes(other),
{
    if one.cost is Some && other.cost is Some {
        let own = one.cost->0;
        let its = other.cost->0;
        if own.magnitude() <= its.magnitude() {
            crate::rounding::lemma_units_monotone(own.magnitude(), its.magnitude());
        } else {
            crate::rounding::lemma_units_monotone(its.magnitude(), own.magnitude());
        }
    }
}

/// Counts of tokens add up class by class, and a total is that of all four.
pub proof fn law_tokens_add_up(count: TokenCount, usage: TokenUsage)
    ensures
        count.plus(usage).input == count.input + usage.input_tokens,
        count.plus(usage).output == count.output + usage.output_tokens,
        count.plus(usage).cache_read == count.cache_read + usage.cache_read_input_tokens,
        count.plus(usage).cache_creation == count.cache_creation
            + usage.cache_creation_input_tokens,
        usage@.input == usage.input_tokens,
        usage@.output == usage.output_tokens,
        usage@.cache_read == usage.cache_read_input_tokens,
        usage@.cache_creation == usage.cache_creation_input_tokens,
        usage.total() == usage@.input + usage@.output + usage@.cache_read + usage@.cache_creation,
        count.fits() <==> count.input < 0x1_0000_0000_0000_0000 && count.output
            < 0x1_0000_0000_0000_0000 && count.cache_read < 0x1_0000_0000_0000_0000
            && count.cache_creation < 0x1_0000_0000_0000_0000,
{
}

/// Two summaries, one of a thread more: it has one thread more, the tokens of it
/// more, and where a rate is known for its model its cost and savings more.
pub proof fn law_summaries_of_one_more_thread(
    before: Summary,
    after: Summary,
    rows: Seq<ThreadUsageRow>,
    row: ThreadUsageRow,
    rates: Map<Seq<char>, Rate>,
)
    requires
        before.sums_up(rows, rates),
        after.sums_up(rows.push(row), rates),
    ensures
        after.threads == before.threads + 1,
        after.usage.input_tokens == before.usage.input_tokens + row.usage.input_tokens,
        after.usage.output_tokens == before.usage.output_tokens + row.usage.output_tokens,
        after.usage.cache_read_input_tokens == before.usage.cache_read_input_tokens
            + row.usage.cache_read_input_tokens,
        after.usage.cache_creation_input_tokens == before.usage.cache_creation_input_tokens
            + row.usage.cache_creation_input_tokens,
        looked_up(rates, group_of(row).model) matches Some(rate) ==> {
            &&& after.cost == before.cost.plus(rate.cost_of(row.usage))
            &&& after.cache_savings == before.cache_savings.plus(rate.savings_of(row.usage))
        },
        looked_up(rates, group_of(row).model) is None ==> {
            &&& after.cost == before.cost
            &&& after.cache_savings == before.cache_savings
        },
        (exists|i: int| 0 <= i < rows.len() && group_of(#[trigger] rows[i]) == group_of(row))
            ==> after.rows@.len() == before.rows@.len() && after.unpriced_models
            == before.unpriced_models,
        !(exists|i: int| 0 <= i < rows.len() && group_of(#[trigger] rows[i]) == group_of(row))
            ==> {
            &&& after.rows@.len() == before.rows@.len() + 1
            &&& looked_up(rates, group_of(row).model) is Some ==> after.unpriced_models
                == before.unpriced_models
            &&& looked_up(rates, group_of(row).model) is None ==> after.unpriced_models
                == before.unpriced_models + 1
        },
{
    lemma_push(rows, row);
    law_groups_are_those_of_the_threads(rows, group_of(row));
    crate::laws::summary::law_every_row_has_its_own_group(before, rows, rates);
    crate::laws::summary::law_every_row_has_its_own_group(after, rows.push(row), rates);
    assert(before.usage@ == tokens(rows));
    assert(after.usage@ == tokens(rows.push(row)));
    if !groups(rows).contains(group_of(row)) {
        assert(groups(rows.push(row)).drop_last() =~= groups(rows));
    }
}

/// A summary of nothing is nothing.
pub proof fn law_summaries_of_nothing(summary: Summary, rates: Map<Seq<char>, Rate>)
    requires
        summary.sums_up(Seq::empty(), rates),
    ensures
        summary.rows@.len() == 0,
        summary.threads == 0,
        summary.unpriced_models == 0,
        summary.cost.bits == 0,
        summary.cache_savings.bits == 0,
        summary.usage.total() == 0,
{
    let none = Seq::<ThreadUsageRow>::empty();
    crate::laws::summary::law_every_row_has_its_own_group(summary, none, rates);
    assert(groups(none).len() == 0);
    assert(summary.usage@ == tokens(none));
}

/// The threads of a group are those of its names, in their order: one more thread
/// is one more of its own group, and of no other.
pub proof fn law_threads_of_a_group(
    rows: Seq<ThreadUsageRow>,
    row: ThreadUsageRow,
    group: Group,
)
    ensures
        of_group(Seq::empty(), group).len() == 0,
        group_of(row) == group ==> of_group(rows.push(row), group) == of_group(rows, group).push(
            row,
        ),
        group_of(row) != group ==> of_group(rows.push(row), group) == of_group(rows, group),
{
    lemma_push(rows, row);
}

/// A row of a summary holds the figures of the threads of its names, and of no
/// others: how many they are, their tokens, and their cost and savings added up
/// in their order.
pub proof fn law_rows_hold_the_figures_of_their_group(
    summary: Summary,
    rows: Seq<ThreadUsageRow>,
    rates: Map<Seq<char>, Rate>,
    at: int,
)
    requires
        summary.sums_up(rows, rates),
        0 <= at < summary.rows@.len(),
    ensures
        ({
            let row = summary.rows@[at];
            let own = of_group(
                rows,
                Group { provider: row.provider_id@, model: row.model_id@ },
            );
            &&& own.len() > 0
            &&& row.threads == own.len()
            &&& row.usage.input_tokens == tokens(own).input
            &&& row.usage.output_tokens == tokens(own).output
            &&& row.usage.cache_read_input_tokens == tokens(own).cache_read
            &&& row.usage.cache_creation_input_tokens == tokens(own).cache_creation
            &&& row.cost is Some <==> looked_up(rates, row.model_id@) is Some
            &&& row.cost matches Some(amount) ==> amount == cost(own, rates)
            &&& row.cache_savings == savings(own, rates)
        }),
{
    crate::laws::summary::law_every_row_has_its_own_group(summary, rows, rates);
    let row = summary.rows@[at];
    let group = Group { provider: row.provider_id@, model: row.model_id@ };
    assert(row@.group == group);
    assert(row@ == spend_of(rows, group, rates));
    assert(row.usage@ == tokens(of_group(rows, group)));
    lemma_group_has_thread(rows, group);
    let i = choose|i: int| 0 <= i < rows.len() && group_of(#[trigger] rows[i]) == group;
    lemma_group_is_not_empty(rows, i);
}

proof fn lemma_group_is_not_empty(rows: Seq<ThreadUsageRow>, at: int)
    requires
        0 <= at < rows.len(),
    ensures
        of_group(rows, group_of(rows[at])).len() > 0,
    decreases rows.len(),
{
    if at < rows.len() - 1 {
        assert(rows.drop_last()[at] == rows[at]);
        lemma_group_is_not_empty(rows.drop_last(), at);
    }
}

} // verus!
