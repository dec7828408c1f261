//! Laws of the summary: what the rows say together, and in which order.
use crate::laws::arithmetic::{is_amount, law_amounts_add_up, law_costs_are_not_negative};
use crate::laws::rates::is_usable_rate;
use crate::model_rate_table::looked_up;
use crate::rate::{Rate, TokenCount};
use crate::rounding::lemma_units_monotone;
use crate::usage_dashboard::Range;
use crate::usage_summary::{
    cost, group_of, groups, in_range, known, lemma_groups, lemma_push, of_group, picked, placed,
    ranked, rows_view, savings, spend_of, spends, tokens, unpriced, within, Group, Spend, Summary,
    ThreadUsageRow,
};
use vstd::prelude::*;

verus! {

/// Two counts, class by class.
pub open spec fn together(one: TokenCount, other: TokenCount) -> TokenCount {
    TokenCount {
        input: one.input + other.input,
        output: one.output + other.output,
        cache_creation: one.cache_creation + other.cache_creation,
        cache_read: one.cache_read + other.cache_read,
    }
}

/// The tokens of all rows.
pub open spec fn tokens_of(rows: Seq<Spend>) -> TokenCount
    decreases rows.len(),
{
    if rows.len() == 0 {
        TokenCount::none()
    } else {
        together(tokens_of(rows.drop_last()), rows.last().usage)
    }
}

/// The threads of all rows.
pub open spec fn threads_of(rows: Seq<Spend>) -> nat
    decreases rows.len(),
{
    if rows.len() == 0 {
        0
    } else {
        threads_of(rows.drop_last()) + rows.last().threads
    }
}

/// How many rows have no cost.
pub open spec fn costless(rows: Seq<Spend>) -> nat
    decreases rows.len(),
{
    if rows.len() == 0 {
        0
    } else {
        costless(rows.drop_last()) + (if rows.last().cost is None {
            1nat
        } else {
            0nat
        })
    }
}

/// One more row.
proof fn lemma_one_more(rows: Seq<Spend>, row: Spend)
    ensures
        tokens_of(rows.push(row)) == together(tokens_of(rows), row.usage),
        threads_of(rows.push(row)) == threads_of(rows) + row.threads,
        costless(rows.push(row)) == costless(rows) + (if row.cost is None {
            1nat
        } else {
            0nat
        }),
{
    assert(rows.push(row).drop_last() =~= rows);
}

/// One row changed.
proof fn lemma_one_changed(rows: Seq<Spend>, at: int, row: Spend)
    requires
        0 <= at < rows.len(),
    ensures
        together(tokens_of(rows.update(at, row)), rows[at].usage) == together(
            tokens_of(rows),
            row.usage,
        ),
        threads_of(rows.update(at, row)) + rows[at].threads == threads_of(rows) + row.threads,
    decreases rows.len(),
{
    let changed = rows.update(at, row);
    if at == rows.len() - 1 {
        assert(changed.drop_last() =~= rows.drop_last());
    } else {
        lemma_one_changed(rows.drop_last(), at, row);
        assert(changed.drop_last() =~= rows.drop_last().update(at, row));
    }
}

/// A row in its place counts as one more, and is the only one added.
proof fn lemma_placed(ordered: Seq<Spend>, spend: Spend)
    ensures
        tokens_of(placed(ordered, spend)) == together(tokens_of(ordered), spend.usage),
        threads_of(placed(ordered, spend)) == threads_of(ordered) + spend.threads,
        costless(placed(ordered, spend)) == costless(ordered) + (if spend.cost is None {
            1nat
        } else {
            0nat
        }),
        placed(ordered, spend).to_multiset() == ordered.to_multiset().insert(spend),
        placed(ordered, spend).len() == ordered.len() + 1,
    decreases ordered.len(),
{
    broadcast use vstd::seq_lib::group_to_multiset_ensures;

    if ordered.len() > 0 && spend.precedes(ordered.last()) {
        let less = ordered.drop_last();
        lemma_placed(less, spend);
        lemma_one_more(placed(less, spend), ordered.last());
        lemma_one_more(less, ordered.last());
        assert(less.push(ordered.last()) =~= ordered);
        assert(less.to_multiset().insert(ordered.last()).insert(spend)
            =~= less.to_multiset().insert(spend).insert(ordered.last()));
    } else {
        lemma_one_more(ordered, spend);
    }
}

/// Ranking keeps every row, and each as often as it was there.
pub proof fn law_ranking_keeps_all_rows(rows: Seq<Spend>)
    ensures
        ranked(rows).to_multiset() == rows.to_multiset(),
        tokens_of(ranked(rows)) == tokens_of(rows),
        threads_of(ranked(rows)) == threads_of(rows),
        costless(ranked(rows)) == costless(rows),
        ranked(rows).len() == rows.len(),
    decreases rows.len(),
{
    broadcast use vstd::seq_lib::group_to_multiset_ensures;

    if rows.len() > 0 {
        let less = rows.drop_last();
        law_ranking_keeps_all_rows(less);
        lemma_placed(ranked(less), rows.last());
        lemma_one_more(less, rows.last());
        assert(less.push(rows.last()) =~= rows);
    } else {
        assert(rows =~= Seq::empty());
    }
}

/// Whether no row precedes one that stands before it.
pub open spec fn in_order(rows: Seq<Spend>) -> bool {
    forall|i: int, j: int|
        0 <= i < j < rows.len() ==> !(#[trigger] rows[j]).precedes(#[trigger] rows[i])
}

proof fn lemma_placed_in_order(ordered: Seq<Spend>, spend: Spend)
    requires
        in_order(ordered),
    ensures
        in_order(placed(ordered, spend)),
        forall|i: int|
            0 <= i < placed(ordered, spend).len() ==> (#[trigger] placed(ordered, spend)[i])
                == spend || ordered.contains(placed(ordered, spend)[i]),
    decreases ordered.len(),
{
    let result = placed(ordered, spend);
    if ordered.len() > 0 && spend.precedes(ordered.last()) {
        let less = ordered.drop_last();
        let last = ordered.last();
        lemma_placed_in_order(less, spend);
        assert forall|i: int| 0 <= i < result.len() implies (#[trigger] result[i]) == spend
            || ordered.contains(result[i]) by {
            if i < placed(less, spend).len() {
                assert(result[i] == placed(less, spend)[i]);
                if less.contains(result[i]) {
                    let k = choose|k: int| 0 <= k < less.len() && less[k] == result[i];
                    assert(ordered[k] == result[i]);
                }
            } else {
                assert(ordered[ordered.len() - 1] == result[i]);
            }
        }
        assert forall|i: int, j: int| 0 <= i < j < result.len() implies !(
        #[trigger] result[j]).precedes(#[trigger] result[i]) by {
            assert(result[i] == placed(less, spend)[i]);
            if j < placed(less, spend).len() {
                assert(result[j] == placed(less, spend)[j]);
            } else if result[i] != spend {
                assert(less.contains(result[i]));
                let k = choose|k: int| 0 <= k < less.len() && less[k] == result[i];
                assert(ordered[k] == result[i]);
                assert(ordered[ordered.len() - 1] == last);
            }
        }
    } else {
        assert forall|i: int| 0 <= i < result.len() implies (#[trigger] result[i]) == spend
            || ordered.contains(result[i]) by {
            if i < ordered.len() {
                assert(ordered[i] == result[i]);
            }
        }
        assert forall|i: int, j: int| 0 <= i < j < result.len() implies !(
        #[trigger] result[j]).precedes(#[trigger] result[i]) by {
            assert(result[i] == ordered[i]);
            if j < ordered.len() {
                assert(result[j] == ordered[j]);
            } else {
                assert(!ordered.last().precedes(ordered[i]) || i == ordered.len() - 1);
            }
        }
    }
}

/// The rows come in order: the most expensive first, and among equal ones those
/// with more tokens.
pub proof fn law_rows_are_in_order(rows: Seq<Spend>)
    ensures
        in_order(ranked(rows)),
    decreases rows.len(),
{
    if rows.len() > 0 {
        law_rows_are_in_order(rows.drop_last());
        lemma_placed_in_order(ranked(rows.drop_last()), rows.last());
    }
}

/// The spends of all groups account for every token and every thread, once.
pub proof fn law_groups_add_up(rows: Seq<ThreadUsageRow>, rates: Map<Seq<char>, Rate>)
    ensures
        tokens_of(spends(rows, rates)) == tokens(rows),
        threads_of(spends(rows, rates)) == rows.len(),
    decreases rows.len(),
{
    if rows.len() == 0 {
        assert(spends(rows, rates) =~= Seq::empty());
    } else {
        let before = rows.drop_last();
        let row = rows.last();
        let group = group_of(row);
        law_groups_add_up(before, rates);
        lemma_groups(before);
        lemma_push(before, row);
        lemma_push(of_group(before, group), row);
        assert(before.push(row) =~= rows);
        if groups(before).contains(group) {
            let at = choose|at: int| 0 <= at < groups(before).len() && groups(before)[at] == group;
            let changed = spends(before, rates).update(at, spend_of(rows, group, rates));
            lemma_one_changed(spends(before, rates), at, spend_of(rows, group, rates));
            assert forall|i: int| 0 <= i < changed.len() implies #[trigger] changed[i] == spends(
                rows,
                rates,
            )[i] by {
                if i != at {
                    assert(groups(before)[i] != group);
                }
            }
            assert(spends(rows, rates) =~= changed);
        } else {
            let more = spends(before, rates).push(spend_of(rows, group, rates));
            lemma_one_more(spends(before, rates), spend_of(rows, group, rates));
            assert forall|i: int| 0 <= i < more.len() implies #[trigger] more[i] == spends(
                rows,
                rates,
            )[i] by {
                if i < groups(before).len() {
                    assert(groups(before).contains(groups(before)[i]));
                }
            }
            assert(spends(rows, rates) =~= more);
        }
    }
}

proof fn lemma_costless(rows: Seq<ThreadUsageRow>, some: Seq<Group>, rates: Map<Seq<char>, Rate>)
    ensures
        costless(some.map_values(|group: Group| spend_of(rows, group, rates))) == unpriced(
            some,
            rates,
        ),
    decreases some.len(),
{
    let all = some.map_values(|group: Group| spend_of(rows, group, rates));
    if some.len() > 0 {
        let less = some.drop_last();
        lemma_costless(rows, less, rates);
        assert(all.drop_last() =~= less.map_values(|group: Group| spend_of(rows, group, rates)));
    }
}

/// The rows of a summary account for its totals: every token and every thread
/// stands in one row, and as many rows have no cost as the summary says.
pub proof fn law_rows_add_up(
    summary: Summary,
    rows: Seq<ThreadUsageRow>,
    rates: Map<Seq<char>, Rate>,
)
    requires
        summary.sums_up(rows, rates),
    ensures
        tokens_of(rows_view(summary.rows@)) == summary.usage@,
        threads_of(rows_view(summary.rows@)) == summary.threads,
        costless(rows_view(summary.rows@)) == summary.unpriced_models,
{
    law_ranking_keeps_all_rows(spends(rows, rates));
    law_groups_add_up(rows, rates);
    lemma_costless(rows, groups(rows), rates);
}

/// What is in one of two sequences with the same items is in the other.
proof fn lemma_same_items(one: Seq<Spend>, other: Seq<Spend>, at: int)
    requires
        one.to_multiset() == other.to_multiset(),
        0 <= at < one.len(),
    ensures
        exists|i: int| 0 <= i < other.len() && #[trigger] other[i] == one[at],
{
    broadcast use vstd::seq_lib::group_to_multiset_ensures;

    assert(one.contains(one[at]));
    assert(one.to_multiset().count(one[at]) > 0);
    assert(other.contains(one[at]));
}

pub proof fn lemma_has_group(rows: Seq<ThreadUsageRow>, at: int)
    requires
        0 <= at < rows.len(),
    ensures
        groups(rows).contains(group_of(rows[at])),
    decreases rows.len(),
{
    let before = rows.drop_last();
    if at == rows.len() - 1 {
        if !groups(before).contains(group_of(rows[at])) {
            assert(groups(rows)[groups(before).len() as int] == group_of(rows[at]));
        }
    } else {
        lemma_has_group(before, at);
        assert(before[at] == rows[at]);
        let i = choose|i: int|
            0 <= i < groups(before).len() && groups(before)[i] == group_of(rows[at]);
        assert(groups(rows)[i] == group_of(rows[at]));
    }
}

/// Every thread has a row, that of its group.
pub proof fn law_every_thread_has_a_row(
    summary: Summary,
    rows: Seq<ThreadUsageRow>,
    rates: Map<Seq<char>, Rate>,
    thread: int,
)
    requires
        summary.sums_up(rows, rates),
        0 <= thread < rows.len(),
    ensures
        exists|i: int|
            0 <= i < summary.rows@.len() && (#[trigger] summary.rows@[i])@ == spend_of(
                rows,
                group_of(rows[thread]),
                rates,
            ),
{
    let all = spends(rows, rates);
    lemma_has_group(rows, thread);
    let at = choose|at: int|
        0 <= at < groups(rows).len() && groups(rows)[at] == group_of(rows[thread]);
    law_ranking_keeps_all_rows(all);
    lemma_same_items(all, ranked(all), at);
    let i = choose|i: int| 0 <= i < ranked(all).len() && #[trigger] ranked(all)[i] == all[at];
    assert(rows_view(summary.rows@)[i] == summary.rows@[i]@);
}

/// Every row is that of one group, and no group has two.
pub proof fn law_every_row_has_its_own_group(
    summary: Summary,
    rows: Seq<ThreadUsageRow>,
    rates: Map<Seq<char>, Rate>,
)
    requires
        summary.sums_up(rows, rates),
    ensures
        summary.rows@.len() == groups(rows).len(),
        groups(rows).no_duplicates(),
        forall|i: int|
            0 <= i < summary.rows@.len() ==> {
                &&& groups(rows).contains((#[trigger] summary.rows@[i])@.group)
                &&& summary.rows@[i]@ == spend_of(rows, summary.rows@[i]@.group, rates)
            },
{
    let all = spends(rows, rates);
    lemma_groups(rows);
    law_ranking_keeps_all_rows(all);
    assert(rows_view(summary.rows@).len() == summary.rows@.len());
    assert forall|i: int| 0 <= i < summary.rows@.len() implies {
        &&& groups(rows).contains((#[trigger] summary.rows@[i])@.group)
        &&& summary.rows@[i]@ == spend_of(rows, summary.rows@[i]@.group, rates)
    } by {
        assert(rows_view(summary.rows@)[i] == summary.rows@[i]@);
        lemma_same_items(ranked(all), all, i);
        let at = choose|at: int| 0 <= at < all.len() && #[trigger] all[at] == ranked(all)[i];
        assert(all[at] == spend_of(rows, groups(rows)[at], rates));
        assert(groups(rows)[at] == summary.rows@[i]@.group);
    }
}

/// A model that no rate covers is unpriced rather than free, and keeps its
/// tokens; one that a rate covers has a cost.
pub proof fn law_unpriced_is_not_free(
    summary: Summary,
    rows: Seq<ThreadUsageRow>,
    rates: Map<Seq<char>, Rate>,
    at: int,
)
    requires
        summary.sums_up(rows, rates),
        0 <= at < summary.rows@.len(),
    ensures
        summary.rows@[at].cost is None <==> looked_up(rates, summary.rows@[at].model_id@) is None,
        summary.rows@[at].usage@ == tokens(of_group(rows, summary.rows@[at]@.group)),
{
    law_every_row_has_its_own_group(summary, rows, rates);
    assert(summary.rows@[at]@ == spend_of(rows, summary.rows@[at]@.group, rates));
}

/// The threads whose model has a rate.
pub open spec fn priced(rows: Seq<ThreadUsageRow>, rates: Map<Seq<char>, Rate>) -> Seq<
    ThreadUsageRow,
>
    decreases rows.len(),
{
    if rows.len() == 0 {
        Seq::empty()
    } else {
        let before = priced(rows.drop_last(), rates);
        if looked_up(rates, known(rows.last().model_id)) is Some {
            before.push(rows.last())
        } else {
            before
        }
    }
}

/// The cost and the savings are those of the threads that have a rate: the
/// others are left out, not guessed.
pub proof fn law_cost_leaves_out_the_unpriced(
    rows: Seq<ThreadUsageRow>,
    rates: Map<Seq<char>, Rate>,
)
    ensures
        cost(rows, rates) == cost(priced(rows, rates), rates),
        savings(rows, rates) == savings(priced(rows, rates), rates),
    decreases rows.len(),
{
    if rows.len() > 0 {
        let before = rows.drop_last();
        law_cost_leaves_out_the_unpriced(before, rates);
        lemma_push(priced(before, rates), rows.last());
    }
}

/// Whether every rate is made of finite prices that are not negative.
pub open spec fn all_usable(rates: Map<Seq<char>, Rate>) -> bool {
    forall|name: Seq<char>| #[trigger] rates.contains_key(name) ==> is_usable_rate(rates[name])
}

/// At prices that are finite and not negative, the spend is not negative.
pub proof fn law_spend_is_not_negative(rows: Seq<ThreadUsageRow>, rates: Map<Seq<char>, Rate>)
    requires
        all_usable(rates),
    ensures
        is_amount(cost(rows, rates)),
    decreases rows.len(),
{
    if rows.len() > 0 {
        let before = rows.drop_last();
        law_spend_is_not_negative(before, rates);
        match looked_up(rates, known(rows.last().model_id)) {
            Some(rate) => {
                law_costs_are_not_negative(rate, rows.last().usage);
                law_amounts_add_up(cost(before, rates), rate.cost_of(rows.last().usage));
            },
            None => {},
        }
    }
}

/// The rows without a cost come last, whatever the others cost, and among them
/// those with more tokens come first.
pub proof fn law_unpriced_rows_come_last(
    summary: Summary,
    rows: Seq<ThreadUsageRow>,
    rates: Map<Seq<char>, Rate>,
    above: int,
    below: int,
)
    requires
        summary.sums_up(rows, rates),
        0 <= above < below < summary.rows@.len(),
        summary.rows@[above].cost is None,
    ensures
        summary.rows@[below].cost is None,
        summary.rows@[above].usage.total() >= summary.rows@[below].usage.total(),
{
    law_rows_are_in_order(spends(rows, rates));
    let all = rows_view(summary.rows@);
    assert(all[above] == summary.rows@[above]@);
    assert(all[below] == summary.rows@[below]@);
    assert(!all[below].precedes(all[above]));
}

/// Above a row with a cost stand only rows with a cost, and none that costs
/// less, as far as both costs are numbers.
pub proof fn law_most_expensive_first(
    summary: Summary,
    rows: Seq<ThreadUsageRow>,
    rates: Map<Seq<char>, Rate>,
    above: int,
    below: int,
)
    requires
        summary.sums_up(rows, rates),
        0 <= above < below < summary.rows@.len(),
        summary.rows@[below].cost is Some,
    ensures
        summary.rows@[above].cost is Some,
        ({
            let more = summary.rows@[above].cost->0;
            let less = summary.rows@[below].cost->0;
            !more.is_nan() && !less.is_nan() ==> more.at_least(less)
        }),
{
    law_rows_are_in_order(spends(rows, rates));
    let all = rows_view(summary.rows@);
    assert(all[above] == summary.rows@[above]@);
    assert(all[below] == summary.rows@[below]@);
    assert(!all[below].precedes(all[above]));
    let more = summary.rows@[above].cost->0;
    let less = summary.rows@[below].cost->0;
    assert(more.rank() >= less.rank());
    if more.magnitude() <= less.magnitude() {
        lemma_units_monotone(more.magnitude(), less.magnitude());
    } else {
        lemma_units_monotone(less.magnitude(), more.magnitude());
    }
}

/// Without a first day all of history counts.
pub proof fn law_all_time_is_everything(rows: Seq<ThreadUsageRow>, offsets: Seq<i32>, today: i32)
    ensures
        picked(rows, offsets, Range::All.first_day(today)) == rows,
    decreases rows.len(),
{
    if rows.len() > 0 {
        law_all_time_is_everything(rows.drop_last(), offsets, today);
        assert(rows.drop_last().push(rows.last()) =~= rows);
    } else {
        assert(rows =~= Seq::empty());
    }
}

/// Whether one range reaches as far back as another.
pub open spec fn covers(wide: Range, narrow: Range) -> bool {
    match (wide.days_back(), narrow.days_back()) {
        (Some(far), Some(near)) => near <= far,
        (Some(_), None) => false,
        (None, _) => true,
    }
}

/// A range that reaches further back has every thread of one that does not, and
/// so no fewer tokens.
pub proof fn law_ranges_nest(
    rows: Seq<ThreadUsageRow>,
    offsets: Seq<i32>,
    wide: Range,
    narrow: Range,
    today: i32,
)
    requires
        covers(wide, narrow),
        wide.has_begin(today),
        narrow.has_begin(today),
    ensures
        forall|row: ThreadUsageRow, offset: i32|
            in_range(row, offset, narrow.first_day(today)) ==> #[trigger] in_range(
                row,
                offset,
                wide.first_day(today),
            ),
        within(
            tokens(picked(rows, offsets, narrow.first_day(today))),
            tokens(picked(rows, offsets, wide.first_day(today))),
        ),
        picked(rows, offsets, narrow.first_day(today)).len() <= picked(
            rows,
            offsets,
            wide.first_day(today),
        ).len(),
    decreases rows.len(),
{
    if rows.len() > 0 {
        let before = rows.drop_last();
        law_ranges_nest(before, offsets, wide, narrow, today);
        lemma_push(picked(before, offsets, narrow.first_day(today)), rows.last());
        lemma_push(picked(before, offsets, wide.first_day(today)), rows.last());
    }
}

/// The threads and the rates alone decide what a summary says, so that going
/// back to a range shows again what it showed before.
pub proof fn law_summary_is_determined(
    one: Summary,
    other: Summary,
    rows: Seq<ThreadUsageRow>,
    rates: Map<Seq<char>, Rate>,
)
    requires
        one.sums_up(rows, rates),
        other.sums_up(rows, rates),
    ensures
        rows_view(one.rows@) == rows_view(other.rows@),
        one.usage == other.usage,
        one.cost == other.cost,
        one.cache_savings == other.cache_savings,
        one.threads == other.threads,
        one.unpriced_models == other.unpriced_models,
{
    assert(one.usage@ == other.usage@);
}

} // verus!
