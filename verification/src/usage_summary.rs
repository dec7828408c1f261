//! Per-thread usage, folded into per-model spend.
use crate::binary64::Binary64;
use crate::calendar::{day_of, is_local_time, local_day, shows_local_time};
use crate::group_index::GroupIndex;
use crate::laws::counting::{law_summary_counts_what_is_in_range, total};
use crate::model_rate_table::{looked_up, rate_for, zero};
use crate::rate::{Rate, TokenCount, TokenUsage};
use crate::rate_map::RateMap;
use vstd::prelude::*;
use vstd::string::*;

verus! {

/// What one thread has used.
pub struct ThreadUsageRow {
    /// When the thread was last active, in seconds since the Unix epoch.
    pub updated_at: i64,
    pub provider_id: Option<String>,
    pub model_id: Option<String>,
    pub usage: TokenUsage,
}

/// Everything spent on one model over the selected range.
#[derive(Debug)]
pub struct ModelSpend {
    pub provider_id: String,
    pub model_id: String,
    pub usage: TokenUsage,
    pub threads: usize,
    /// `None` when no rate is known. The row still reports its tokens: a model
    /// we cannot price is not a model that was free.
    pub cost: Option<Binary64>,
    pub cache_savings: Binary64,
}

/// The spend on all models.
#[derive(Debug)]
pub struct Summary {
    pub rows: Vec<ModelSpend>,
    pub usage: TokenUsage,
    pub cost: Binary64,
    pub cache_savings: Binary64,
    pub threads: usize,
    /// Models in range that no rate covers, so `cost` is a floor rather than a
    /// total. Surfaced in the UI instead of being rounded away.
    pub unpriced_models: usize,
}

/// A provider and one of its models.
pub struct Group {
    pub provider: Seq<char>,
    pub model: Seq<char>,
}

/// A [`ModelSpend`] without limits.
pub struct Spend {
    pub group: Group,
    pub usage: TokenCount,
    pub threads: nat,
    pub cost: Option<Binary64>,
    pub cache_savings: Binary64,
}

impl View for ModelSpend {
    type V = Spend;

    open spec fn view(&self) -> Spend {
        Spend {
            group: Group { provider: self.provider_id@, model: self.model_id@ },
            usage: self.usage@,
            threads: self.threads as nat,
            cost: self.cost,
            cache_savings: self.cache_savings,
        }
    }
}

/// A name, where one was recorded.
pub open spec fn known(name: Option<String>) -> Seq<char> {
    match name {
        Some(found) => found@,
        None => "unknown"@,
    }
}

/// What a thread is counted under.
pub open spec fn group_of(row: ThreadUsageRow) -> Group {
    Group { provider: known(row.provider_id), model: known(row.model_id) }
}

/// Whether a thread was last active on the day `since` or later, by local time.
pub open spec fn in_range(row: ThreadUsageRow, offset: i32, since: Option<i32>) -> bool {
    match since {
        Some(day) => day_of(row.updated_at + offset) >= day,
        None => true,
    }
}

/// The threads in range, in the order in which they came.
pub open spec fn picked(
    rows: Seq<ThreadUsageRow>,
    offsets: Seq<i32>,
    since: Option<i32>,
) -> Seq<ThreadUsageRow>
    decreases rows.len(),
{
    if rows.len() == 0 {
        Seq::empty()
    } else {
        let before = picked(rows.drop_last(), offsets, since);
        if in_range(rows.last(), offsets[rows.len() - 1], since) {
            before.push(rows.last())
        } else {
            before
        }
    }
}

/// The threads of one group.
pub open spec fn of_group(rows: Seq<ThreadUsageRow>, group: Group) -> Seq<ThreadUsageRow>
    decreases rows.len(),
{
    if rows.len() == 0 {
        Seq::empty()
    } else {
        let before = of_group(rows.drop_last(), group);
        if group_of(rows.last()) == group {
            before.push(rows.last())
        } else {
            before
        }
    }
}

/// The groups of some threads, in the order in which they first come.
pub open spec fn groups(rows: Seq<ThreadUsageRow>) -> Seq<Group>
    decreases rows.len(),
{
    if rows.len() == 0 {
        Seq::empty()
    } else {
        let before = groups(rows.drop_last());
        if before.contains(group_of(rows.last())) {
            before
        } else {
            before.push(group_of(rows.last()))
        }
    }
}

/// The tokens of some threads.
pub open spec fn tokens(rows: Seq<ThreadUsageRow>) -> TokenCount
    decreases rows.len(),
{
    if rows.len() == 0 {
        TokenCount::none()
    } else {
        tokens(rows.drop_last()).plus(rows.last().usage)
    }
}

/// What some threads cost, added up in their order. A thread whose model has no
/// rate adds nothing.
pub open spec fn cost(rows: Seq<ThreadUsageRow>, rates: Map<Seq<char>, Rate>) -> Binary64
    decreases rows.len(),
{
    if rows.len() == 0 {
        zero()
    } else {
        let before = cost(rows.drop_last(), rates);
        match looked_up(rates, known(rows.last().model_id)) {
            Some(rate) => before.plus(rate.cost_of(rows.last().usage)),
            None => before,
        }
    }
}

/// What the cache saved some threads, added up in their order.
pub open spec fn savings(rows: Seq<ThreadUsageRow>, rates: Map<Seq<char>, Rate>) -> Binary64
    decreases rows.len(),
{
    if rows.len() == 0 {
        zero()
    } else {
        let before = savings(rows.drop_last(), rates);
        match looked_up(rates, known(rows.last().model_id)) {
            Some(rate) => before.plus(rate.savings_of(rows.last().usage)),
            None => before,
        }
    }
}

/// The spend of a group among some threads.
pub open spec fn spend_of(
    rows: Seq<ThreadUsageRow>,
    group: Group,
    rates: Map<Seq<char>, Rate>,
) -> Spend {
    let own = of_group(rows, group);
    Spend {
        group,
        usage: tokens(own),
        threads: own.len(),
        cost: match looked_up(rates, group.model) {
            Some(_) => Some(cost(own, rates)),
            None => None,
        },
        cache_savings: savings(own, rates),
    }
}

/// The spend of every group, in the order in which the groups first come.
pub open spec fn spends(rows: Seq<ThreadUsageRow>, rates: Map<Seq<char>, Rate>) -> Seq<Spend> {
    groups(rows).map_values(|group: Group| spend_of(rows, group, rates))
}

/// How many groups no rate covers.
pub open spec fn unpriced(groups: Seq<Group>, rates: Map<Seq<char>, Rate>) -> nat
    decreases groups.len(),
{
    if groups.len() == 0 {
        0
    } else {
        unpriced(groups.drop_last(), rates) + (if looked_up(rates, groups.last().model) is None {
            1nat
        } else {
            0nat
        })
    }
}

impl Spend {
    pub open spec fn total_tokens(self) -> nat {
        self.usage.input + self.usage.output + self.usage.cache_read + self.usage.cache_creation
    }

    /// One with a cost stands before one without, whatever the cost. The more
    /// expensive comes first, and among equal ones, or where neither has a cost,
    /// the one with more tokens.
    pub open spec fn precedes(self, other: Spend) -> bool {
        match (self.cost, other.cost) {
            (Some(own), Some(its)) => own.rank() > its.rank() || (own.rank() == its.rank()
                && self.total_tokens() > other.total_tokens()),
            (Some(_), None) => true,
            (None, Some(_)) => false,
            (None, None) => self.total_tokens() > other.total_tokens(),
        }
    }
}

/// `spend` put in its place among ordered ones, behind those that it does not
/// precede.
pub open spec fn placed(ordered: Seq<Spend>, spend: Spend) -> Seq<Spend>
    decreases ordered.len(),
{
    if ordered.len() > 0 && spend.precedes(ordered.last()) {
        placed(ordered.drop_last(), spend).push(ordered.last())
    } else {
        ordered.push(spend)
    }
}

/// The spends in order; those that neither precede nor follow each other stay as
/// they came.
pub open spec fn ranked(spends: Seq<Spend>) -> Seq<Spend>
    decreases spends.len(),
{
    if spends.len() == 0 {
        Seq::empty()
    } else {
        placed(ranked(spends.drop_last()), spends.last())
    }
}

/// Rows as spends.
pub open spec fn rows_view(rows: Seq<ModelSpend>) -> Seq<Spend> {
    rows.map_values(|row: ModelSpend| row@)
}

impl Summary {
    /// Whether this sums up `rows`.
    pub open spec fn sums_up(&self, rows: Seq<ThreadUsageRow>, rates: Map<Seq<char>, Rate>) -> bool {
        &&& rows_view(self.rows@) == ranked(spends(rows, rates))
        &&& self.usage@ == tokens(rows)
        &&& self.cost == cost(rows, rates)
        &&& self.cache_savings == savings(rows, rates)
        &&& self.threads == rows.len()
        &&& self.unpriced_models == unpriced(groups(rows), rates)
    }

    /// Nothing spent.
    pub fn new() -> (summary: Summary)
        ensures
            forall|rates: Map<Seq<char>, Rate>| #[trigger] summary.sums_up(Seq::empty(), rates),
    {
        let summary: Summary = Summary {
            rows: Vec::new(),
            usage: TokenUsage::default(),
            cost: Binary64 { bits: 0 },
            cache_savings: Binary64 { bits: 0 },
            threads: 0,
            unpriced_models: 0,
        };
        proof {
            assert forall|rates: Map<Seq<char>, Rate>| #[trigger]
                summary.sums_up(Seq::empty(), rates) by {
                let none = Seq::<ThreadUsageRow>::empty();
                assert(groups(none) =~= Seq::empty());
                assert(spends(none, rates) =~= Seq::empty());
                assert(rows_view(summary.rows@) =~= Seq::empty());
            }
        }
        summary
    }
}

/// A name, where one was recorded.
fn known_name(name: &Option<String>) -> (result: String)
    ensures
        result@ == known(*name),
{
    match name {
        Some(found) => found.clone(),
        None => "unknown".to_owned(),
    }
}

/// Whether each class of `few` is at most that of `many`.
pub open spec fn within(few: TokenCount, many: TokenCount) -> bool {
    &&& few.input <= many.input
    &&& few.output <= many.output
    &&& few.cache_creation <= many.cache_creation
    &&& few.cache_read <= many.cache_read
}

/// A group has no more tokens than all threads together, and no more threads.
pub proof fn lemma_group_within(rows: Seq<ThreadUsageRow>, group: Group)
    ensures
        within(tokens(of_group(rows, group)), tokens(rows)),
        of_group(rows, group).len() <= rows.len(),
    decreases rows.len(),
{
    if rows.len() > 0 {
        let before = rows.drop_last();
        lemma_group_within(before, group);
        lemma_push(before, rows.last());
        if group_of(rows.last()) == group {
            lemma_push(of_group(before, group), rows.last());
        }
    }
}

/// One more thread.
pub proof fn lemma_push(rows: Seq<ThreadUsageRow>, row: ThreadUsageRow)
    ensures
        tokens(rows.push(row)) == tokens(rows).plus(row.usage),
        forall|rates: Map<Seq<char>, Rate>|
            #![trigger cost(rows.push(row), rates)]
            cost(rows.push(row), rates) == (match looked_up(rates, known(row.model_id)) {
                Some(rate) => cost(rows, rates).plus(rate.cost_of(row.usage)),
                None => cost(rows, rates),
            }),
        forall|rates: Map<Seq<char>, Rate>|
            #![trigger savings(rows.push(row), rates)]
            savings(rows.push(row), rates) == (match looked_up(rates, known(row.model_id)) {
                Some(rate) => savings(rows, rates).plus(rate.savings_of(row.usage)),
                None => savings(rows, rates),
            }),
        forall|group: Group|
            #![trigger of_group(rows.push(row), group)]
            of_group(rows.push(row), group) == (if group_of(row) == group {
                of_group(rows, group).push(row)
            } else {
                of_group(rows, group)
            }),
        groups(rows.push(row)) == (if groups(rows).contains(group_of(row)) {
            groups(rows)
        } else {
            groups(rows).push(group_of(row))
        }),
{
    assert(rows.push(row).drop_last() =~= rows);
}

/// No group stands twice, and one that does not stand there has no threads.
pub proof fn lemma_groups(rows: Seq<ThreadUsageRow>)
    ensures
        groups(rows).no_duplicates(),
        forall|group: Group|
            !groups(rows).contains(group) ==> #[trigger] of_group(rows, group) == Seq::<
                ThreadUsageRow,
            >::empty(),
        groups(rows).len() <= rows.len(),
    decreases rows.len(),
{
    if rows.len() > 0 {
        let before = rows.drop_last();
        lemma_groups(before);
        let last = group_of(rows.last());
        assert forall|group: Group| !groups(rows).contains(group) implies #[trigger] of_group(
            rows,
            group,
        ) == Seq::<ThreadUsageRow>::empty() by {
            if !groups(before).contains(last) {
                assert(groups(rows)[groups(before).len() as int] == last);
                if groups(before).contains(group) {
                    let i = choose|i: int|
                        0 <= i < groups(before).len() && groups(before)[i] == group;
                    assert(groups(rows)[i] == group);
                }
            }
            assert(of_group(before, group) == Seq::<ThreadUsageRow>::empty());
            assert(group != last);
        }
    }
}

/// The threads in range among the first `count`.
spec fn picked_first(
    rows: Seq<ThreadUsageRow>,
    offsets: Seq<i32>,
    since: Option<i32>,
    count: int,
) -> Seq<ThreadUsageRow> {
    picked(rows.take(count), offsets, since)
}

/// One more thread looked at.
proof fn lemma_picked_step(
    rows: Seq<ThreadUsageRow>,
    offsets: Seq<i32>,
    since: Option<i32>,
    count: int,
)
    requires
        0 <= count < rows.len(),
    ensures
        picked_first(rows, offsets, since, count + 1) == (if in_range(
            rows[count],
            offsets[count],
            since,
        ) {
            picked_first(rows, offsets, since, count).push(rows[count])
        } else {
            picked_first(rows, offsets, since, count)
        }),
{
    assert(rows.take(count + 1).drop_last() =~= rows.take(count));
}

/// The first threads have no more tokens than all.
proof fn lemma_picked_within(
    rows: Seq<ThreadUsageRow>,
    offsets: Seq<i32>,
    since: Option<i32>,
    count: int,
)
    requires
        0 <= count <= rows.len(),
    ensures
        within(tokens(picked_first(rows, offsets, since, count)), tokens(picked(rows, offsets, since))),
        picked_first(rows, offsets, since, count).len() <= count,
    decreases rows.len() - count,
{
    lemma_picked_length(rows.take(count), offsets, since);
    if count == rows.len() {
        assert(rows.take(count) =~= rows);
    } else {
        lemma_picked_within(rows, offsets, since, count + 1);
        lemma_picked_step(rows, offsets, since, count);
        lemma_push(picked_first(rows, offsets, since, count), rows[count]);
    }
}

proof fn lemma_picked_length(rows: Seq<ThreadUsageRow>, offsets: Seq<i32>, since: Option<i32>)
    ensures
        picked(rows, offsets, since).len() <= rows.len(),
    decreases rows.len(),
{
    if rows.len() > 0 {
        lemma_picked_length(rows.drop_last(), offsets, since);
    }
}

/// A thread added to what its group has spent.
fn add_thread(spend: &ModelSpend, usage: &TokenUsage, rate: &Option<Rate>) -> (sum: ModelSpend)
    requires
        spend.usage@.plus(*usage).fits(),
        spend.threads < usize::MAX,
        spend.cost is Some <==> *rate is Some,
    ensures
        sum@.group == spend@.group,
        sum@.usage == spend@.usage.plus(*usage),
        sum@.threads == spend@.threads + 1,
        sum.cost == (match rate {
            Some(rate) => Some(spend.cost->0.plus(rate.cost_of(*usage))),
            None => None,
        }),
        sum.cache_savings == (match rate {
            Some(rate) => spend.cache_savings.plus(rate.savings_of(*usage)),
            None => spend.cache_savings,
        }),
{
    let mut cost: Option<Binary64> = None;
    let mut cache_savings: Binary64 = spend.cache_savings;
    match (rate, spend.cost) {
        (Some(rate), Some(before)) => {
            cost = Some(before.sum(rate.cost(usage)));
            cache_savings = spend.cache_savings.sum(rate.cache_savings(usage));
        },
        _ => {},
    }
    ModelSpend {
        provider_id: spend.provider_id.clone(),
        model_id: spend.model_id.clone(),
        usage: spend.usage.plus(*usage),
        threads: spend.threads + 1,
        cost,
        cache_savings,
    }
}

/// What the rows are while the threads are folded: one for each group, in the
/// order in which the groups first came.
spec fn folded(
    spends: Seq<ModelSpend>,
    rows: Seq<ThreadUsageRow>,
    rates: Map<Seq<char>, Rate>,
) -> bool {
    &&& spends.len() == groups(rows).len()
    &&& forall|i: int|
        0 <= i < spends.len() ==> (#[trigger] spends[i])@ == spend_of(rows, groups(rows)[i], rates)
}

/// Whether an index says where each group's row stands.
spec fn indexes(index: Map<Group, usize>, rows: Seq<ThreadUsageRow>) -> bool {
    &&& forall|group: Group| #[trigger]
        index.contains_key(group) ==> index[group] < groups(rows).len()
            && groups(rows)[index[group] as int] == group
    &&& forall|i: int|
        0 <= i < groups(rows).len() ==> index.contains_key(#[trigger] groups(rows)[i])
}

/// One more thread, of a group that has a row already.
proof fn lemma_fold_known(
    before: Seq<ModelSpend>,
    after: Seq<ModelSpend>,
    rows: Seq<ThreadUsageRow>,
    row: ThreadUsageRow,
    rates: Map<Seq<char>, Rate>,
    at: int,
)
    requires
        folded(before, rows, rates),
        0 <= at < before.len(),
        groups(rows)[at] == group_of(row),
        after.len() == before.len(),
        forall|i: int| 0 <= i < before.len() && i != at ==> after[i] == before[i],
        after[at]@ == spend_of(rows.push(row), group_of(row), rates),
    ensures
        folded(after, rows.push(row), rates),
{
    lemma_push(rows, row);
    lemma_groups(rows);
    assert(groups(rows).contains(group_of(row)));
    assert forall|i: int| 0 <= i < after.len() implies (#[trigger] after[i])@ == spend_of(
        rows.push(row),
        groups(rows.push(row))[i],
        rates,
    ) by {
        if i != at {
            assert(before[i]@ == spend_of(rows, groups(rows)[i], rates));
            assert(groups(rows)[i] != groups(rows)[at]);
        }
    }
}

/// One more thread, the first of its group.
proof fn lemma_fold_new(
    before: Seq<ModelSpend>,
    spend: ModelSpend,
    rows: Seq<ThreadUsageRow>,
    row: ThreadUsageRow,
    rates: Map<Seq<char>, Rate>,
)
    requires
        folded(before, rows, rates),
        !groups(rows).contains(group_of(row)),
        spend@ == spend_of(rows.push(row), group_of(row), rates),
    ensures
        folded(before.push(spend), rows.push(row), rates),
{
    lemma_push(rows, row);
    let after = before.push(spend);
    assert forall|i: int| 0 <= i < after.len() implies (#[trigger] after[i])@ == spend_of(
        rows.push(row),
        groups(rows.push(row))[i],
        rates,
    ) by {
        if i < before.len() {
            assert(before[i]@ == spend_of(rows, groups(rows)[i], rates));
            assert(groups(rows).contains(groups(rows)[i]));
        }
    }
}

/// Folds one thread into the rows.
fn fold_thread(
    spends: &mut Vec<ModelSpend>,
    index: &mut GroupIndex,
    row: &ThreadUsageRow,
    rate: &Option<Rate>,
    rows: Ghost<Seq<ThreadUsageRow>>,
    rates: Ghost<Map<Seq<char>, Rate>>,
)
    requires
        folded(old(spends)@, rows@, rates@),
        old(index).wf(),
        indexes(old(index)@, rows@),
        *rate == looked_up(rates@, known(row.model_id)),
        tokens(rows@.push(*row)).fits(),
        rows@.len() < usize::MAX,
    ensures
        folded(final(spends)@, rows@.push(*row), rates@),
        final(index).wf(),
        indexes(final(index)@, rows@.push(*row)),
{
    let ghost before = spends@;
    let provider: String = known_name(&row.provider_id);
    let model: String = known_name(&row.model_id);
    let ghost group = group_of(*row);
    proof {
        lemma_push(rows@, *row);
        lemma_groups(rows@);
        lemma_group_within(rows@.push(*row), group);
        lemma_group_within(rows@, group);
        lemma_push(of_group(rows@, group), *row);
    }
    match index.get(provider.as_str(), model.as_str()) {
        Some(at) => {
            assert(spends@[at as int]@ == spend_of(rows@, groups(rows@)[at as int], rates@));
            let sum: ModelSpend = add_thread(&spends[at], &row.usage, rate);
            spends.set(at, sum);
            proof {
                lemma_fold_known(before, spends@, rows@, *row, rates@, at as int);
            }
        },
        None => {
            assert(!groups(rows@).contains(group));
            let at: usize = spends.len();
            index.insert(provider.clone(), model.clone(), at);
            let start: ModelSpend = ModelSpend {
                provider_id: provider,
                model_id: model,
                usage: TokenUsage::default(),
                threads: 0,
                cost: match rate {
                    Some(_) => Some(Binary64 { bits: 0 }),
                    None => None,
                },
                cache_savings: Binary64 { bits: 0 },
            };
            let first: ModelSpend = add_thread(&start, &row.usage, rate);
            proof {
                lemma_fold_new(before, first, rows@, *row, rates@);
            }
            spends.push(first);
        },
    }
}

/// How many rows have no cost.
fn count_unpriced(
    spends: &Vec<ModelSpend>,
    rows: Ghost<Seq<ThreadUsageRow>>,
    rates: Ghost<Map<Seq<char>, Rate>>,
) -> (count: usize)
    requires
        folded(spends@, rows@, rates@),
    ensures
        count == unpriced(groups(rows@), rates@),
{
    let mut count: usize = 0;
    let mut at: usize = 0;
    let ghost all = groups(rows@);
    while at < spends.len()
        invariant
            folded(spends@, rows@, rates@),
            all == groups(rows@),
            at <= spends@.len(),
            count <= at,
            count == unpriced(all.take(at as int), rates@),
        decreases spends.len() - at,
    {
        proof {
            assert(all.take(at as int + 1).drop_last() =~= all.take(at as int));
            assert(spends@[at as int]@ == spend_of(rows@, all[at as int], rates@));
        }
        if spends[at].cost.is_none() {
            count = count + 1;
        }
        at = at + 1;
    }
    assert(all.take(spends@.len() as int) =~= all);
    count
}

/// Whether a row stands before another.
fn stands_before(row: &ModelSpend, other: &ModelSpend) -> (result: bool)
    ensures
        result == row@.precedes(other@),
{
    match (row.cost, other.cost) {
        (Some(own), Some(its)) => {
            let own: i64 = own.total_order();
            let its: i64 = its.total_order();
            own > its || (own == its && all_tokens(&row.usage) > all_tokens(&other.usage))
        },
        (Some(_), None) => true,
        (None, Some(_)) => false,
        (None, None) => all_tokens(&row.usage) > all_tokens(&other.usage),
    }
}

/// All tokens, whatever their class, however many.
fn all_tokens(usage: &TokenUsage) -> (total: u128)
    ensures
        total == usage.total(),
{
    usage.input_tokens as u128 + usage.output_tokens as u128 + usage.cache_read_input_tokens as u128
        + usage.cache_creation_input_tokens as u128
}

/// Two ordered lists as one. Where neither of two rows precedes the other, that
/// of the first list comes first.
spec fn merged(one: Seq<Spend>, other: Seq<Spend>) -> Seq<Spend>
    decreases one.len() + other.len(),
{
    if one.len() == 0 {
        other
    } else if other.len() == 0 {
        one
    } else if other.last().precedes(one.last()) {
        merged(one.drop_last(), other).push(one.last())
    } else {
        merged(one, other.drop_last()).push(other.last())
    }
}

/// Putting a row in its place and merging can be exchanged.
proof fn lemma_merged_placed(one: Seq<Spend>, other: Seq<Spend>, spend: Spend)
    ensures
        merged(one, placed(other, spend)) == placed(merged(one, other), spend),
    decreases one.len() + other.len(),
{
    let more = placed(other, spend);
    if one.len() == 0 {
    } else if other.len() == 0 {
        assert(more =~= seq![spend]);
        assert(more.drop_last() =~= other);
        assert(merged(one.drop_last(), other) =~= one.drop_last());
        lemma_merged_placed(one.drop_last(), other, spend);
    } else if spend.precedes(other.last()) {
        assert(more.drop_last() =~= placed(other.drop_last(), spend));
        if other.last().precedes(one.last()) {
            lemma_merged_placed(one.drop_last(), other, spend);
            assert(merged(one, other).drop_last() =~= merged(one.drop_last(), other));
        } else {
            lemma_merged_placed(one, other.drop_last(), spend);
            assert(merged(one, other).drop_last() =~= merged(one, other.drop_last()));
        }
    } else {
        assert(more.drop_last() =~= other);
        if spend.precedes(one.last()) {
            assert(other.last().precedes(one.last()));
            lemma_merged_placed(one.drop_last(), other, spend);
            assert(merged(one, other).drop_last() =~= merged(one.drop_last(), other));
        } else {
            assert(merged(one, more) == merged(one, other).push(spend));
        }
    }
}

/// Two lists put in order and merged are the whole list put in order.
proof fn lemma_merged_ranked(one: Seq<Spend>, other: Seq<Spend>)
    ensures
        merged(ranked(one), ranked(other)) == ranked(one + other),
    decreases other.len(),
{
    if other.len() == 0 {
        assert(one + other =~= one);
        assert(ranked(other) =~= Seq::empty());
    } else {
        let less = other.drop_last();
        lemma_merged_ranked(one, less);
        lemma_merged_placed(ranked(one), ranked(less), other.last());
        assert((one + other).drop_last() =~= one + less);
    }
}

/// The last row of a list, taken off.
fn take_last(rows: &mut Vec<ModelSpend>) -> (row: ModelSpend)
    requires
        old(rows)@.len() > 0,
    ensures
        row@ == rows_view(old(rows)@).last(),
        rows_view(final(rows)@) == rows_view(old(rows)@).drop_last(),
        final(rows)@.len() == old(rows)@.len() - 1,
{
    let ghost before = rows@;
    let row: ModelSpend = rows.pop().unwrap();
    assert(rows_view(rows@) =~= rows_view(before).drop_last());
    row
}

/// Moves the rows of a list to the end of another, the last one first.
fn move_rows(rows: &mut Vec<ModelSpend>, behind: &mut Vec<ModelSpend>)
    ensures
        final(rows)@.len() == 0,
        rows_view(final(behind)@) == rows_view(old(behind)@) + rows_view(old(rows)@).reverse(),
{
    let ghost all = rows_view(rows@);
    let ghost before = rows_view(behind@);
    assert(all.skip(all.len() as int).reverse() =~= Seq::empty());
    while rows.len() > 0
        invariant
            rows@.len() <= all.len(),
            rows_view(rows@) == all.take(rows@.len() as int),
            rows_view(behind@) == before + all.skip(rows@.len() as int).reverse(),
        decreases rows.len(),
    {
        let ghost left = rows@.len() as int;
        let ghost moved = rows_view(behind@);
        let row: ModelSpend = take_last(rows);
        let ghost spend = row@;
        behind.push(row);
        proof {
            assert(rows_view(behind@) =~= moved.push(spend));
            assert(all.skip(left - 1).reverse() =~= all.skip(left).reverse().push(spend));
        }
    }
    assert(all.skip(0) =~= all);
}

/// Merges two ordered lists.
fn merge_rows(one: Vec<ModelSpend>, other: Vec<ModelSpend>) -> (rows: Vec<ModelSpend>)
    ensures
        rows_view(rows@) == merged(rows_view(one@), rows_view(other@)),
{
    let mut one: Vec<ModelSpend> = one;
    let mut other: Vec<ModelSpend> = other;
    let ghost all = merged(rows_view(one@), rows_view(other@));
    // The merged rows, the last one first.
    let mut back: Vec<ModelSpend> = Vec::new();
    assert(rows_view(back@).reverse() =~= Seq::empty());
    while one.len() > 0 && other.len() > 0
        invariant
            all == merged(rows_view(one@), rows_view(other@)) + rows_view(back@).reverse(),
        decreases one.len() + other.len(),
    {
        let ghost first = rows_view(one@);
        let ghost second = rows_view(other@);
        let ghost done = rows_view(back@);
        let row: ModelSpend = if stands_before(&other[other.len() - 1], &one[one.len() - 1]) {
            take_last(&mut one)
        } else {
            take_last(&mut other)
        };
        let ghost spend = row@;
        back.push(row);
        proof {
            let left = merged(rows_view(one@), rows_view(other@));
            assert(merged(first, second) == left.push(spend));
            assert(rows_view(back@) =~= done.push(spend));
            assert(left.push(spend) + done.reverse() =~= left + done.push(spend).reverse());
        }
    }
    let mut rows: Vec<ModelSpend> = if one.len() > 0 {
        one
    } else {
        other
    };
    move_rows(&mut back, &mut rows);
    rows
}

/// Puts rows in order: most expensive first, and unpriced rows last but ordered
/// by volume, so the table always leads with what matters.
fn rank_rows(spends: Vec<ModelSpend>) -> (ordered: Vec<ModelSpend>)
    ensures
        rows_view(ordered@) == ranked(rows_view(spends@)),
    decreases spends.len(),
{
    let ghost all = rows_view(spends@);
    let mut spends: Vec<ModelSpend> = spends;
    if spends.len() < 2 {
        proof {
            if all.len() == 1 {
                assert(ranked(all.drop_last()) =~= Seq::empty());
                assert(ranked(all) =~= all);
            } else {
                assert(ranked(all) =~= all);
            }
        }
        return spends;
    }
    let half: usize = spends.len() / 2;
    let rest: Vec<ModelSpend> = spends.split_off(half);
    proof {
        assert(rows_view(spends@) + rows_view(rest@) =~= all);
        lemma_merged_ranked(rows_view(spends@), rows_view(rest@));
    }
    merge_rows(rank_rows(spends), rank_rows(rest))
}

/// Whether a summary of these threads can be made: their tokens can be counted
/// in 64 bits, class by class, and where days count each thread has one.
pub open spec fn can_sum_up(
    rows: Seq<ThreadUsageRow>,
    offsets: Seq<i32>,
    since: Option<i32>,
) -> bool {
    &&& tokens(picked(rows, offsets, since)).fits()
    &&& since is Some ==> {
        &&& offsets.len() == rows.len()
        &&& forall|i: int|
            0 <= i < rows.len() ==> is_local_time(
                (#[trigger] rows[i]).updated_at,
                offsets[i],
            )
    }
}

/// Whether a summary of these threads can be made.
pub fn can_summarize(
    rows: &Vec<ThreadUsageRow>,
    offsets: &Vec<i32>,
    since: Option<i32>,
) -> (result: bool)
    ensures
        result == can_sum_up(rows@, offsets@, since),
{
    if since.is_some() && offsets.len() != rows.len() {
        return false;
    }
    let cap: u128 = u64::MAX as u128;
    let mut input: u128 = 0;
    let mut output: u128 = 0;
    let mut cache_creation: u128 = 0;
    let mut cache_read: u128 = 0;
    let mut at: usize = 0;
    assert(rows@.take(0) =~= Seq::empty());
    while at < rows.len()
        invariant
            cap == u64::MAX,
            at <= rows@.len(),
            since is Some ==> offsets@.len() == rows@.len(),
            since is Some ==> forall|i: int|
                0 <= i < at ==> is_local_time((#[trigger] rows@[i]).updated_at, offsets@[i]),
            tokens(picked_first(rows@, offsets@, since, at as int)) == (TokenCount {
                input: input as nat,
                output: output as nat,
                cache_creation: cache_creation as nat,
                cache_read: cache_read as nat,
            }),
            input <= cap,
            output <= cap,
            cache_creation <= cap,
            cache_read <= cap,
        decreases rows.len() - at,
    {
        let row: &ThreadUsageRow = &rows[at];
        proof {
            let so_far = picked_first(rows@, offsets@, since, at as int);
            lemma_picked_step(rows@, offsets@, since, at as int);
            lemma_picked_within(rows@, offsets@, since, at as int + 1);
            lemma_push(so_far, *row);
        }
        let counts: bool = match since {
            Some(day) => {
                if !shows_local_time(row.updated_at, offsets[at]) {
                    assert(!is_local_time(rows@[at as int].updated_at, offsets@[at as int]));
                    return false;
                }
                local_day(row.updated_at, offsets[at]) >= day
            },
            None => true,
        };
        if counts {
            input = input + row.usage.input_tokens as u128;
            output = output + row.usage.output_tokens as u128;
            cache_creation = cache_creation + row.usage.cache_creation_input_tokens as u128;
            cache_read = cache_read + row.usage.cache_read_input_tokens as u128;
            if input > cap || output > cap || cache_creation > cap || cache_read > cap {
                return false;
            }
        }
        at = at + 1;
    }
    assert(rows@.take(rows@.len() as int) =~= rows@);
    true
}

/// Folds per-thread rows into per-model spend, each thread looked at once.
///
/// `offsets` holds the offset from UTC of the reader's own time at the moment
/// of each row, in seconds: buckets follow the reader's own calendar, not UTC,
/// so "today" means what they expect it to mean. Without a first day no offset
/// is read.
///
/// A thread is attributed entirely to the day it was last active, because that
/// is the granularity that is recorded. Per-model totals are therefore exact,
/// but a thread worked on across a range boundary counts wholly on its last day.
pub fn summarize(
    rows: &Vec<ThreadUsageRow>,
    offsets: &Vec<i32>,
    since: Option<i32>,
    rates: &RateMap,
) -> (summary: Summary)
    requires
        rates.wf(),
        can_sum_up(rows@, offsets@, since),
    ensures
        summary.sums_up(picked(rows@, offsets@, since), rates@),
        summary.threads == total(rows@, offsets@, since, |row: ThreadUsageRow| 1),
        summary.usage.input_tokens == total(
            rows@,
            offsets@,
            since,
            |row: ThreadUsageRow| row.usage.input_tokens as nat,
        ),
        summary.usage.output_tokens == total(
            rows@,
            offsets@,
            since,
            |row: ThreadUsageRow| row.usage.output_tokens as nat,
        ),
        summary.usage.cache_read_input_tokens == total(
            rows@,
            offsets@,
            since,
            |row: ThreadUsageRow| row.usage.cache_read_input_tokens as nat,
        ),
        summary.usage.cache_creation_input_tokens == total(
            rows@,
            offsets@,
            since,
            |row: ThreadUsageRow| row.usage.cache_creation_input_tokens as nat,
        ),
{
    let mut spends: Vec<ModelSpend> = Vec::new();
    let mut index: GroupIndex = GroupIndex::new();
    let mut usage: TokenUsage = TokenUsage::default();
    let mut cost: Binary64 = Binary64 { bits: 0 };
    let mut cache_savings: Binary64 = Binary64 { bits: 0 };
    let mut threads: usize = 0;
    let mut at: usize = 0;
    assert(rows@.take(0) =~= Seq::empty());
    while at < rows.len()
        invariant
            rates.wf(),
            can_sum_up(rows@, offsets@, since),
            at <= rows@.len(),
            folded(spends@, picked_first(rows@, offsets@, since, at as int), rates@),
            index.wf(),
            indexes(index@, picked_first(rows@, offsets@, since, at as int)),
            usage@ == tokens(picked_first(rows@, offsets@, since, at as int)),
            cost == crate::usage_summary::cost(
                picked_first(rows@, offsets@, since, at as int),
                rates@,
            ),
            cache_savings == savings(picked_first(rows@, offsets@, since, at as int), rates@),
            threads == picked_first(rows@, offsets@, since, at as int).len(),
        decreases rows.len() - at,
    {
        let ghost so_far = picked_first(rows@, offsets@, since, at as int);
        let row: &ThreadUsageRow = &rows[at];
        proof {
            lemma_picked_step(rows@, offsets@, since, at as int);
            lemma_picked_within(rows@, offsets@, since, at as int);
            lemma_picked_within(rows@, offsets@, since, at as int + 1);
            lemma_push(so_far, *row);
        }
        let counts: bool = match since {
            Some(day) => local_day(row.updated_at, offsets[at]) >= day,
            None => true,
        };
        if counts {
            let model: String = known_name(&row.model_id);
            let rate: Option<Rate> = rate_for(rates, model.as_str());
            fold_thread(&mut spends, &mut index, row, &rate, Ghost(so_far), Ghost(rates@));
            match &rate {
                Some(rate) => {
                    cost = cost.sum(rate.cost(&row.usage));
                    cache_savings = cache_savings.sum(rate.cache_savings(&row.usage));
                },
                None => {},
            }
            usage = usage.plus(row.usage);
            threads = threads + 1;
        }
        at = at + 1;
    }
    let ghost all = picked(rows@, offsets@, since);
    assert(rows@.take(rows@.len() as int) =~= rows@);
    let unpriced_models: usize = count_unpriced(&spends, Ghost(all), Ghost(rates@));
    proof {
        assert(rows_view(spends@) =~= crate::usage_summary::spends(all, rates@));
    }
    let summary: Summary = Summary {
        rows: rank_rows(spends),
        usage,
        cost,
        cache_savings,
        threads,
        unpriced_models,
    };
    proof {
        law_summary_counts_what_is_in_range(summary, rows@, offsets@, since, rates@);
    }
    summary
}

} // verus!
