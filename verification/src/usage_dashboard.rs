//! One place to see what the agent has cost.
//!
//! All of history is read once. What the reader sees is folded from it in
//! memory whenever the rows, the range or the prices change, so switching
//! ranges needs no second query.
use crate::binary64::Binary64;
use crate::calendar::{days_before, has_day, is_day};
use crate::decimal::{count_text, digits, fixed, fixed_text};
use crate::laws::counting::{begin, total};
use crate::laws::page::{law_places_by_size, law_the_table_shows_every_row};
use crate::rate::{Rate, TokenUsage};
use crate::rate_map::RateMap;
use crate::usage_summary::{
    can_sum_up, picked, summarize, ModelSpend, Summary, ThreadUsageRow,
};
use vstd::arithmetic::power2::pow2;
use vstd::prelude::*;
use vstd::string::*;

verus! {

/// How far back the reader looks.
#[derive(Clone, Copy, Debug, PartialEq, Eq, Structural)]
pub enum Range {
    Today,
    Week,
    Month,
    All,
}

impl Range {
    /// How many days before today the range begins.
    pub open spec fn days_back(self) -> Option<int> {
        match self {
            Range::Today => Some(0),
            Range::Week => Some(6),
            Range::Month => Some(29),
            Range::All => None,
        }
    }

    /// The first day of the range; `None` covers all history.
    pub open spec fn first_day(self, today: i32) -> Option<i32> {
        match self.days_back() {
            Some(days) => Some((today - days) as i32),
            None => None,
        }
    }

    /// Whether the range begins on a day that the calendar has.
    pub open spec fn has_begin(self, today: i32) -> bool {
        match self.days_back() {
            Some(days) => is_day(today as int) && is_day(today - days),
            None => true,
        }
    }

    pub open spec fn name(self) -> Seq<char> {
        match self {
            Range::Today => "Today"@,
            Range::Week => "7 days"@,
            Range::Month => "30 days"@,
            Range::All => "All time"@,
        }
    }

    /// All ranges, the shortest first.
    pub fn all() -> (ranges: Vec<Range>)
        ensures
            ranges@ == seq![Range::Today, Range::Week, Range::Month, Range::All],
    {
        let ranges: Vec<Range> = vec![Range::Today, Range::Week, Range::Month, Range::All];
        assert(ranges@ =~= seq![Range::Today, Range::Week, Range::Month, Range::All]);
        ranges
    }

    /// What the reader calls the range.
    pub fn label(self) -> (label: &'static str)
        ensures
            label@ == self.name(),
    {
        match self {
            Range::Today => "Today",
            Range::Week => "7 days",
            Range::Month => "30 days",
            Range::All => "All time",
        }
    }

    /// Whether the range begins on a day that the calendar has.
    pub fn begins(self, today: i32) -> (result: bool)
        ensures
            result == self.has_begin(today),
    {
        let days: i64 = match self {
            Range::Today => 0,
            Range::Week => 6,
            Range::Month => 29,
            Range::All => {
                return true;
            },
        };
        has_day(today as i64) && has_day(today as i64 - days)
    }

    /// Inclusive lower bound as a local day; `None` covers all history.
    pub fn since(self, today: i32) -> (first: Option<i32>)
        requires
            self.has_begin(today),
        ensures
            first == self.first_day(today),
            first is None <==> self == Range::All,
            self == Range::Today ==> first->0 == today,
            self == Range::Week ==> first->0 == today - 7 + 1,
            self == Range::Month ==> first->0 == today - 30 + 1,
    {
        let days: i64 = match self {
            Range::Today => 0,
            Range::Week => 6,
            Range::Month => 29,
            Range::All => {
                return None;
            },
        };
        Some(days_before(today, days))
    }
}

/// Dollars, with more precision the smaller the figure, so a cheap day does not
/// come out as `$0.00`.
pub open spec fn usd_text(amount: Binary64) -> Seq<char> {
    seq!['$'] + fixed(
        amount,
        if amount.at_least(Binary64::from_count(100)) {
            0
        } else if amount.at_least(Binary64::from_count(1)) {
            2
        } else {
            4
        },
    )
}

/// Dollars, with more precision the smaller the figure.
pub fn format_usd(amount: Binary64) -> (text: String)
    ensures
        text@ == usd_text(amount),
        !amount.is_nan() && amount.value() >= 100 * pow2(1074) ==> text@ == seq!['$'] + fixed(
            amount,
            0,
        ),
        !amount.is_nan() && pow2(1074) <= amount.value() < 100 * pow2(1074) ==> text@ == seq!['$']
            + fixed(amount, 2),
        amount.is_nan() || amount.value() < pow2(1074) ==> text@ == seq!['$'] + fixed(amount, 4),
{
    proof {
        law_places_by_size(amount);
    }
    let places: usize = if amount.is_at_least(Binary64::of_count(100)) {
        0
    } else if amount.is_at_least(Binary64::of_count(1)) {
        2
    } else {
        4
    };
    let mut text: String = String::new();
    text.push('$');
    let figure: String = fixed_text(amount, places);
    text.append(figure.as_str());
    assert(text@ =~= usd_text(amount));
    text
}

/// A token count: as it is below a thousand, then in thousands to one place,
/// then in millions to two.
pub open spec fn tokens_text(tokens: nat) -> Seq<char> {
    if tokens < 1_000 {
        digits(tokens)
    } else if tokens < 1_000_000 {
        fixed(Binary64::from_count(tokens).over(1_000), 1).push('K')
    } else {
        fixed(Binary64::from_count(tokens).over(1_000_000), 2).push('M')
    }
}

/// A token count, shortened.
pub fn format_tokens(tokens: u64) -> (text: String)
    ensures
        text@ == tokens_text(tokens as nat),
{
    if tokens < 1_000 {
        count_text(tokens)
    } else if tokens < 1_000_000 {
        let mut text: String = fixed_text(Binary64::of_count(tokens).divided(1_000), 1);
        text.push('K');
        text
    } else {
        let mut text: String = fixed_text(Binary64::of_count(tokens).divided(1_000_000), 2);
        text.push('M');
        text
    }
}

/// One line of the table of models.
pub struct TableRow {
    pub model: String,
    pub provider: String,
    pub threads: String,
    /// All input, cached or not.
    pub input: String,
    pub output: String,
    pub cost: String,
    /// Whether a rate is known. Where none is, `cost` says so.
    pub priced: bool,
}

/// A [`TableRow`] as text.
pub struct Line {
    pub model: Seq<char>,
    pub provider: Seq<char>,
    pub threads: Seq<char>,
    pub input: Seq<char>,
    pub output: Seq<char>,
    pub cost: Seq<char>,
    pub priced: bool,
}

impl View for TableRow {
    type V = Line;

    open spec fn view(&self) -> Line {
        Line {
            model: self.model@,
            provider: self.provider@,
            threads: self.threads@,
            input: self.input@,
            output: self.output@,
            cost: self.cost@,
            priced: self.priced,
        }
    }
}

/// All input of a usage, cached or not.
pub open spec fn all_input(usage: TokenUsage) -> nat {
    (usage.input_tokens + usage.cache_read_input_tokens + usage.cache_creation_input_tokens) as nat
}

/// What the table says of a model.
pub open spec fn line_of(row: ModelSpend) -> Line {
    Line {
        model: row.model_id@,
        provider: row.provider_id@,
        threads: digits(row.threads as nat),
        input: tokens_text(all_input(row.usage)),
        output: tokens_text(row.usage.output_tokens as nat),
        cost: match row.cost {
            Some(cost) => usd_text(cost),
            None => "No rate"@,
        },
        priced: row.cost is Some,
    }
}

/// A button that selects a range.
pub struct RangeButton {
    pub range: Range,
    pub label: &'static str,
    pub selected: bool,
}

/// What stands below the totals.
pub enum Body {
    /// A sentence in place of the table.
    Notice(&'static str),
    Table(Vec<TableRow>),
}

/// What the reader sees.
pub struct Page {
    pub ranges: Vec<RangeButton>,
    pub spend: String,
    pub tokens: String,
    pub saved_by_caching: String,
    pub threads: String,
    /// That models without a price are left out of the spend.
    pub warning: Option<String>,
    pub body: Body,
}

/// The warning that models without a price call for.
pub open spec fn warning_text(unpriced_models: nat) -> Option<Seq<char>> {
    if unpriced_models > 0 {
        Some(
            digits(unpriced_models)
                + " model(s) have no known price, so spend is a lower bound. Set `agent.model_pricing` to include them."@,
        )
    } else {
        None
    }
}

/// Optional text.
pub open spec fn text_view(text: Option<String>) -> Option<Seq<char>> {
    match text {
        Some(found) => Some(found@),
        None => None,
    }
}

/// The buttons, of which the selected range's is marked.
pub open spec fn are_buttons(buttons: Seq<RangeButton>, range: Range) -> bool {
    let ranges = seq![Range::Today, Range::Week, Range::Month, Range::All];
    &&& buttons.len() == ranges.len()
    &&& forall|i: int|
        0 <= i < buttons.len() ==> {
            &&& (#[trigger] buttons[i]).range == ranges[i]
            &&& buttons[i].label@ == ranges[i].name()
            &&& buttons[i].selected == (ranges[i] == range)
        }
}

impl Summary {
    /// Whether every count that is shown fits in 64 bits.
    pub open spec fn can_show(&self) -> bool {
        &&& self.usage.total() <= u64::MAX
        &&& forall|i: int|
            0 <= i < self.rows@.len() ==> all_input((#[trigger] self.rows@[i]).usage) <= u64::MAX
    }

    /// Whether every count that is shown fits in 64 bits.
    pub fn fits_the_page(&self) -> (fits: bool)
        ensures
            fits == self.can_show(),
    {
        let cap: u128 = u64::MAX as u128;
        let usage: TokenUsage = self.usage;
        if usage.input_tokens as u128 + usage.output_tokens as u128
            + usage.cache_read_input_tokens as u128 + usage.cache_creation_input_tokens as u128
            > cap {
            return false;
        }
        let mut at: usize = 0;
        while at < self.rows.len()
            invariant
                cap == u64::MAX,
                at <= self.rows@.len(),
                forall|i: int|
                    0 <= i < at ==> all_input((#[trigger] self.rows@[i]).usage) <= u64::MAX,
            decreases self.rows.len() - at,
        {
            let usage: TokenUsage = self.rows[at].usage;
            if usage.input_tokens as u128 + usage.cache_read_input_tokens as u128
                + usage.cache_creation_input_tokens as u128 > cap {
                assert(all_input(self.rows@[at as int].usage) > u64::MAX);
                return false;
            }
            at = at + 1;
        }
        true
    }
}

/// The threads that were read. Where history could not be read, there are none.
pub open spec fn history(rows: Option<Vec<ThreadUsageRow>>) -> Seq<ThreadUsageRow> {
    match rows {
        Some(found) => found@,
        None => Seq::empty(),
    }
}

/// The state of the dashboard.
pub struct UsageDashboard {
    /// All of history, loaded once. Ranges are sliced from this.
    pub rows: Vec<ThreadUsageRow>,
    pub range: Range,
    /// Recomputed only when the rows, the range, or the prices change.
    pub summary: Summary,
    pub loading: bool,
}

impl UsageDashboard {
    /// Whether the summary sums up the rows in range, seen on a day.
    pub open spec fn shows(
        &self,
        today: i32,
        offsets: Seq<i32>,
        rates: Map<Seq<char>, Rate>,
    ) -> bool {
        self.summary.sums_up(picked(self.rows@, offsets, self.range.first_day(today)), rates)
    }

    /// Whether a page says what the dashboard holds.
    pub open spec fn is_page(&self, page: Page) -> bool {
        &&& are_buttons(page.ranges@, self.range)
        &&& page.spend@ == usd_text(self.summary.cost)
        &&& page.tokens@ == tokens_text(self.summary.usage.total())
        &&& page.saved_by_caching@ == usd_text(self.summary.cache_savings)
        &&& page.threads@ == digits(self.summary.threads as nat)
        &&& text_view(page.warning) == warning_text(self.summary.unpriced_models as nat)
        &&& match page.body {
            Body::Notice(notice) => {
                &&& self.loading || self.summary.rows@.len() == 0
                &&& notice@ == (if self.loading {
                    "Reading thread history\u{2026}"@
                } else {
                    "No agent usage recorded in this range."@
                })
            },
            Body::Table(lines) => {
                &&& !self.loading
                &&& self.summary.rows@.len() > 0
                &&& lines@.len() == self.summary.rows@.len()
                &&& forall|i: int|
                    0 <= i < lines@.len() ==> (#[trigger] lines@[i])@ == line_of(
                        self.summary.rows@[i],
                    )
            },
        }
    }

    /// How new totals change the dashboard.
    pub open spec fn recomputed(
        before: UsageDashboard,
        today: i32,
        offsets: Seq<i32>,
        rates: Map<Seq<char>, Rate>,
        after: UsageDashboard,
    ) -> bool {
        &&& after.shows(today, offsets, rates)
        &&& after.rows == before.rows
        &&& after.range == before.range
        &&& after.loading == before.loading
    }

    /// How history that was read changes the dashboard.
    pub open spec fn loaded(
        before: UsageDashboard,
        rows: Option<Vec<ThreadUsageRow>>,
        today: i32,
        offsets: Seq<i32>,
        rates: Map<Seq<char>, Rate>,
        after: UsageDashboard,
    ) -> bool {
        &&& after.shows(today, offsets, rates)
        &&& after.rows@ == history(rows)
        &&& after.range == before.range
        &&& !after.loading
    }

    /// How the choice of a range changes the dashboard.
    pub open spec fn selected(
        before: UsageDashboard,
        range: Range,
        today: i32,
        offsets: Seq<i32>,
        rates: Map<Seq<char>, Rate>,
        after: UsageDashboard,
    ) -> bool {
        &&& after.shows(today, offsets, rates)
        &&& after.rows == before.rows
        &&& after.range == range
        &&& after.loading == before.loading
    }

    /// A dashboard that has yet to read history. It opens on the last week.
    pub fn new() -> (dashboard: UsageDashboard)
        ensures
            dashboard.rows@ == Seq::<ThreadUsageRow>::empty(),
            dashboard.range == Range::Week,
            dashboard.loading,
            forall|today: i32, offsets: Seq<i32>, rates: Map<Seq<char>, Rate>| #[trigger]
                dashboard.shows(today, offsets, rates),
    {
        UsageDashboard {
            rows: Vec::new(),
            range: Range::Week,
            summary: Summary::new(),
            loading: true,
        }
    }

    /// Rebuilds the totals. Called when the rows, the range, or the prices
    /// change, never to draw a page.
    pub fn recompute(&mut self, today: i32, offsets: &Vec<i32>, rates: &RateMap)
        requires
            rates.wf(),
            old(self).range.has_begin(today),
            can_sum_up(old(self).rows@, offsets@, old(self).range.first_day(today)),
        ensures
            Self::recomputed(*old(self), today, offsets@, rates@, *final(self)),
            final(self).summary.threads == total(
                old(self).rows@,
                offsets@,
                begin(old(self).range, today),
                |row: ThreadUsageRow| 1,
            ),
    {
        let since: Option<i32> = self.range.since(today);
        self.summary = summarize(&self.rows, offsets, since, rates);
    }

    /// History has been read. Where it could not be, there is none.
    pub fn history_loaded(
        &mut self,
        rows: Option<Vec<ThreadUsageRow>>,
        today: i32,
        offsets: &Vec<i32>,
        rates: &RateMap,
    )
        requires
            rates.wf(),
            old(self).range.has_begin(today),
            can_sum_up(history(rows), offsets@, old(self).range.first_day(today)),
        ensures
            Self::loaded(*old(self), rows, today, offsets@, rates@, *final(self)),
            final(self).summary.threads == total(
                history(rows),
                offsets@,
                begin(old(self).range, today),
                |row: ThreadUsageRow| 1,
            ),
    {
        self.rows = match rows {
            Some(found) => found,
            None => Vec::new(),
        };
        self.loading = false;
        self.recompute(today, offsets, rates);
    }

    /// The reader has chosen a range.
    pub fn select_range(&mut self, range: Range, today: i32, offsets: &Vec<i32>, rates: &RateMap)
        requires
            rates.wf(),
            range.has_begin(today),
            can_sum_up(old(self).rows@, offsets@, range.first_day(today)),
        ensures
            Self::selected(*old(self), range, today, offsets@, rates@, *final(self)),
            final(self).summary.threads == total(
                old(self).rows@,
                offsets@,
                begin(range, today),
                |row: ThreadUsageRow| 1,
            ),
    {
        self.range = range;
        self.recompute(today, offsets, rates);
    }

    /// The lines of the table.
    fn table(&self) -> (lines: Vec<TableRow>)
        requires
            self.summary.can_show(),
        ensures
            lines@.len() == self.summary.rows@.len(),
            forall|i: int|
                0 <= i < lines@.len() ==> (#[trigger] lines@[i])@ == line_of(self.summary.rows@[i]),
    {
        let mut lines: Vec<TableRow> = Vec::new();
        let mut at: usize = 0;
        while at < self.summary.rows.len()
            invariant
                self.summary.can_show(),
                at <= self.summary.rows@.len(),
                lines@.len() == at,
                forall|i: int|
                    0 <= i < lines@.len() ==> (#[trigger] lines@[i])@ == line_of(
                        self.summary.rows@[i],
                    ),
            decreases self.summary.rows.len() - at,
        {
            let row: &ModelSpend = &self.summary.rows[at];
            assert(all_input(self.summary.rows@[at as int].usage) <= u64::MAX);
            let (cost, priced): (String, bool) = match row.cost {
                Some(cost) => (format_usd(cost), true),
                None => ("No rate".to_owned(), false),
            };
            lines.push(
                TableRow {
                    model: row.model_id.clone(),
                    provider: row.provider_id.clone(),
                    threads: count_text(row.threads as u64),
                    input: format_tokens(
                        row.usage.input_tokens + row.usage.cache_read_input_tokens
                            + row.usage.cache_creation_input_tokens,
                    ),
                    output: format_tokens(row.usage.output_tokens),
                    cost,
                    priced,
                },
            );
            at = at + 1;
        }
        lines
    }

    /// The buttons that select a range.
    fn buttons(&self) -> (buttons: Vec<RangeButton>)
        ensures
            are_buttons(buttons@, self.range),
    {
        let ranges: Vec<Range> = Range::all();
        let mut buttons: Vec<RangeButton> = Vec::new();
        let mut at: usize = 0;
        while at < ranges.len()
            invariant
                ranges@ == seq![Range::Today, Range::Week, Range::Month, Range::All],
                at <= ranges@.len(),
                buttons@.len() == at,
                forall|i: int|
                    0 <= i < buttons@.len() ==> {
                        &&& (#[trigger] buttons@[i]).range == ranges@[i]
                        &&& buttons@[i].label@ == ranges@[i].name()
                        &&& buttons@[i].selected == (ranges@[i] == self.range)
                    },
            decreases ranges.len() - at,
        {
            let range: Range = ranges[at];
            buttons.push(
                RangeButton { range, label: range.label(), selected: range == self.range },
            );
            at = at + 1;
        }
        buttons
    }

    /// The page that the reader sees now.
    pub fn render(&self) -> (page: Page)
        requires
            self.summary.can_show(),
        ensures
            self.is_page(page),
            page.tokens@ == tokens_text(
                (self.summary.usage.input_tokens + self.summary.usage.output_tokens
                    + self.summary.usage.cache_read_input_tokens
                    + self.summary.usage.cache_creation_input_tokens) as nat,
            ),
            page.body is Table <==> !self.loading && self.summary.rows@.len() > 0,
            page.body matches Body::Table(lines) ==> forall|i: int|
                0 <= i < lines@.len() ==> (#[trigger] lines@[i]).input@ == tokens_text(
                    (self.summary.rows@[i].usage.input_tokens
                        + self.summary.rows@[i].usage.cache_read_input_tokens
                        + self.summary.rows@[i].usage.cache_creation_input_tokens) as nat,
                ),
    {
        let warning: Option<String> = if self.summary.unpriced_models > 0 {
            let mut text: String = count_text(self.summary.unpriced_models as u64);
            text.append(
                " model(s) have no known price, so spend is a lower bound. Set `agent.model_pricing` to include them.",
            );
            Some(text)
        } else {
            None
        };
        let body: Body = if self.loading {
            Body::Notice("Reading thread history\u{2026}")
        } else if self.summary.rows.len() == 0 {
            Body::Notice("No agent usage recorded in this range.")
        } else {
            Body::Table(self.table())
        };
        let page: Page = Page {
            ranges: self.buttons(),
            spend: format_usd(self.summary.cost),
            tokens: format_tokens(self.summary.usage.total_tokens()),
            saved_by_caching: format_usd(self.summary.cache_savings),
            threads: count_text(self.summary.threads as u64),
            warning,
            body,
        };
        proof {
            law_the_table_shows_every_row(*self, page);
        }
        page
    }
}

} // verus!
