//! Threads folded into per-model spend.
use agent_usage::binary64::Binary64;
use agent_usage::calendar::{has_day, shows_local_time, FIRST_DAY, LAST_DAY};
use agent_usage::model_rate_table::rate_for;
use agent_usage::rate::{Rate, TokenUsage};
use agent_usage::rate_map::RateMap;
use agent_usage::usage_dashboard::Range;
use agent_usage::usage_summary::{can_summarize, summarize, Summary, ThreadUsageRow};
use chrono::{Datelike, Duration, Local, NaiveDate, Offset, TimeZone, Utc};
use std::collections::HashMap;

fn number(value: f64) -> Binary64 {
    Binary64 { bits: value.to_bits() }
}

fn float(value: Binary64) -> f64 {
    f64::from_bits(value.bits)
}

fn rate() -> Rate {
    Rate {
        input: number(3.0 / 1_000_000.0),
        output: number(15.0 / 1_000_000.0),
        cache_read: number(0.3 / 1_000_000.0),
        cache_write: number(3.75 / 1_000_000.0),
    }
}

fn rates(entries: Vec<(&str, Rate)>) -> RateMap {
    let mut map = RateMap::new();
    for (name, rate) in entries {
        map.insert(name.to_string(), rate);
    }
    map
}

fn row(model: &str, days_ago: i64, usage: TokenUsage) -> ThreadUsageRow {
    ThreadUsageRow {
        updated_at: (Utc::now() - Duration::days(days_ago)).timestamp(),
        provider_id: Some("anthropic".to_string()),
        model_id: Some(model.to_string()),
        usage,
    }
}

fn usage(input: u64, output: u64, cache_read: u64, cache_write: u64) -> TokenUsage {
    TokenUsage {
        input_tokens: input,
        output_tokens: output,
        cache_read_input_tokens: cache_read,
        cache_creation_input_tokens: cache_write,
    }
}

/// The offsets of the machine's own time zone.
fn local_offsets(rows: &[ThreadUsageRow]) -> Vec<i32> {
    let mut offsets = Vec::new();
    for row in rows {
        let moment = Utc.timestamp_opt(row.updated_at, 0).unwrap();
        offsets.push(moment.with_timezone(&Local).offset().fix().local_minus_utc());
    }
    offsets
}

#[test]
fn groups_by_model_and_sums_usage() {
    let rates = rates(vec![("mistral-opus-5", rate())]);
    let rows = vec![
        row("mistral-opus-5", 0, usage(100, 10, 0, 0)),
        row("mistral-opus-5", 0, usage(200, 20, 0, 0)),
    ];

    let summary = summarize(&rows, &local_offsets(&rows), None, &rates);
    assert_eq!(summary.rows.len(), 1);
    assert_eq!(summary.rows[0].threads, 2);
    assert_eq!(summary.rows[0].usage.input_tokens, 300);
    assert_eq!(summary.threads, 2);
}

#[test]
fn excludes_threads_older_than_the_range() {
    let rates = rates(vec![("mistral-opus-5", rate())]);
    let rows = vec![
        row("mistral-opus-5", 0, usage(100, 0, 0, 0)),
        row("mistral-opus-5", 40, usage(900, 0, 0, 0)),
    ];

    let since = Range::Month.since(Local::now().date_naive().num_days_from_ce());
    let summary = summarize(&rows, &local_offsets(&rows), since, &rates);
    assert_eq!(summary.usage.input_tokens, 100);
    assert_eq!(summary.threads, 1);
}

#[test]
fn unpriced_models_keep_their_tokens_and_are_counted() {
    let rows = vec![row("mystery-model", 0, usage(1_000, 500, 0, 0))];

    let summary = summarize(&rows, &local_offsets(&rows), None, &RateMap::new());
    assert_eq!(summary.unpriced_models, 1);
    assert_eq!(float(summary.cost), 0.0);
    assert_eq!(summary.rows[0].cost, None);
    assert_eq!(summary.rows[0].usage.output_tokens, 500);
}

#[test]
fn priced_models_sort_above_unpriced_ones() {
    let rates = rates(vec![("mistral-opus-5", rate())]);
    let rows = vec![
        row("mystery-model", 0, usage(10_000_000, 0, 0, 0)),
        row("mistral-opus-5", 0, usage(1_000, 0, 0, 0)),
    ];

    let summary = summarize(&rows, &local_offsets(&rows), None, &rates);
    assert_eq!(summary.rows[0].model_id, "mistral-opus-5");
}

/// One group as the machine's own arithmetic folds it.
#[derive(Default)]
struct Folded {
    usage: TokenUsage,
    threads: usize,
    cost: Option<f64>,
    cache_savings: f64,
}

fn fold_by_machine(
    rows: &[ThreadUsageRow],
    rates: &RateMap,
) -> (HashMap<(String, String), Folded>, f64, f64) {
    let mut groups: HashMap<(String, String), Folded> = HashMap::new();
    let mut total = 0.0;
    let mut saved = 0.0;
    for row in rows {
        let provider = row.provider_id.clone().unwrap_or("unknown".to_string());
        let model = row.model_id.clone().unwrap_or("unknown".to_string());
        let rate = rate_for(rates, &model);
        let entry = groups.entry((provider, model)).or_default();
        entry.usage = entry.usage.plus(row.usage);
        entry.threads += 1;
        if let Some(rate) = rate {
            let cost = row.usage.input_tokens as f64 * float(rate.input)
                + row.usage.output_tokens as f64 * float(rate.output)
                + row.usage.cache_read_input_tokens as f64 * float(rate.cache_read)
                + row.usage.cache_creation_input_tokens as f64 * float(rate.cache_write);
            let savings = row.usage.cache_read_input_tokens as f64
                * (float(rate.input) - float(rate.cache_read));
            entry.cost = Some(entry.cost.unwrap_or(0.0) + cost);
            entry.cache_savings += savings;
            total += cost;
            saved += savings;
        }
    }
    (groups, total, saved)
}

fn spread(count: usize) -> Vec<ThreadUsageRow> {
    let mut rows = Vec::new();
    let mut state: u64 = 88_172_645_463_325_252;
    for at in 0..count {
        state ^= state << 13;
        state ^= state >> 7;
        state ^= state << 17;
        let model = match state % 7 {
            0 => None,
            1 => Some("Priced-A[1m]".to_string()),
            2 => Some("priced-a".to_string()),
            3 => Some("priced-b".to_string()),
            4 => Some("opus".to_string()),
            5 => Some("mystery".to_string()),
            _ => Some("free".to_string()),
        };
        rows.push(ThreadUsageRow {
            updated_at: at as i64 * 3_600,
            provider_id: if state % 5 == 0 { None } else { Some(format!("p{}", state % 3)) },
            model_id: model,
            usage: usage(
                state >> 40,
                (state >> 20) & 0xFFFF,
                state >> 30,
                (state >> 10) & 0xF_FFFF,
            ),
        });
    }
    rows
}

fn price_list() -> RateMap {
    let other = Rate {
        input: number(0.15 / 1_000_000.0),
        output: number(0.6 / 1_000_000.0),
        cache_read: number(0.15 / 1_000_000.0),
        cache_write: number(0.0),
    };
    let free = Rate {
        input: number(0.0),
        output: number(0.0),
        cache_read: number(0.0),
        cache_write: number(0.0),
    };
    rates(vec![("priced-a", rate()), ("priced-b", other), ("free", free), ("opus", rate())])
}

#[test]
fn sums_are_those_of_the_machine() {
    let rows = spread(500);
    let rates = price_list();
    let summary = summarize(&rows, &Vec::new(), None, &rates);
    let (groups, total, saved) = fold_by_machine(&rows, &rates);

    assert_eq!(summary.cost.bits, total.to_bits());
    assert_eq!(summary.cache_savings.bits, saved.to_bits());
    assert_eq!(summary.threads, rows.len());
    assert_eq!(summary.rows.len(), groups.len());
    let mut unpriced = 0;
    for row in &summary.rows {
        let group = groups.get(&(row.provider_id.clone(), row.model_id.clone())).unwrap();
        assert_eq!(row.usage, group.usage);
        assert_eq!(row.threads, group.threads);
        match (row.cost, group.cost) {
            (Some(ours), Some(theirs)) => assert_eq!(ours.bits, theirs.to_bits()),
            (None, None) => unpriced += 1,
            _ => panic!("priced and unpriced"),
        }
        assert_eq!(row.cache_savings.bits, group.cache_savings.to_bits());
    }
    assert_eq!(summary.unpriced_models, unpriced);
    assert!(unpriced > 0);
}

/// Rows with a cost before those without, then by cost, then by tokens.
fn assert_in_order(summary: &Summary) {
    for pair in summary.rows.windows(2) {
        let more_tokens = pair[0].usage.total_tokens() >= pair[1].usage.total_tokens();
        match (pair[0].cost.map(float), pair[1].cost.map(float)) {
            (Some(above), Some(below)) => match above.total_cmp(&below) {
                std::cmp::Ordering::Greater => {}
                std::cmp::Ordering::Equal => assert!(more_tokens),
                std::cmp::Ordering::Less => panic!("{above} above {below}"),
            },
            (Some(_), None) => {}
            (None, Some(below)) => panic!("no cost above {below}"),
            (None, None) => assert!(more_tokens),
        }
    }
}

#[test]
fn rows_account_for_the_totals_and_come_in_order() {
    let rows = spread(300);
    let summary = summarize(&rows, &Vec::new(), None, &price_list());
    let mut tokens = TokenUsage::default();
    let mut threads = 0;
    for row in &summary.rows {
        tokens = tokens.plus(row.usage);
        threads += row.threads;
    }
    assert_eq!(tokens, summary.usage);
    assert_eq!(threads, summary.threads);
    assert_in_order(&summary);
    let unpriced_from = summary.rows.len() - summary.unpriced_models;
    for (at, row) in summary.rows.iter().enumerate() {
        assert_eq!(row.cost.is_none(), at >= unpriced_from);
    }
}

fn named(provider: Option<&str>, model: Option<&str>, usage: TokenUsage) -> ThreadUsageRow {
    ThreadUsageRow {
        updated_at: 0,
        provider_id: provider.map(|name| name.to_string()),
        model_id: model.map(|name| name.to_string()),
        usage,
    }
}

#[test]
fn a_missing_name_is_unknown() {
    let rows = vec![
        named(None, None, usage(1, 0, 0, 0)),
        named(Some("unknown"), Some("unknown"), usage(2, 0, 0, 0)),
        named(Some("p"), None, usage(4, 0, 0, 0)),
        named(None, Some("m"), usage(8, 0, 0, 0)),
    ];
    let summary = summarize(&rows, &Vec::new(), None, &RateMap::new());
    assert_eq!(summary.rows.len(), 3);
    assert_eq!(summary.rows[2].provider_id, "unknown");
    assert_eq!(summary.rows[2].model_id, "unknown");
    assert_eq!(summary.rows[2].threads, 2);
    assert_eq!(summary.rows[2].usage.input_tokens, 3);
    assert_eq!(summary.unpriced_models, 3);
}

#[test]
fn one_model_of_two_providers_has_two_rows() {
    let rows = vec![
        named(Some("a"), Some("m"), usage(1, 0, 0, 0)),
        named(Some("b"), Some("m"), usage(5, 0, 0, 0)),
        named(Some("a"), Some("M"), usage(3, 0, 0, 0)),
    ];
    let summary = summarize(&rows, &Vec::new(), None, &rates(vec![("m", rate())]));
    assert_eq!(summary.rows.len(), 3);
    assert_eq!(summary.rows[0].provider_id, "b");
    assert_eq!(summary.rows[1].model_id, "M");
    assert_eq!(float(summary.rows[0].cost.unwrap()), 5.0 * (3.0 / 1_000_000.0));
}

fn input_at(price: f64) -> Rate {
    Rate {
        input: number(price),
        output: number(0.0),
        cache_read: number(0.0),
        cache_write: number(0.0),
    }
}

#[test]
fn a_negative_price_stays_above_the_unpriced() {
    let rows = vec![
        named(Some("p"), Some("a"), usage(5, 0, 0, 0)),
        named(Some("p"), Some("b"), usage(1, 0, 0, 0)),
    ];
    let summary = summarize(&rows, &Vec::new(), None, &rates(vec![("a", input_at(-1.0))]));
    assert_eq!(summary.rows[0].model_id, "a");
    assert_eq!(float(summary.rows[0].cost.unwrap()), -5.0);
    assert_eq!(summary.rows[1].model_id, "b");
    assert_eq!(summary.rows[1].cost, None);
}

#[test]
fn unpriced_rows_come_last_whatever_the_others_cost() {
    for price in [-2.0, -1.0, -0.5, -0.0, 0.0, 1.0, f64::MIN, f64::NEG_INFINITY, f64::NAN] {
        let rows = vec![
            named(Some("p"), Some("few"), usage(1, 0, 0, 0)),
            named(Some("p"), Some("many"), usage(9, 0, 0, 0)),
            named(Some("p"), Some("priced"), usage(1, 0, 0, 0)),
        ];
        let summary = summarize(&rows, &Vec::new(), None, &rates(vec![("priced", input_at(price))]));
        let mut models = Vec::new();
        for row in &summary.rows {
            models.push(row.model_id.as_str());
        }
        assert_eq!(models, vec!["priced", "many", "few"], "{price}");
        assert_in_order(&summary);
    }
}

#[test]
fn many_groups_are_ranked_and_ties_stay_as_they_came() {
    let mut rows = Vec::new();
    let mut prices = Vec::new();
    let mut names = Vec::new();
    for at in 0..2_000u64 {
        names.push(format!("m{at}"));
    }
    for (at, name) in names.iter().enumerate() {
        rows.push(named(Some("p"), Some(name), usage((at as u64 * 7_919) % 13, 0, 0, 0)));
        if at % 3 != 0 {
            prices.push((name.as_str(), input_at((at % 5) as f64)));
        }
    }
    let summary = summarize(&rows, &Vec::new(), None, &rates(prices));
    assert_eq!(summary.rows.len(), 2_000);
    assert_in_order(&summary);
    let place = |name: &str| name[1..].parse::<usize>().unwrap();
    for pair in summary.rows.windows(2) {
        let same_cost = pair[0].cost.map(|cost| cost.bits) == pair[1].cost.map(|cost| cost.bits);
        if same_cost && pair[0].usage == pair[1].usage {
            assert!(place(&pair[0].model_id) < place(&pair[1].model_id));
        }
    }
}

#[test]
fn many_threads_of_many_models_are_folded_at_once() {
    let mut rows = Vec::new();
    for round in 0..2 {
        for at in 0..50_000u64 {
            let provider = format!("p{}", at % 100);
            let model = format!("m{}", at / 100);
            rows.push(named(Some(&provider), Some(&model), usage(at + round, 0, 0, 0)));
        }
    }
    let summary = summarize(&rows, &Vec::new(), None, &RateMap::new());
    assert_eq!(summary.rows.len(), 50_000);
    assert_eq!(summary.threads, 100_000);
    assert_eq!(summary.rows[0].usage.input_tokens, 2 * 49_999 + 1);
    assert_eq!(summary.rows[0].threads, 2);
}

#[test]
fn names_that_run_together_are_kept_apart() {
    let rows = vec![
        named(Some("ab"), Some("c"), usage(1, 0, 0, 0)),
        named(Some("a"), Some("bc"), usage(2, 0, 0, 0)),
        named(Some(""), Some("abc"), usage(4, 0, 0, 0)),
        named(Some("c"), Some("ab"), usage(8, 0, 0, 0)),
        named(Some("ab"), Some("c"), usage(16, 0, 0, 0)),
    ];
    let summary = summarize(&rows, &Vec::new(), None, &RateMap::new());
    assert_eq!(summary.rows.len(), 4);
    assert_eq!(summary.rows[0].usage.input_tokens, 17);
}

#[test]
fn unpriced_threads_do_not_change_the_spend() {
    let all = spread(200);
    let rates = price_list();
    let whole = summarize(&all, &Vec::new(), None, &rates);
    let mut covered = Vec::new();
    for row in all {
        let model = row.model_id.clone().unwrap_or("unknown".to_string());
        if rate_for(&rates, &model).is_some() {
            covered.push(row);
        }
    }
    let part = summarize(&covered, &Vec::new(), None, &rates);
    assert_eq!(whole.cost.bits, part.cost.bits);
    assert_eq!(whole.cache_savings.bits, part.cache_savings.bits);
    assert_eq!(part.unpriced_models, 0);
    assert!(part.threads < whole.threads);
}

#[test]
fn days_begin_by_local_time() {
    let epoch = NaiveDate::from_ymd_opt(1970, 1, 1).unwrap().num_days_from_ce();
    let rows = vec![
        ThreadUsageRow { updated_at: -1, ..named(None, Some("m"), usage(1, 0, 0, 0)) },
        ThreadUsageRow { updated_at: 0, ..named(None, Some("m"), usage(2, 0, 0, 0)) },
        ThreadUsageRow { updated_at: 86_399, ..named(None, Some("m"), usage(4, 0, 0, 0)) },
        ThreadUsageRow { updated_at: 86_400, ..named(None, Some("m"), usage(8, 0, 0, 0)) },
    ];
    let from = |offset: i32, day: i32| {
        summarize(&rows, &vec![offset; 4], Some(day), &RateMap::new()).usage.input_tokens
    };
    assert_eq!(from(0, epoch), 14);
    assert_eq!(from(0, epoch + 1), 8);
    assert_eq!(from(0, epoch - 1), 15);
    assert_eq!(from(0, epoch + 2), 0);
    // An hour ahead of UTC the day has begun already, an hour behind not yet.
    assert_eq!(from(3_600, epoch), 15);
    assert_eq!(from(3_600, epoch + 1), 12);
    assert_eq!(from(-3_600, epoch), 12);
    let mixed = vec![3_600, 0, 0, -1];
    assert_eq!(summarize(&rows, &mixed, Some(epoch + 1), &RateMap::new()).threads, 0);
}

#[test]
fn the_calendar_ends_where_that_of_chrono_does() {
    assert_eq!(NaiveDate::MIN.num_days_from_ce(), FIRST_DAY);
    assert_eq!(NaiveDate::MAX.num_days_from_ce(), LAST_DAY);
    assert!(has_day(FIRST_DAY as i64) && has_day(LAST_DAY as i64));
    assert!(!has_day(FIRST_DAY as i64 - 1) && !has_day(LAST_DAY as i64 + 1));
    let first = chrono::DateTime::<Utc>::MIN_UTC.timestamp();
    let last = chrono::DateTime::<Utc>::MAX_UTC.timestamp();
    assert!(shows_local_time(first, 0) && !shows_local_time(first - 1, 0));
    assert!(shows_local_time(last, 0) && !shows_local_time(last + 1, 0));
    assert!(!shows_local_time(first, -1) && shows_local_time(first, 1));
    assert!(!shows_local_time(last, 1) && shows_local_time(last, -1));
    assert!(shows_local_time(0, 86_399) && !shows_local_time(0, 86_400));
    assert!(!shows_local_time(i64::MIN, 0) && !shows_local_time(i64::MAX, 86_399));

    let rows = vec![
        ThreadUsageRow { updated_at: first, ..named(None, None, usage(1, 0, 0, 0)) },
        ThreadUsageRow { updated_at: last, ..named(None, None, usage(2, 0, 0, 0)) },
    ];
    let offsets = vec![86_399, -86_399];
    assert!(can_summarize(&rows, &offsets, Some(LAST_DAY)));
    let late = summarize(&rows, &offsets, Some(LAST_DAY), &RateMap::new());
    assert_eq!(late.usage.input_tokens, 2);
    let early = summarize(&rows, &offsets, Some(FIRST_DAY), &RateMap::new());
    assert_eq!(early.threads, 2);
}

#[test]
fn ranges_begin_as_many_days_back_as_they_say() {
    let today = NaiveDate::from_ymd_opt(2024, 3, 1).unwrap();
    let first = |range: Range| {
        range.since(today.num_days_from_ce()).and_then(NaiveDate::from_num_days_from_ce_opt)
    };
    assert_eq!(first(Range::Today), NaiveDate::from_ymd_opt(2024, 3, 1));
    assert_eq!(first(Range::Week), NaiveDate::from_ymd_opt(2024, 2, 24));
    assert_eq!(first(Range::Month), NaiveDate::from_ymd_opt(2024, 2, 1));
    assert_eq!(first(Range::All), None);
    assert!(Range::Week.begins(FIRST_DAY + 6) && !Range::Week.begins(FIRST_DAY + 5));
    assert!(!Range::Today.begins(i32::MAX) && Range::All.begins(i32::MAX));
    assert_eq!(Range::Month.since(FIRST_DAY + 29), Some(FIRST_DAY));
}

#[test]
fn wider_ranges_hold_the_narrower_ones() {
    let rows = spread(24 * 60);
    let offsets = vec![-18_000; rows.len()];
    let today = NaiveDate::from_ymd_opt(1970, 3, 1).unwrap().num_days_from_ce();
    let mut before = 0;
    for range in Range::all() {
        let summary = summarize(&rows, &offsets, range.since(today), &RateMap::new());
        assert!(summary.threads >= before);
        before = summary.threads;
    }
    assert_eq!(before, rows.len());
    let week = summarize(&rows, &offsets, Range::Week.since(today), &RateMap::new());
    assert_eq!(week.threads, 24 * 6 + 19);
}

#[test]
fn what_cannot_be_counted_is_told_beforehand() {
    let heavy = vec![
        named(None, Some("a"), usage(u64::MAX, 0, 0, 0)),
        named(None, Some("b"), usage(1, 0, 0, 0)),
    ];
    assert!(!can_summarize(&heavy, &Vec::new(), None));
    let full = vec![
        named(None, Some("a"), usage(u64::MAX, u64::MAX, u64::MAX, u64::MAX)),
        named(None, Some("b"), usage(0, 0, 0, 0)),
    ];
    assert!(can_summarize(&full, &Vec::new(), None));
    let summary = summarize(&full, &Vec::new(), None, &RateMap::new());
    assert_eq!(summary.usage.cache_read_input_tokens, u64::MAX);
    assert_eq!(summary.rows[0].model_id, "a");
    for short in [vec![], vec![0], vec![0, 0, 0]] {
        assert!(!can_summarize(&full, &short, Some(0)));
    }
    assert!(can_summarize(&full, &vec![0, 0], Some(0)));
    assert!(!can_summarize(&full, &vec![0, 86_400], Some(0)));
    // What is out of range does not count.
    assert!(can_summarize(&heavy, &vec![0, 0], Some(LAST_DAY)));
    for class in 0..4 {
        let mut many = usage(0, 0, 0, 0);
        match class {
            0 => many.input_tokens = 1 << 63,
            1 => many.output_tokens = 1 << 63,
            2 => many.cache_read_input_tokens = 1 << 63,
            _ => many.cache_creation_input_tokens = 1 << 63,
        }
        let twice = vec![named(None, None, many), named(None, None, many)];
        assert!(!can_summarize(&twice, &Vec::new(), None));
    }
}

#[test]
fn nothing_sums_up_to_nothing() {
    for summary in [Summary::new(), summarize(&Vec::new(), &Vec::new(), Some(0), &price_list())] {
        assert!(summary.rows.is_empty());
        assert_eq!(summary.usage, TokenUsage::default());
        assert_eq!(summary.cost.bits, 0);
        assert_eq!(summary.cache_savings.bits, 0);
        assert_eq!(summary.threads, 0);
        assert_eq!(summary.unpriced_models, 0);
    }
}
