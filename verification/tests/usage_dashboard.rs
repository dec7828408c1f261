//! What the reader sees.
use agent_usage::binary64::Binary64;
use agent_usage::rate::{Rate, TokenUsage};
use agent_usage::rate_map::RateMap;
use agent_usage::usage_dashboard::{
    format_tokens, format_usd, Body, Page, Range, TableRow, UsageDashboard,
};
use agent_usage::usage_summary::ThreadUsageRow;

fn number(value: f64) -> Binary64 {
    Binary64 { bits: value.to_bits() }
}

/// Dollars as the standard library writes them.
fn usd_by_machine(amount: f64) -> String {
    if amount >= 100.0 {
        format!("${amount:.0}")
    } else if amount >= 1.0 {
        format!("${amount:.2}")
    } else {
        format!("${amount:.4}")
    }
}

/// Token counts as the standard library writes them.
fn tokens_by_machine(tokens: u64) -> String {
    match tokens {
        0..=999 => tokens.to_string(),
        1_000..=999_999 => format!("{:.1}K", tokens as f64 / 1_000.0),
        _ => format!("{:.2}M", tokens as f64 / 1_000_000.0),
    }
}

#[test]
fn dollars_have_more_places_the_fewer_they_are() {
    assert_eq!(format_usd(number(0.0)), "$0.0000");
    assert_eq!(format_usd(number(0.00123)), "$0.0012");
    assert_eq!(format_usd(number(0.99999)), "$1.0000");
    assert_eq!(format_usd(number(1.0)), "$1.00");
    assert_eq!(format_usd(number(2.345)), "$2.35");
    assert_eq!(format_usd(number(99.999)), "$100.00");
    assert_eq!(format_usd(number(100.0)), "$100");
    assert_eq!(format_usd(number(1234.5)), "$1234");
    assert_eq!(format_usd(number(1235.5)), "$1236");
    assert_eq!(format_usd(number(-0.5)), "$-0.5000");
    assert_eq!(format_usd(number(f64::NAN)), "$NaN");
    assert_eq!(format_usd(number(f64::INFINITY)), "$inf");
    assert_eq!(format_usd(number(f64::NEG_INFINITY)), "$-inf");
}

#[test]
fn dollars_are_written_as_the_standard_library_does() {
    let mut amounts = vec![
        0.0, -0.0, 0.5, 0.00005, 0.00015, 0.00025, 0.03125, 0.09375, 1.005, 1.125, 1.375, 2.5, 99.5,
        99.995, 100.5, 101.5, 1e15, 1e16, 1e22, 1e23, 1e300, f64::MAX, f64::MIN, f64::MIN_POSITIVE,
        5e-324, -5e-324, 0.99995, 0.999949999, -1.5, -1e20, f64::EPSILON,
    ];
    let mut state: u64 = 7;
    for _ in 0..3_000 {
        state = state.wrapping_mul(6_364_136_223_846_793_005).wrapping_add(1_442_695_040_888_963_407);
        amounts.push((state >> 11) as f64 / (1u64 << 53) as f64);
        amounts.push((state >> 11) as f64 / (1u64 << 46) as f64);
        amounts.push((state >> 11) as f64 / (1u64 << 40) as f64);
        amounts.push((state >> 40) as f64 / 65_536.0);
        amounts.push(f64::from_bits(state));
    }
    for amount in amounts {
        let text = format_usd(number(amount));
        assert_eq!(text, usd_by_machine(amount), "{amount:e}");
        assert_ne!(text, "$0.00");
    }
}

#[test]
fn tokens_are_shortened() {
    assert_eq!(format_tokens(0), "0");
    assert_eq!(format_tokens(999), "999");
    assert_eq!(format_tokens(1_000), "1.0K");
    assert_eq!(format_tokens(1_250), "1.2K");
    assert_eq!(format_tokens(1_350), "1.4K");
    assert_eq!(format_tokens(999_999), "1000.0K");
    assert_eq!(format_tokens(1_000_000), "1.00M");
    assert_eq!(format_tokens(12_345_678), "12.35M");
    let mut state: u64 = 3;
    for _ in 0..5_000 {
        state = state.wrapping_mul(6_364_136_223_846_793_005).wrapping_add(1);
        let tokens = state >> (state % 64);
        assert_eq!(format_tokens(tokens), tokens_by_machine(tokens), "{tokens}");
    }
    for tokens in 0..200_000u64 {
        assert_eq!(format_tokens(tokens), tokens_by_machine(tokens), "{tokens}");
    }
    assert_eq!(format_tokens(u64::MAX), tokens_by_machine(u64::MAX));
}

#[test]
fn ranges_have_their_labels() {
    let mut labels = Vec::new();
    for range in Range::all() {
        labels.push(range.label());
    }
    assert_eq!(labels, vec!["Today", "7 days", "30 days", "All time"]);
}

const TODAY: i32 = 739_000;

fn row(model: &str, days_ago: i64, input: u64) -> ThreadUsageRow {
    ThreadUsageRow {
        updated_at: (TODAY as i64 - days_ago - 719_163) * 86_400 + 3_600,
        provider_id: Some("vendor".to_string()),
        model_id: Some(model.to_string()),
        usage: TokenUsage {
            input_tokens: input,
            output_tokens: 2_000,
            cache_read_input_tokens: 1_000_000,
            cache_creation_input_tokens: 500,
        },
    }
}

fn rates() -> RateMap {
    let mut rates = RateMap::new();
    rates.insert(
        "priced".to_string(),
        Rate {
            input: number(3e-6),
            output: number(15e-6),
            cache_read: number(3e-7),
            cache_write: number(3.75e-6),
        },
    );
    rates
}

fn lines(page: Page) -> Vec<TableRow> {
    match page.body {
        Body::Table(lines) => lines,
        Body::Notice(notice) => panic!("{notice}"),
    }
}

fn notice(page: &Page) -> &'static str {
    match page.body {
        Body::Notice(notice) => notice,
        Body::Table(_) => "",
    }
}

fn selected(page: &Page) -> Vec<&'static str> {
    let mut labels = Vec::new();
    for button in &page.ranges {
        if button.selected {
            labels.push(button.label);
        }
    }
    labels
}

#[test]
fn a_new_dashboard_is_reading_history() {
    let dashboard = UsageDashboard::new();
    assert!(dashboard.loading && dashboard.rows.is_empty());
    assert_eq!(dashboard.range, Range::Week);
    assert!(dashboard.summary.fits_the_page());
    let page = dashboard.render();
    assert_eq!(notice(&page), "Reading thread history…");
    assert_eq!(selected(&page), vec!["7 days"]);
    assert_eq!(page.ranges.len(), 4);
    assert_eq!(page.spend, "$0.0000");
    assert_eq!(page.tokens, "0");
    assert_eq!(page.saved_by_caching, "$0.0000");
    assert_eq!(page.threads, "0");
    assert!(page.warning.is_none());
}

#[test]
fn history_that_cannot_be_read_is_empty() {
    let mut dashboard = UsageDashboard::new();
    dashboard.history_loaded(None, TODAY, &Vec::new(), &rates());
    assert!(!dashboard.loading && dashboard.rows.is_empty());
    assert_eq!(notice(&dashboard.render()), "No agent usage recorded in this range.");

    // For all time no offset is read, however many there are.
    let mut dashboard = UsageDashboard::new();
    dashboard.select_range(Range::All, TODAY, &Vec::new(), &rates());
    dashboard.history_loaded(None, TODAY, &vec![0, 0], &rates());
    assert!(!dashboard.loading && dashboard.rows.is_empty());
}

#[test]
fn the_page_shows_what_is_in_range() {
    let mut dashboard = UsageDashboard::new();
    let history = vec![
        row("mystery", 0, 1_500),
        row("priced", 6, 1_000_000),
        row("priced", 7, 10_000_000),
        row("priced", 40, 1),
    ];
    let offsets = vec![0; 4];
    dashboard.history_loaded(Some(history), TODAY, &offsets, &rates());
    assert!(dashboard.summary.fits_the_page());
    let page = dashboard.render();
    let cost = 1_000_000.0 * 3e-6 + 2_000.0 * 15e-6 + 1_000_000.0 * 3e-7 + 500.0 * 3.75e-6;
    assert_eq!(page.spend, usd_by_machine(cost));
    assert_eq!(page.spend, "$3.33");
    assert_eq!(page.tokens, "3.01M");
    assert_eq!(page.saved_by_caching, "$2.70");
    assert_eq!(page.threads, "2");
    assert_eq!(
        page.warning.as_deref(),
        Some(
            "1 model(s) have no known price, so spend is a lower bound. \
             Set `agent.model_pricing` to include them."
        )
    );
    assert_eq!(selected(&page), vec!["7 days"]);
    let table = lines(page);
    assert_eq!(table.len(), 2);
    assert_eq!(table[0].model, "priced");
    assert_eq!(table[0].provider, "vendor");
    assert_eq!(table[0].threads, "1");
    assert_eq!(table[0].input, "2.00M");
    assert_eq!(table[0].output, "2.0K");
    assert_eq!(table[0].cost, "$3.33");
    assert!(table[0].priced);
    assert_eq!(table[1].model, "mystery");
    assert_eq!(table[1].input, "1.00M");
    assert_eq!(table[1].cost, "No rate");
    assert!(!table[1].priced);
}

#[test]
fn switching_ranges_and_back_shows_the_same() {
    let mut dashboard = UsageDashboard::new();
    let history =
        vec![row("mystery", 0, 1_500), row("priced", 6, 1_000_000), row("priced", 40, 10_000)];
    let offsets = vec![0; 3];
    dashboard.history_loaded(Some(history), TODAY, &offsets, &rates());
    let before = dashboard.render();
    let mut threads = Vec::new();
    for range in Range::all() {
        dashboard.select_range(range, TODAY, &offsets, &rates());
        assert_eq!(dashboard.range, range);
        assert_eq!(dashboard.rows.len(), 3);
        let page = dashboard.render();
        assert_eq!(selected(&page), vec![range.label()]);
        threads.push(page.threads);
    }
    assert_eq!(threads, vec!["1", "2", "2", "3"]);
    dashboard.select_range(Range::Week, TODAY, &offsets, &rates());
    let after = dashboard.render();
    assert_eq!(before.spend, after.spend);
    assert_eq!(before.tokens, after.tokens);
    assert_eq!(lines(before).len(), lines(after).len());
}

#[test]
fn prices_that_arrive_later_are_folded_in() {
    let mut dashboard = UsageDashboard::new();
    let offsets = vec![0];
    dashboard.history_loaded(Some(vec![row("priced", 0, 10)]), TODAY, &offsets, &RateMap::new());
    assert_eq!(dashboard.summary.unpriced_models, 1);
    assert_eq!(dashboard.render().spend, "$0.0000");
    dashboard.recompute(TODAY, &offsets, &rates());
    assert_eq!(dashboard.summary.unpriced_models, 0);
    assert_eq!(dashboard.summary.threads, 1);
    assert_ne!(dashboard.render().spend, "$0.0000");
    assert!(dashboard.render().warning.is_none());
}

#[test]
fn counts_too_large_for_the_page_are_told_beforehand() {
    let offsets = vec![0];
    for (input, cached, output, fits) in [
        (u64::MAX, 0, 0, true),
        (u64::MAX, 1, 0, false),
        (u64::MAX, 0, 1, false),
        (u64::MAX - 2, 1, 1, true),
    ] {
        let mut dashboard = UsageDashboard::new();
        let mut thread = row("m", 0, input);
        thread.usage.cache_read_input_tokens = cached;
        thread.usage.cache_creation_input_tokens = 0;
        thread.usage.output_tokens = output;
        dashboard.history_loaded(Some(vec![thread]), TODAY, &offsets, &RateMap::new());
        assert_eq!(dashboard.summary.fits_the_page(), fits);
    }
}
