//! Which prices a document gives, and under which names.
use agent_usage::binary64::Binary64;
use agent_usage::model_rate_table::{
    entry_of_fields, entry_rate, field_price, lookup, parse_rate_table, rate_for, rate_table_of,
    read_entries, read_entry, resolve, unpriceable, usable, LiteLlmEntry, ProviderModel,
};
use agent_usage::rate::{LanguageModelCostInfo, ModelPricing, Rate, TokenUsage};
use agent_usage::rate_map::RateMap;
use serde_json::Value;

fn object(members: Vec<(&str, Value)>) -> Value {
    let mut map = serde_json::Map::new();
    for (name, value) in members {
        map.insert(name.to_string(), value);
    }
    Value::Object(map)
}

fn entry(input: f64, output: f64) -> Value {
    object(vec![
        ("input_cost_per_token", Value::from(input)),
        ("output_cost_per_token", Value::from(output)),
    ])
}

fn number(value: f64) -> Binary64 {
    Binary64 { bits: value.to_bits() }
}

fn float(value: Binary64) -> f64 {
    f64::from_bits(value.bits)
}

fn flat(price: f64) -> Rate {
    Rate {
        input: number(price),
        output: number(price),
        cache_read: number(price),
        cache_write: number(price),
    }
}

#[test]
fn drops_entries_missing_either_side_of_the_price() {
    let table = parse_rate_table(&object(vec![
        ("priced", entry(1e-6, 2e-6)),
        ("input-only", object(vec![("input_cost_per_token", Value::from(1e-6))])),
        ("output-only", object(vec![("output_cost_per_token", Value::from(2e-6))])),
        ("neither", object(vec![("max_tokens", Value::from(4096))])),
    ]));

    assert!(table.contains_key("priced"));
    assert_eq!(table.len(), 1);
}

#[test]
fn rejects_prices_that_are_not_real_numbers() {
    let table = parse_rate_table(&object(vec![
        ("negative", entry(-1.0, 2e-6)),
        (
            "stringly",
            object(vec![
                ("input_cost_per_token", Value::from("1e-6")),
                ("output_cost_per_token", Value::from(2e-6)),
            ]),
        ),
    ]));

    assert!(table.is_empty());
}

#[test]
fn cached_input_falls_back_to_the_input_price() {
    let table = parse_rate_table(&object(vec![("m", entry(3e-6, 15e-6))]));

    let rate = table.get("m").unwrap();
    assert_eq!(float(rate.cache_read), 3e-6);
    assert_eq!(float(rate.cache_write), 3e-6);
}

#[test]
fn aliases_a_bare_name_only_when_variants_agree() {
    let agreeing = parse_rate_table(&object(vec![
        ("vertex/same", entry(1e-6, 2e-6)),
        ("bedrock/same", entry(1e-6, 2e-6)),
    ]));
    assert!(agreeing.contains_key("same"));

    let conflicting = parse_rate_table(&object(vec![
        ("vertex/diff", entry(1e-6, 2e-6)),
        ("bedrock/diff", entry(9e-6, 2e-6)),
    ]));
    assert!(!conflicting.contains_key("diff"));
}

#[test]
fn a_canonical_entry_is_never_overwritten_by_an_alias() {
    let table = parse_rate_table(&object(vec![
        ("mistral", entry(1e-6, 1e-6)),
        ("anthropic/mistral", entry(5e-6, 5e-6)),
    ]));

    assert_eq!(float(table.get("mistral").unwrap().input), 1e-6);
}

#[test]
fn lookup_strips_variant_suffixes_and_is_case_insensitive() {
    let table = parse_rate_table(&object(vec![("mistral-x", entry(3e-6, 15e-6))]));

    assert!(lookup(&table, "Mistral-X[1m]").is_some());
    assert!(lookup(&table, "mistral-x").is_some());
}

#[test]
fn ambiguous_family_names_stay_unpriced() {
    let table = parse_rate_table(&object(vec![("opus", entry(1e-6, 1e-6))]));

    assert_eq!(lookup(&table, "opus"), None);
    assert_eq!(lookup(&table, "<synthetic>"), None);
}

#[test]
fn a_non_object_document_yields_no_rates() {
    let list = Value::Array(vec![Value::from("not"), Value::from("an"), Value::from("object")]);
    assert!(parse_rate_table(&list).is_empty());
    assert!(parse_rate_table(&Value::Null).is_empty());
    assert!(parse_rate_table(&Value::from(1.0)).is_empty());
    assert!(parse_rate_table(&Value::from("text")).is_empty());
    assert!(parse_rate_table(&Value::Bool(true)).is_empty());
}

#[test]
fn an_entry_is_read_with_all_its_prices() {
    let table = parse_rate_table(&object(vec![(
        "m",
        object(vec![
            ("input_cost_per_token", Value::from(3e-6)),
            ("output_cost_per_token", Value::from(15e-6)),
            ("cache_read_input_token_cost", Value::from(3e-7)),
            ("cache_creation_input_token_cost", Value::from(3.75e-6)),
            ("litellm_provider", Value::from("somebody")),
        ]),
    )]));
    let rate = table.get("m").unwrap();
    assert_eq!(float(rate.input), 3e-6);
    assert_eq!(float(rate.output), 15e-6);
    assert_eq!(float(rate.cache_read), 3e-7);
    assert_eq!(float(rate.cache_write), 3.75e-6);
}

#[test]
fn only_the_four_prices_of_an_entry_count() {
    let plain = entry(3e-6, 15e-6);
    let decorated = object(vec![
        ("mode", Value::from("chat")),
        ("output_cost_per_token", Value::from(15e-6)),
        ("input_cost_per_token", Value::from(3e-6)),
        ("tiers", Value::Array(vec![Value::Null, Value::from(1)])),
    ]);
    let one = read_entry(&plain).unwrap();
    let other = read_entry(&decorated).unwrap();
    assert_eq!(entry_rate(&one), entry_rate(&other));
    assert!(entry_rate(&one).is_some());
}

#[test]
fn whole_numbers_and_nulls_are_prices_too() {
    let table = parse_rate_table(&object(vec![
        (
            "free",
            object(vec![
                ("input_cost_per_token", Value::from(0)),
                ("output_cost_per_token", Value::from(7u64)),
                ("cache_read_input_token_cost", Value::Null),
                ("cache_creation_input_token_cost", Value::from(-1)),
            ]),
        ),
        (
            "null",
            object(vec![
                ("input_cost_per_token", Value::Null),
                ("output_cost_per_token", Value::from(1.0)),
            ]),
        ),
        (
            "broken",
            object(vec![
                ("input_cost_per_token", Value::from(1.0)),
                ("output_cost_per_token", Value::from(1.0)),
                ("cache_read_input_token_cost", Value::Bool(true)),
            ]),
        ),
    ]));
    assert_eq!(table.len(), 1);
    let rate = table.get("free").unwrap();
    assert_eq!(float(rate.input), 0.0);
    assert_eq!(float(rate.output), 7.0);
    assert_eq!(float(rate.cache_read), 0.0);
    assert_eq!(float(rate.cache_write), 0.0);
}

#[test]
fn an_entry_may_be_a_list_of_four_prices() {
    let four = Value::Array(vec![
        Value::from(1e-6),
        Value::from(2e-6),
        Value::Null,
        Value::from(3e-6),
    ]);
    let three = Value::Array(vec![Value::from(1e-6), Value::from(2e-6), Value::Null]);
    let five = Value::Array(vec![
        Value::from(1e-6),
        Value::from(2e-6),
        Value::Null,
        Value::Null,
        Value::Null,
    ]);
    let table = parse_rate_table(&object(vec![("four", four), ("three", three), ("five", five)]));
    assert_eq!(table.len(), 1);
    let rate = table.get("four").unwrap();
    assert_eq!(float(rate.cache_read), 1e-6);
    assert_eq!(float(rate.cache_write), 3e-6);
}

#[test]
fn what_is_not_an_entry_is_left_out() {
    let document = object(vec![
        ("text", Value::from("1e-6")),
        ("number", Value::from(1e-6)),
        ("null", Value::Null),
        ("kept", entry(1e-6, 1e-6)),
    ]);
    let entries = read_entries(&document);
    assert_eq!(entries.len(), 1);
    assert_eq!(entries[0].0, "kept");
    assert_eq!(parse_rate_table(&document).len(), 1);
}

#[test]
fn names_are_normalized_and_the_later_entry_counts() {
    let table = parse_rate_table(&object(vec![
        ("Model-A", entry(1e-6, 1e-6)),
        (" model-a\t", entry(2e-6, 2e-6)),
        ("   ", entry(3e-6, 3e-6)),
    ]));
    assert_eq!(table.len(), 1);
    assert_eq!(float(table.get("model-a").unwrap().input), 2e-6);
}

#[test]
fn a_later_entry_without_prices_changes_nothing() {
    let table = parse_rate_table(&object(vec![
        ("model-a", entry(1e-6, 1e-6)),
        ("MODEL-A", object(vec![("input_cost_per_token", Value::from(9e-6))])),
    ]));
    assert_eq!(float(table.get("model-a").unwrap().input), 1e-6);
}

#[test]
fn aliases_reach_through_nested_prefixes() {
    let table = parse_rate_table(&object(vec![
        ("region/vendor/deep", entry(1e-6, 2e-6)),
        ("vendor/trailing/", entry(1e-6, 2e-6)),
    ]));
    assert!(table.contains_key("region/vendor/deep"));
    assert!(table.contains_key("deep"));
    assert!(!table.contains_key("vendor/deep"));
    assert!(table.contains_key("vendor/trailing/"));
    assert!(!table.contains_key(""));
    assert_eq!(table.len(), 3);
}

#[test]
fn zeros_of_either_sign_agree() {
    let table = parse_rate_table(&object(vec![
        ("a/zero", entry(0.0, 1e-6)),
        ("b/zero", entry(-0.0, 1e-6)),
    ]));
    assert!(table.contains_key("zero"));
}

#[test]
fn a_conflict_is_not_settled_by_a_third_entry() {
    let table = parse_rate_table(&object(vec![
        ("a/m", entry(1e-6, 1e-6)),
        ("b/m", entry(2e-6, 1e-6)),
        ("c/m", entry(1e-6, 1e-6)),
        ("d/m", entry(2e-6, 1e-6)),
    ]));
    assert!(!table.contains_key("m"));
    assert_eq!(table.len(), 4);
}

#[test]
fn entries_make_the_same_table_without_a_document() {
    let priced = LiteLlmEntry {
        input_cost_per_token: Some(number(1.0)),
        output_cost_per_token: Some(number(2.0)),
        cache_read_input_token_cost: Some(number(f64::NAN)),
        cache_creation_input_token_cost: Some(number(f64::INFINITY)),
    };
    let half = LiteLlmEntry {
        input_cost_per_token: Some(number(1.0)),
        output_cost_per_token: Some(number(f64::NEG_INFINITY)),
        cache_read_input_token_cost: None,
        cache_creation_input_token_cost: None,
    };
    let table = rate_table_of(&vec![
        ("Vendor/Whole".to_string(), priced),
        ("half".to_string(), half),
    ]);
    assert_eq!(table.len(), 2);
    let rate = table.get("whole").unwrap();
    assert_eq!(Some(rate), table.get("vendor/whole"));
    assert_eq!(float(rate.cache_read), 1.0);
    assert_eq!(float(rate.cache_write), 1.0);
}

#[test]
fn usable_prices_are_finite_and_not_negative() {
    for price in [0.0, -0.0, 1e-6, f64::MAX, f64::MIN_POSITIVE] {
        assert_eq!(usable(Some(number(price))).unwrap().bits, price.to_bits());
    }
    for price in [-1e-300, f64::NAN, f64::INFINITY, f64::NEG_INFINITY] {
        assert!(usable(Some(number(price))).is_none());
    }
    assert!(usable(None).is_none());
}

#[test]
fn fields_make_an_entry_when_all_are_readable() {
    assert!(field_price(true, None).unwrap().is_none());
    assert_eq!(field_price(false, Some(5)).unwrap().unwrap().bits, 5);
    assert!(field_price(false, None).is_none());
    let one = Some(Some(number(1.0)));
    let entry = entry_of_fields(one, one, Some(None), one).unwrap();
    assert!(entry.cache_read_input_token_cost.is_none());
    assert_eq!(float(entry.cache_creation_input_token_cost.unwrap()), 1.0);
    assert!(entry_of_fields(one, None, one, one).is_none());
}

#[test]
fn every_family_name_is_unpriceable() {
    let mut rates = RateMap::new();
    for name in ["opus", "sonnet", "haiku", "fable", "synthetic", "<synthetic>"] {
        rates.insert(name.to_string(), flat(1.0));
        rates.insert(format!("vendor/{name}"), flat(1.0));
        assert!(unpriceable(name));
        assert_eq!(lookup(&rates, name), None);
        assert_eq!(lookup(&rates, &format!("vendor/{name}")), None);
        assert_eq!(lookup(&rates, &name.to_uppercase()), None);
    }
    assert!(!unpriceable("opus-5"));
    assert!(!unpriceable(""));
}

#[test]
fn lookups_ignore_white_space_case_and_variants() {
    let mut rates = RateMap::new();
    rates.insert("vendor/model-x".to_string(), flat(1.0));
    for id in ["vendor/model-x", " Vendor/Model-X ", "VENDOR/MODEL-X [1m]", "vendor/model-x[[]"] {
        assert_eq!(rate_for(&rates, id), Some(flat(1.0)), "{id}");
    }
    for id in ["model-x", "", "[1m]", "  ", "vendor/model-x]"] {
        assert_eq!(rate_for(&rates, id), None, "{id}");
    }
}

#[test]
fn settings_come_before_providers_and_providers_before_the_table() {
    let mut fetched = RateMap::new();
    for name in ["a", "b", "c"] {
        fetched.insert(name.to_string(), flat(1.0));
    }
    let offered = LanguageModelCostInfo::TokenCost {
        input_token_cost_per_1m: number(2_000_000.0),
        output_token_cost_per_1m: number(4_000_000.0),
    };
    let per_request = LanguageModelCostInfo::RequestCost { cost_per_request: number(1.0) };
    let models = vec![
        ProviderModel { id: "A".to_string(), cost_info: Some(offered) },
        ProviderModel { id: "b".to_string(), cost_info: Some(offered) },
        ProviderModel { id: "c".to_string(), cost_info: Some(per_request) },
        ProviderModel { id: "d".to_string(), cost_info: None },
    ];
    let pricing = vec![(
        " A ".to_string(),
        ModelPricing {
            input: 3_000_000f32.to_bits(),
            output: 6_000_000f32.to_bits(),
            cache_read: None,
            cache_write: Some(9_000_000f32.to_bits()),
        },
    )];
    let rates = resolve(Some(&fetched), &models, &pricing);
    assert_eq!(rates.len(), 3);
    let a = rate_for(&rates, "a").unwrap();
    assert_eq!(float(a.input), 3.0);
    assert_eq!(float(a.output), 6.0);
    assert_eq!(float(a.cache_read), 3.0);
    assert_eq!(float(a.cache_write), 9.0);
    let b = rate_for(&rates, "b").unwrap();
    assert_eq!(float(b.input), 2.0);
    assert_eq!(float(b.output), 4.0);
    assert_eq!(float(b.cache_read), 2.0);
    assert_eq!(float(b.cache_write), 2.0);
    assert_eq!(rate_for(&rates, "c"), Some(flat(1.0)));
    assert_eq!(rate_for(&rates, "d"), None);
    assert_eq!(fetched.len(), 3);
    assert_eq!(fetched.get("a"), Some(flat(1.0)));

    let alone = resolve(None, &models, &pricing);
    assert_eq!(alone.len(), 2);
    assert!(resolve(None, &Vec::new(), &Vec::new()).is_empty());
}

#[test]
fn costs_are_added_up_as_the_machine_does() {
    let usage = TokenUsage {
        input_tokens: 1_234_567,
        output_tokens: 89_012,
        cache_creation_input_tokens: 3_456_789,
        cache_read_input_tokens: 98_765_432_109,
    };
    let rate = Rate {
        input: number(3.0 / 1_000_000.0),
        output: number(15.0 / 1_000_000.0),
        cache_read: number(0.3 / 1_000_000.0),
        cache_write: number(3.75 / 1_000_000.0),
    };
    let cost = 1_234_567f64 * (3.0 / 1_000_000.0)
        + 89_012f64 * (15.0 / 1_000_000.0)
        + 98_765_432_109f64 * (0.3 / 1_000_000.0)
        + 3_456_789f64 * (3.75 / 1_000_000.0);
    assert_eq!(rate.cost(&usage).bits, cost.to_bits());
    let saved = 98_765_432_109f64 * (3.0 / 1_000_000.0 - 0.3 / 1_000_000.0);
    assert_eq!(rate.cache_savings(&usage).bits, saved.to_bits());
}

#[test]
fn without_a_discount_nothing_is_saved() {
    let usage = TokenUsage { cache_read_input_tokens: 12_345, ..TokenUsage::default() };
    assert_eq!(float(flat(3e-6).cache_savings(&usage)), 0.0);
    assert_eq!(float(flat(0.0).cache_savings(&usage)), 0.0);
}

#[test]
fn settings_and_provider_prices_are_per_million() {
    for price in [0.0f32, 0.3, 3.0, 15.0, 1e-40, f32::MAX, f32::MIN_POSITIVE, -1.5] {
        let rate = Rate::from_settings(&ModelPricing {
            input: price.to_bits(),
            output: price.to_bits(),
            cache_read: Some(price.to_bits()),
            cache_write: None,
        });
        let wanted = f64::from(price) / 1_000_000.0;
        for part in [rate.input, rate.output, rate.cache_read, rate.cache_write] {
            assert_eq!(part.bits, wanted.to_bits(), "{price}");
        }
    }
    let rate = Rate::from_provider(&LanguageModelCostInfo::TokenCost {
        input_token_cost_per_1m: number(0.1),
        output_token_cost_per_1m: number(0.7),
    })
    .unwrap();
    assert_eq!(float(rate.input), 0.1 / 1_000_000.0);
    assert_eq!(float(rate.output), 0.7 / 1_000_000.0);
    assert_eq!(float(rate.cache_read), 0.1 / 1_000_000.0);
    assert!(Rate::from_provider(&LanguageModelCostInfo::RequestCost {
        cost_per_request: number(1.0)
    })
    .is_none());
}

#[test]
fn rates_compare_as_numbers() {
    assert!(flat(0.0) == flat(-0.0));
    assert!(flat(1.0) != flat(2.0));
    assert!(flat(f64::NAN) != flat(f64::NAN));
    let mut other = flat(1.0);
    other.cache_write = number(2.0);
    assert!(other != flat(1.0));
}

#[test]
fn a_rate_map_keeps_names_in_the_order_of_insertion() {
    let mut rates = RateMap::new();
    assert!(rates.is_empty());
    for name in ["z", "a", "m"] {
        rates.insert(name.to_string(), flat(1.0));
    }
    rates.insert("a".to_string(), flat(2.0));
    assert_eq!(rates.len(), 3);
    assert_eq!(rates.get("a"), Some(flat(2.0)));
    assert_eq!(rates.get("q"), None);
    assert!(rates.contains_key("m") && !rates.contains_key("M"));
    assert_eq!(rates.at(0).0, "z");
    assert_eq!(rates.at(1).0, "a");
    assert_eq!(rates.at(2).0, "m");
    let copy = rates.duplicate();
    rates.insert("new".to_string(), flat(1.0));
    assert_eq!(copy.len(), 3);
}

#[test]
fn documents_that_agree_in_their_prices_give_one_table() {
    let plain = object(vec![
        ("a/m", entry(1e-6, 2e-6)),
        ("b/m", entry(1e-6, 2e-6)),
        ("other", Value::Array(vec![Value::from(1), Value::from(2), Value::Null, Value::Null])),
    ]);
    let decorate = |mode: &str| {
        object(vec![
            ("mode", Value::from(mode)),
            ("output_cost_per_token", Value::from(2e-6)),
            ("input_cost_per_token", Value::from(1e-6)),
        ])
    };
    let decorated = object(vec![
        ("a/m", decorate("chat")),
        ("b/m", decorate("embedding")),
        ("other", Value::Array(vec![Value::from(1), Value::from(2), Value::Null, Value::Null])),
    ]);
    let one = parse_rate_table(&plain);
    let other = parse_rate_table(&decorated);
    assert_eq!(one.len(), 4);
    assert_eq!(other.len(), 4);
    for name in ["a/m", "b/m", "m", "other"] {
        assert!(one.get(name).is_some());
        assert_eq!(one.get(name), other.get(name));
    }
}

#[test]
fn any_variant_of_any_name_has_its_rate() {
    let mut rates = RateMap::new();
    rates.insert("m".to_string(), flat(1.0));
    for id in ["m", "M", "m[a", "m[a]", " m ", "\u{3000}M\u{A0}", "m[é", "none", ""] {
        for variant in ["", "1m", "[", "]", "x]y[", "日本"] {
            let longer = format!("{id}[{variant}]");
            assert_eq!(rate_for(&rates, &longer), rate_for(&rates, id), "{longer}");
            assert_eq!(lookup(&rates, &longer), rate_for(&rates, id));
        }
        assert_eq!(rate_for(&rates, &id.to_ascii_uppercase()), rate_for(&rates, id));
    }
}

#[test]
fn savings_are_the_cost_without_the_discount_less_the_cost() {
    // Quarters, so that nothing is rounded.
    let rate = Rate {
        input: number(0.75),
        output: number(2.5),
        cache_read: number(0.25),
        cache_write: number(1.25),
    };
    let full = Rate { cache_read: rate.input, ..rate };
    let mut usage = TokenUsage {
        input_tokens: 1_234,
        output_tokens: 567,
        cache_creation_input_tokens: 89,
        cache_read_input_tokens: 4_321,
    };
    let saved = float(rate.cache_savings(&usage));
    assert_eq!(saved, 4_321.0 * 0.5);
    assert_eq!(saved, float(full.cost(&usage)) - float(rate.cost(&usage)));
    usage.input_tokens = 0;
    usage.output_tokens = u64::MAX;
    usage.cache_creation_input_tokens = 7;
    assert_eq!(float(rate.cache_savings(&usage)), saved);
    let dearer = Rate { cache_read: number(1.0), ..rate };
    assert_eq!(float(dearer.cache_savings(&usage)), -4_321.0 * 0.25);
    usage.cache_read_input_tokens = 0;
    assert_eq!(float(rate.cache_savings(&usage)), 0.0);
    assert_eq!(float(dearer.cache_savings(&usage)), 0.0);
}
