//! Names, held against the standard library.
use agent_usage::text::{bare_name, normalize_key, strip_variant};

#[test]
fn keys_are_trimmed_and_in_lower_case() {
    assert_eq!(normalize_key("  Mistral-X\n"), "mistral-x");
    assert_eq!(normalize_key(""), "");
    assert_eq!(normalize_key("\u{3000}\u{A0}"), "");
    assert_eq!(normalize_key("ÄÖ Σ"), "ÄÖ Σ".trim().to_lowercase());
    for code in 0..0x11_0000u32 {
        if let Some(c) = char::from_u32(code) {
            let name = format!("{c}Ab{c}");
            assert_eq!(normalize_key(&name), name.trim().to_lowercase());
        }
    }
}

#[test]
fn the_bare_name_follows_the_last_slash() {
    assert_eq!(bare_name("anthropic/mistral-x"), "mistral-x");
    assert_eq!(bare_name("mistral-x"), "mistral-x");
    assert_eq!(bare_name("a/b/c"), "c");
    assert_eq!(bare_name("a/"), "");
    assert_eq!(bare_name("/"), "");
    assert_eq!(bare_name(""), "");
    assert_eq!(bare_name("é/ü/日本"), "日本");
}

#[test]
fn a_variant_begins_at_the_first_bracket() {
    assert_eq!(strip_variant("mistral-fable-5-1[1m]"), "mistral-fable-5-1");
    assert_eq!(strip_variant("plain"), "plain");
    assert_eq!(strip_variant("[x]"), "");
    assert_eq!(strip_variant("a[b[c"), "a");
    assert_eq!(strip_variant("日本[é]"), "日本");
    assert_eq!(strip_variant("a]b"), "a]b");
    assert_eq!(strip_variant(""), "");
}

#[test]
fn normal_forms_leave_out_case_and_surrounding_space() {
    for name in ["Mistral-X", "a b\tC", "", " \n", "x", "  Two  Words ", "\u{3000}Wide\u{A0}"] {
        let key = normalize_key(name);
        assert_eq!(normalize_key(&key), key);
        assert_eq!(normalize_key(&format!(" {name}\n")), key);
        assert_eq!(normalize_key(&name.to_ascii_uppercase()), key);
        assert_eq!(key.trim(), key);
        assert_eq!(key.is_empty(), name.trim().is_empty());
    }
    assert_eq!(normalize_key("  Two  Words "), "two  words");
}
