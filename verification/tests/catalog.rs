use freemkv_i18n::message::tidy_empty_slots;
use freemkv_i18n::{
    bundled_locale_json, english_catalog, error_message, error_message_with, fmt, get,
    parse_catalog, placeholders, Catalog, SHIPPED_CODES,
};

fn english() -> Catalog {
    english_catalog().expect("en.json invalid")
}

fn empty() -> Catalog {
    parse_catalog("{}").expect("valid")
}

#[test]
fn locale_en_loads() {
    let _ = english_catalog().expect("en.json invalid");
}

/// Every key path of a JSON value that leads to a string, dotted.
fn collect_keys(value: &serde_json::Value, prefix: &str, out: &mut Vec<String>) {
    match value {
        serde_json::Value::Object(map) => {
            for (k, v) in map {
                let path = if prefix.is_empty() { k.clone() } else { format!("{prefix}.{k}") };
                collect_keys(v, &path, out);
            }
        }
        serde_json::Value::String(_) => out.push(prefix.to_string()),
        _ => {}
    }
}

fn verify_locale(code: &str) {
    let data = bundled_locale_json(code).unwrap_or_else(|| panic!("{code} should be bundled"));
    let loc = parse_catalog(data).unwrap_or_else(|e| panic!("{code}.json invalid: {e}"));
    let en = english();
    let en_json: serde_json::Value = serde_json::from_str(freemkv_i18n::LOCALE_EN).unwrap();
    let loc_json: serde_json::Value = serde_json::from_str(data).unwrap();
    let mut en_keys = Vec::new();
    collect_keys(&en_json, "", &mut en_keys);
    let mut loc_keys = Vec::new();
    collect_keys(&loc_json, "", &mut loc_keys);
    assert!(!en_keys.is_empty());
    assert_eq!(loc_keys, en_keys, "{code}.json must hold exactly the English keys");
    for key in &en_keys {
        let en_val = get(&en, &en, key);
        let loc_val = get(&loc, &empty(), key);
        assert_ne!(&loc_val, key, "{code}.json is missing key '{key}'");
        assert!(!loc_val.trim().is_empty(), "{code}.json key '{key}' is blank");
        // Placeholders must agree in both directions.
        for p in placeholders(&en_val) {
            assert!(loc_val.contains(&p), "{code}.json key '{key}': missing placeholder {p} (got: '{loc_val}')");
        }
        for p in placeholders(&loc_val) {
            assert!(en_val.contains(&p), "{code}.json key '{key}': extra placeholder {p} (got: '{loc_val}')");
        }
    }
}

#[test]
fn locale_es_loads() {
    verify_locale("es");
}

#[test]
fn locale_fr_loads() {
    verify_locale("fr");
}

#[test]
fn locale_de_loads() {
    verify_locale("de");
}

#[test]
fn locale_it_loads() {
    verify_locale("it");
}

#[test]
fn locale_pt_loads() {
    verify_locale("pt");
}

#[test]
fn locale_nl_loads() {
    verify_locale("nl");
}

#[test]
fn every_shipped_code_has_a_complete_catalog() {
    for code in SHIPPED_CODES {
        verify_locale(code);
    }
    assert_eq!(SHIPPED_CODES.len(), 10);
}

#[test]
fn bundled_locale_json_returns_shipped_languages() {
    for code in ["en", "es", "fr", "de", "it", "pt", "nl"] {
        let data = bundled_locale_json(code).unwrap_or_else(|| panic!("{code} should be bundled"));
        let _ = parse_catalog(data).unwrap_or_else(|e| panic!("{code}.json invalid: {e}"));
    }
    assert!(bundled_locale_json("zz").is_none());
}

#[test]
fn bundled_codes_are_internal_codes_only() {
    for code in ["zh-hans", "zh-hant", "pt-br"] {
        assert!(bundled_locale_json(code).is_some(), "{code}");
    }
    assert!(bundled_locale_json("EN").is_none());
    assert!(bundled_locale_json("pt_BR").is_none());
    assert!(bundled_locale_json("zh").is_none());
    assert!(bundled_locale_json("").is_none());
    let en = english();
    let zh = parse_catalog(bundled_locale_json("zh-hans").unwrap()).unwrap();
    assert_ne!(get(&zh, &en, "app.opt_quiet"), get(&en, &en, "app.opt_quiet"));
}

#[test]
fn open_failed_key_exists_and_fills_placeholders() {
    let en = english();
    let val = get(&en, &en, "error.open_failed");
    assert_ne!(
        val, "error.open_failed",
        "error.open_failed missing from en.json (lookup returned the key verbatim)"
    );
    let ph = placeholders(&val);
    assert!(
        ph.contains(&"{device}".to_string()) && ph.contains(&"{error}".to_string()),
        "error.open_failed must contain {{device}} and {{error}} placeholders, got: '{}'",
        val
    );
    let out = fmt(
        &en,
        &en,
        "error.open_failed",
        &[("device", "/dev/sg0"), ("error", "permission denied")],
    );
    assert!(out.contains("/dev/sg0"), "device not substituted: '{}'", out);
    assert!(out.contains("permission denied"), "error not substituted: '{}'", out);
    assert!(!out.contains("{device}") && !out.contains("{error}"));
    assert_ne!(out, "error.open_failed");
}

// The message for a bare error code drops the placeholder the caller cannot
// fill (the disc id of E7022) instead of showing it.
#[test]
fn error_message_returns_real_string_not_key_path() {
    let en = english();
    let msg = error_message(&en, &en, 7022);
    assert_ne!(
        msg, "error.E7022",
        "error_message(7022) returned the key path — the string is missing or the key format is wrong"
    );
    assert!(
        !msg.contains("{hash}"),
        "error_message(7022) must not show the {{hash}} placeholder, got: '{}'",
        msg
    );
    assert_eq!(msg, "No key source has a decryption key for this disc");
    assert_ne!(error_message(&en, &en, 1000), "error.E1000");
    assert_eq!(error_message(&en, &en, 999_999), "error.E999999");
}

#[test]
fn error_message_drops_and_tidies_unfilled_placeholders() {
    let en = english();
    assert_eq!(error_message(&en, &en, 1000), "Drive not found");
    assert_eq!(error_message_with(&en, &en, 1000, "/dev/sr0"), "Drive not found: /dev/sr0");
    assert_eq!(
        error_message_with(&en, &en, 7022, "x"),
        "No key source has a decryption key for this disc"
    );
    let c = parse_catalog(
        r#"{"error": {"E1": "Open '{path}' failed", "E2": "Bad sector ({detail}) at {path}.",
            "E3": "读取失败（{detail}）", "E4": "{detail}", "E5": "a {{x}} b", "E6": "x  { y"}}"#,
    )
    .expect("valid");
    assert_eq!(error_message(&c, &c, 1), "Open failed");
    assert_eq!(error_message(&c, &c, 2), "Bad sector at.");
    assert_eq!(error_message_with(&c, &c, 2, "12"), "Bad sector (12) at.");
    assert_eq!(error_message(&c, &c, 3), "读取失败");
    assert_eq!(error_message(&c, &c, 4), "");
    assert_eq!(error_message_with(&c, &c, 4, "{path}"), "{path}");
    // Nothing dropped: the text is left exactly as it is.
    assert_eq!(error_message(&c, &c, 6), "x  { y");
    assert_eq!(error_message(&c, &c, 5), "a {} b");
}

#[test]
fn get_walks_the_dotted_path_and_returns_the_path_on_a_miss() {
    let c = parse_catalog(r#"{"a": {"b": "leaf", "n": 3, "o": {"x": "deep"}}, "top": "t"}"#)
        .expect("valid");
    let e = empty();
    assert_eq!(get(&c, &e, "a.b"), "leaf");
    assert_eq!(get(&c, &e, "a.o.x"), "deep");
    assert_eq!(get(&c, &e, "top"), "t");
    assert_eq!(get(&c, &e, "a.n"), "a.n");
    assert_eq!(get(&c, &e, "a.o"), "a.o");
    assert_eq!(get(&c, &e, "a.zz"), "a.zz");
    assert_eq!(get(&c, &e, "top.x"), "top.x");
    assert_eq!(get(&c, &e, ""), "");
    assert_eq!(get(&c, &e, "a..b"), "a..b");
}

#[test]
fn get_falls_back_to_english_key_by_key() {
    let en = english();
    let de = parse_catalog(
        r#"{"app": {"opt_quiet": "Nur Fehler", "opt_verbose": "", "unknown_option": " \t\u00a0"}}"#,
    )
    .expect("valid");
    assert_eq!(get(&de, &en, "app.opt_quiet"), "Nur Fehler");
    // Missing and blank values are misses: the English string is served.
    assert_eq!(get(&de, &en, "disc.scanning"), "Scanning disc...");
    assert_eq!(get(&de, &en, "app.opt_verbose"), "Print detailed progress");
    assert_eq!(get(&de, &en, "app.unknown_option"), "Unknown option: {opt}");
    // Neither has it: the path.
    assert_eq!(get(&de, &en, "no.such.key.anywhere"), "no.such.key.anywhere");
    // A blank English value is not served either.
    let blank_en = parse_catalog(r#"{"k": " "}"#).expect("valid");
    assert_eq!(get(&empty(), &blank_en, "k"), "k");
}

#[test]
fn parse_catalog_reports_the_parser_message() {
    for text in ["{ not json", "", "[1, 2", "{\"a\": }"] {
        let expected = serde_json::from_str::<serde_json::Value>(text).unwrap_err().to_string();
        match parse_catalog(text) {
            Err(e) => assert_eq!(e, expected),
            Ok(_) => panic!("{text:?} is not JSON"),
        }
    }
}

#[test]
fn parse_catalog_rejects_text_that_is_not_json() {
    assert!(parse_catalog("{ not json").is_err());
    assert!(parse_catalog("").is_err());
    let c = parse_catalog("\"just a string\"").expect("a JSON string is a document");
    assert_eq!(get(&c, &c, "x"), "x");
}

#[test]
fn error_message_keys_by_decimal_code() {
    let c = parse_catalog(r#"{"error": {"E0": "zero", "E42": "answer", "E4294967295": "max"}}"#)
        .expect("valid");
    assert_eq!(error_message(&c, &c, 0), "zero");
    assert_eq!(error_message(&c, &c, 42), "answer");
    assert_eq!(error_message(&c, &c, u32::MAX), "max");
    assert_eq!(error_message(&c, &c, 7), "error.E7");
}

#[test]
fn fmt_substitutes_every_occurrence_in_one_pass() {
    let c = parse_catalog(r#"{"m": "{a} and {b} and {a}", "plain": "no slots here"}"#).expect("valid");
    assert_eq!(fmt(&c, &c, "m", &[("a", "1"), ("b", "2")]), "1 and 2 and 1");
    assert_eq!(fmt(&c, &c, "m", &[("a", "{b}"), ("b", "2")]), "{b} and 2 and {b}");
    assert_eq!(fmt(&c, &c, "m", &[("b", "2")]), "{a} and 2 and {a}");
    assert_eq!(fmt(&c, &c, "m", &[]), get(&c, &c, "m"));
    assert_eq!(fmt(&c, &c, "plain", &[("a", "x")]), "no slots here");
    assert_eq!(fmt(&c, &c, "missing.{a}", &[("a", "x")]), "missing.x");
}

#[test]
fn fmt_first_matching_argument_wins() {
    let c = parse_catalog(r#"{"m": "<{k}>"}"#).expect("valid");
    assert_eq!(fmt(&c, &c, "m", &[("k", "first"), ("k", "second")]), "<first>");
}

#[test]
fn fmt_goes_through_the_english_fallback() {
    let en = english();
    let de = parse_catalog(bundled_locale_json("de").unwrap()).unwrap();
    let out = fmt(&de, &en, "app.unknown_option", &[("opt", "--nope")]);
    assert_eq!(out, "Unbekannte Option: --nope");
    let partial = parse_catalog("{}").unwrap();
    assert_eq!(fmt(&partial, &en, "app.unknown_option", &[("opt", "-x")]), "Unknown option: -x");
}

#[test]
fn placeholders_skips_doubled_braces() {
    assert_eq!(placeholders("hi {name}!"), vec!["{name}".to_string()]);
    assert_eq!(placeholders("a {x} b {y}"), vec!["{x}", "{y}"]);
    assert!(placeholders("{{val}}").is_empty());
    assert_eq!(placeholders("{{lit}} {real}"), vec!["{real}".to_string()]);
    assert!(placeholders("no placeholders").is_empty());
}

#[test]
fn placeholders_ignore_nested_and_unclosed_braces() {
    assert!(placeholders("{a{b}").is_empty());
    assert!(placeholders("open { never closed").is_empty());
    assert_eq!(placeholders("{} {é}"), vec!["{}", "{é}"]);
    assert_eq!(placeholders("x{a}}y{b}"), vec!["{a}", "{b}"]);
}

#[test]
fn tidy_empty_slots_cleans_what_a_dropped_placeholder_leaves() {
    let tidy = |s: &str| -> String { tidy_empty_slots(&s.chars().collect()).into_iter().collect() };
    assert_eq!(tidy("No key for this disc (id: )"), "No key for this disc");
    assert_eq!(tidy("Open '' failed"), "Open failed");
    assert_eq!(tidy("读取失败（）"), "读取失败");
    assert_eq!(tidy("Drive not found: "), "Drive not found");
    assert_eq!(tidy("a  ,  b"), "a, b");
    assert_eq!(tidy("( x )"), "(x)");
    assert_eq!(tidy("plain"), "plain");
}

#[test]
fn is_whitespace_agrees_with_std_on_every_char() {
    for n in 0u32..=0x10FFFF {
        if let Some(c) = char::from_u32(n) {
            assert_eq!(freemkv_i18n::text::is_whitespace(c), c.is_whitespace(), "U+{n:04X}");
        }
    }
}
