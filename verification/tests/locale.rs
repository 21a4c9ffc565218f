use freemkv_i18n::{
    english_catalog, get, locale_candidates, locale_from_env, parse_catalog, two_letter_code,
    LocaleState,
};

#[test]
fn normalize_code_does_not_panic_on_multibyte() {
    for input in ["あx", "€a", "Ⓐb", "😀x", "あ", "", ".", "_", "@", "ñ"] {
        let code = two_letter_code(input);
        assert!(
            code == "en" || (code.len() == 2 && code.chars().all(|c| c.is_ascii_alphabetic())),
            "normalize_code({input:?}) = {code:?}: must be 'en' or a 2-letter ASCII code"
        );
    }
}

#[test]
fn normalize_code_extracts_language_part() {
    assert_eq!(two_letter_code("fr_FR.UTF-8"), "fr");
    assert_eq!(two_letter_code("de"), "de");
    assert_eq!(two_letter_code("PT_BR"), "pt");
    assert_eq!(two_letter_code("en-US"), "en");
    assert_eq!(two_letter_code("es.UTF-8@modifier"), "es");
    assert_eq!(two_letter_code("12"), "en");
    assert_eq!(two_letter_code("x"), "en");
}

#[test]
fn two_letter_code_trims_and_stops_at_every_separator() {
    assert_eq!(two_letter_code("  de_DE  "), "de");
    assert_eq!(two_letter_code("\tit:x"), "it");
    assert_eq!(two_letter_code("nl@euro"), "nl");
    assert_eq!(two_letter_code("deu"), "de");
    assert_eq!(two_letter_code("d-e"), "en");
    assert_eq!(two_letter_code("C"), "en");
}

#[test]
fn two_letter_code_lowercases_beyond_ascii() {
    // U+212A KELVIN SIGN lowercases to the ASCII letter `k`.
    assert_eq!(two_letter_code("\u{212A}a_XX"), "ka");
    // A dotted capital I lowercases to `i` plus a combining dot: not a code.
    assert_eq!(two_letter_code("\u{0130}t"), "en");
    // Non-breaking spaces are whitespace and are trimmed.
    assert_eq!(two_letter_code("\u{00A0}de\u{00A0}"), "de");
}

#[test]
fn locale_from_env_follows_posix_precedence() {
    assert_eq!(locale_from_env(Some("fr_FR.UTF-8"), Some("de_DE"), Some("es_ES")), Some("fr_FR.UTF-8"));
    assert_eq!(locale_from_env(None, Some("de_DE"), Some("es_ES")), Some("de_DE"));
    assert_eq!(locale_from_env(Some(""), None, Some("es_ES")), Some("es_ES"));
    assert_eq!(locale_from_env(None, None, None), None);
    assert_eq!(locale_from_env(None, None, Some("")), None);
    // C wins outright: it is not skipped in favour of LC_MESSAGES.
    assert_eq!(locale_from_env(Some("C"), Some("de_DE.UTF-8"), None), Some("C"));
}

#[test]
fn the_override_is_the_only_candidate() {
    assert_eq!(
        locale_candidates(Some("de"), Some("fr:it"), Some("es_ES"), None, None),
        vec!["de"]
    );
}

#[test]
fn gnu_language_comes_before_the_posix_selection() {
    assert_eq!(
        locale_candidates(None, Some("de:en"), None, None, Some("en_US.UTF-8")),
        vec!["de", "en", "en_US.UTF-8"]
    );
    assert_eq!(
        locale_candidates(None, Some(":sw::de:"), None, None, Some("en_US.UTF-8")),
        vec!["sw", "de", "en_US.UTF-8"]
    );
    assert_eq!(
        locale_candidates(None, Some(""), None, Some("fr_FR"), None),
        vec!["fr_FR"]
    );
}

#[test]
fn gnu_language_is_ignored_for_the_c_locale_or_no_locale() {
    assert_eq!(
        locale_candidates(None, Some("de:en"), Some("C"), Some("de_DE.UTF-8"), None),
        vec!["C"]
    );
    assert_eq!(locale_candidates(None, Some("de"), None, None, Some("POSIX")), vec!["POSIX"]);
    assert!(locale_candidates(None, Some("de:en"), None, None, None).is_empty());
    assert!(locale_candidates(None, None, Some(""), Some(""), Some("")).is_empty());
}

#[test]
fn a_second_override_is_reported_as_ignored() {
    let mut st = LocaleState::new();
    assert!(st.language_override().is_none());
    assert!(!st.set_language("de"));
    assert!(st.set_language("fr"), "a second override is refused and reported");
    assert_eq!(st.language_override(), Some("de"), "only the first override is kept");
}

#[test]
fn set_language_is_ignored_once_a_catalog_is_installed() {
    let mut st = LocaleState::new();
    st.install(english_catalog().expect("valid"));
    assert!(st.set_language("es"), "after init the override is ignored");
    assert!(st.language_override().is_none());
}

#[test]
fn the_last_installed_catalog_is_in_use() {
    let mut st = LocaleState::new();
    assert!(st.catalog().is_none());
    assert!(st.english().is_none());
    st.set_english(english_catalog().expect("valid"));
    st.install(parse_catalog(r#"{"k": "first"}"#).expect("valid"));
    st.install(parse_catalog(r#"{"k": "second"}"#).expect("valid"));
    let en = st.english().expect("kept");
    assert_eq!(get(st.catalog().expect("installed"), en, "k"), "second");
}

#[test]
fn each_untranslated_key_is_reported_once() {
    let mut st = LocaleState::new();
    assert!(st.first_report("disc.scanning"));
    assert!(!st.first_report("disc.scanning"));
    assert!(st.first_report("error.E1000"));
    assert!(!st.first_report("error.E1000"));
    assert!(!st.first_report("disc.scanning"));
}
