use freemkv_i18n::{
    bundled_locale_json, english_catalog, error_message, error_message_with, fmt, get,
    locale_candidate_paths, locale_candidates, parse_catalog, Catalog, LocaleState, ResolveStep,
    Resolver,
};

fn bundled(code: &str, key: &str) -> String {
    let raw = bundled_locale_json(code).unwrap_or_else(|| panic!("{code} is not bundled"));
    let c = parse_catalog(raw).expect("bundled catalog parses");
    let none = parse_catalog("{}").unwrap();
    get(&c, &none, key)
}

/// Resolves the candidate tags with an empty disk, as the process does when
/// no catalog file is installed.
fn resolve(candidates: &[&str]) -> (Catalog, bool) {
    let cands: Vec<String> = candidates.iter().map(|s| s.to_string()).collect();
    let r = Resolver::new(&cands);
    let mut step = r.visit(0);
    loop {
        match step {
            ResolveStep::Found(c) => return (c, false),
            ResolveStep::English(c, asked) => return (c, asked),
            ResolveStep::SearchDisk(i) => step = r.after_disk(i, None),
            ResolveStep::Invalid(e) => panic!("invalid bundled catalog: {e}"),
        }
    }
}

fn switch(st: &mut LocaleState, tag: &str) {
    let (c, _) = resolve(&[tag]);
    st.install(c);
}

fn st_get(st: &LocaleState, key: &str) -> String {
    get(st.catalog().unwrap(), st.english().unwrap(), key)
}

#[test]
fn the_startup_and_live_switch_paths_select_the_right_catalog() {
    const KEY: &str = "app.opt_quiet";
    let english = bundled("en", KEY);
    let mut st = LocaleState::new();
    st.set_english(english_catalog().unwrap());

    // 1. --language, applied before anything reads a string.
    assert!(!st.set_language("de"));
    let cands = locale_candidates(st.language_override(), Some("fr"), None, None, Some("it_IT"));
    let refs: Vec<&str> = cands.iter().map(|s| s.as_str()).collect();
    let (c, _) = resolve(&refs);
    st.install(c);
    assert_eq!(st_get(&st, KEY), bundled("de", KEY), "--language de did not select the German catalog");

    // 2. A full BCP-47 tag walks its chain down to the script catalog.
    let simplified = bundled("zh-hans", KEY);
    let traditional = bundled("zh-hant", KEY);
    for tag in ["zh-Hans-CN", "zh_Hans_SG.UTF-8", "zh-Hans"] {
        switch(&mut st, tag);
        let got = st_get(&st, KEY);
        assert_ne!(got, english, "{tag} silently fell back to English");
        assert_eq!(got, simplified, "{tag} must land on the Simplified catalog");
    }
    for tag in ["zh-Hant-TW", "zh-Hant-HK", "zh_TW"] {
        switch(&mut st, tag);
        assert_eq!(st_get(&st, KEY), traditional, "{tag} must land on the Traditional catalog");
    }

    // 3. Region -> base language, and the live switch.
    switch(&mut st, "pt-BR");
    assert_eq!(st_get(&st, KEY), bundled("pt-br", KEY));
    switch(&mut st, "pt-PT");
    assert_eq!(st_get(&st, KEY), bundled("pt", KEY));
    switch(&mut st, "fr_FR.UTF-8");
    assert_eq!(st_get(&st, KEY), bundled("fr", KEY));

    // 4. Unknown tags, and the POSIX C locale, end at English.
    for tag in ["xx-YY", "C", "POSIX", "", "auto"] {
        switch(&mut st, tag);
        assert_eq!(st_get(&st, KEY), english, "{tag:?} should have resolved to English");
    }

    // 5. fmt and error_message go through the same installed catalog.
    switch(&mut st, "de");
    let (cat, en) = (st.catalog().unwrap(), st.english().unwrap());
    let out = fmt(cat, en, "app.unknown_option", &[("opt", "--nope")]);
    assert!(out.contains("--nope"), "placeholder not substituted: {out}");
    assert!(!out.contains("{opt}"), "placeholder left behind: {out}");
    let msg = error_message(cat, en, 1000);
    assert_ne!(msg, "error.E1000", "E1000 rendered as its own key path");
    let de_raw = bundled("de", "error.E1000");
    assert!(
        de_raw.contains("{detail}"),
        "fixture drift: de E1000 should carry a {{detail}} placeholder, got {de_raw:?}"
    );
    assert!(!msg.contains("{detail}"), "error_message(1000) leaked a {{detail}} placeholder: {msg}");
    let filled = error_message_with(cat, en, 1000, "/dev/sr0");
    assert_eq!(
        filled,
        de_raw.replace("{detail}", "/dev/sr0"),
        "error_message_with must substitute the caller's detail into the catalog string"
    );
    assert!(!filled.contains("{detail}"));

    // 6. A locale with no catalog anywhere still returns a real message.
    switch(&mut st, "sw");
    assert_eq!(st_get(&st, KEY), english);
    assert_eq!(st_get(&st, "no.such.key.anywhere"), "no.such.key.anywhere");
}

#[test]
fn gnu_language_list_reaches_the_first_language_that_ships() {
    let cands = locale_candidates(None, Some("sw:de"), None, None, Some("en_US.UTF-8"));
    let refs: Vec<&str> = cands.iter().map(|s| s.as_str()).collect();
    let (c, asked) = resolve(&refs);
    assert!(!asked);
    let en = english_catalog().unwrap();
    assert_eq!(get(&c, &en, "app.opt_quiet"), bundled("de", "app.opt_quiet"));
    let cands = locale_candidates(None, Some("de:en"), Some("C"), None, None);
    let refs: Vec<&str> = cands.iter().map(|s| s.as_str()).collect();
    let (c, _) = resolve(&refs);
    assert_eq!(get(&c, &en, "app.opt_quiet"), "Only print errors");
}

#[test]
fn the_resolver_walks_each_chain_then_english() {
    let cands = vec!["zh-Hans-CN".to_string(), "sw".to_string()];
    let r = Resolver::new(&cands);
    let codes: Vec<&str> = (0..r.len()).map(|i| r.code(i)).collect();
    assert_eq!(codes, vec!["zh-hans-cn", "zh-hans", "zh", "sw"]);
    assert!(matches!(r.visit(0), ResolveStep::SearchDisk(0)));
    assert!(matches!(r.visit(1), ResolveStep::Found(_)));
    assert!(matches!(r.visit(3), ResolveStep::SearchDisk(3)));
    assert!(matches!(r.visit(4), ResolveStep::English(_, true)));
    let disk = parse_catalog(r#"{"k": "from disk"}"#).unwrap();
    match r.after_disk(0, Some(disk)) {
        ResolveStep::Found(c) => assert_eq!(get(&c, &c, "k"), "from disk"),
        _ => panic!("a catalog found on disk is used"),
    }
    assert!(matches!(r.after_disk(0, None), ResolveStep::Found(_)));
    assert!(matches!(r.after_disk(3, None), ResolveStep::English(_, true)));
    let nothing = Resolver::new(&Vec::new());
    assert_eq!(nothing.len(), 0);
    assert!(matches!(nothing.visit(0), ResolveStep::English(_, false)));
}

#[test]
fn candidate_paths_follow_the_documented_search_order() {
    assert_eq!(
        locale_candidate_paths(Some("/opt/bin"), Some("/home/u"), None, "pt-br"),
        vec![
            "/opt/bin/locales/pt-br.json",
            "/opt/bin/locales/pt_br.json",
            "/opt/bin/locales/pt-BR.json",
            "/opt/bin/locales/pt_BR.json",
            "/home/u/.config/freemkv/locales/pt-br.json",
            "/home/u/.config/freemkv/locales/pt_br.json",
            "/home/u/.config/freemkv/locales/pt-BR.json",
            "/home/u/.config/freemkv/locales/pt_BR.json",
            "/usr/share/freemkv/locales/pt-br.json",
            "/usr/share/freemkv/locales/pt_br.json",
            "/usr/share/freemkv/locales/pt-BR.json",
            "/usr/share/freemkv/locales/pt_BR.json",
            "locales/pt-br.json",
            "locales/pt_br.json",
            "locales/pt-BR.json",
            "locales/pt_BR.json",
        ]
    );
    assert_eq!(
        locale_candidate_paths(None, None, None, "sw"),
        vec!["/usr/share/freemkv/locales/sw.json", "locales/sw.json"]
    );
    assert_eq!(
        locale_candidate_paths(Some("C:/freemkv"), Some("C:/Users/u"), Some("C:/ProgramData"), "de"),
        vec![
            "C:/freemkv/locales/de.json",
            "C:/Users/u/.config/freemkv/locales/de.json",
            "C:/ProgramData/freemkv/locales/de.json",
            "locales/de.json",
        ]
    );
}
