use freemkv_i18n::{fallback_chain, fold_language, locale_filenames, normalize_code};

#[test]
fn canonical_codes_keep_script_and_region() {
    assert_eq!(normalize_code("pt_BR.UTF-8"), "pt-br");
    assert_eq!(normalize_code("pt-BR"), "pt-br");
    assert_eq!(normalize_code("fr_FR.UTF-8"), "fr-fr");
    assert_eq!(normalize_code("sr-Latn-RS"), "sr-latn-rs");
    assert_eq!(normalize_code("es-419"), "es-419");
    assert_eq!(normalize_code("  de  "), "de");
    assert_eq!(normalize_code("de@euro"), "de");
}

#[test]
fn chinese_script_comes_from_the_region() {
    assert_eq!(normalize_code("zh_CN"), "zh-hans");
    assert_eq!(normalize_code("zh_TW"), "zh-hant");
    assert_eq!(normalize_code("zh-HK"), "zh-hant");
    assert_eq!(normalize_code("zh_MO"), "zh-hant");
    assert_eq!(normalize_code("zh"), "zh-hans");
    assert_eq!(normalize_code("zh-Hans-CN"), "zh-hans-cn");
    assert_eq!(normalize_code("zh_Hans_SG.UTF-8"), "zh-hans-sg");
    assert_eq!(normalize_code("zh-Hant-TW"), "zh-hant-tw");
}

#[test]
fn extended_language_subtag_is_promoted() {
    assert_eq!(normalize_code("zh-yue"), "yue");
    assert_eq!(normalize_code("zh-cmn-TW"), "zh-hant");
    assert_eq!(normalize_code("zh-cmn"), "zh-hans");
}

#[test]
fn non_language_tags_become_english() {
    for tag in ["C", "POSIX", "", "auto", "x", "12", "あx", "€a", "😀x", "_", "-de"] {
        let code = normalize_code(tag);
        if tag == "-de" {
            assert_eq!(code, "de");
        } else {
            assert_eq!(code, "en", "{tag:?}");
        }
    }
}

#[test]
fn three_letter_codes_fold_onto_shipped_ones() {
    assert_eq!(normalize_code("deu"), "de");
    assert_eq!(normalize_code("ger_DE"), "de-de");
    assert_eq!(normalize_code("nb_NO"), "no-no");
    assert_eq!(fold_language("fre"), "fr");
    assert_eq!(fold_language("nno"), "no");
    assert_eq!(fold_language("mo"), "ro");
    assert_eq!(fold_language("in"), "id");
    assert_eq!(fold_language("cmn"), "zh");
    assert_eq!(fold_language("yue"), "yue");
    assert_eq!(fold_language("de"), "de");
}

#[test]
fn normalizing_twice_changes_nothing() {
    for tag in ["pt_BR.UTF-8", "zh_TW", "zh-yue", "es-419", "C", "deu", "sr-Latn-RS", "zh-Hans-CN"] {
        let once = normalize_code(tag);
        assert_eq!(normalize_code(&once), once, "{tag:?}");
    }
}

#[test]
fn fallback_chain_walks_every_prefix_longest_first() {
    assert_eq!(fallback_chain("zh-hans-cn"), vec!["zh-hans-cn", "zh-hans", "zh"]);
    assert_eq!(fallback_chain("pt-br"), vec!["pt-br", "pt"]);
    assert_eq!(fallback_chain("de"), vec!["de"]);
    assert_eq!(fallback_chain("a--b"), vec!["a-b", "a"]);
    assert_eq!(fallback_chain(""), vec![""]);
    assert_eq!(fallback_chain("--"), vec!["--"]);
}

#[test]
fn locale_filenames_cover_both_separators_and_canonical_case() {
    assert_eq!(
        locale_filenames("pt-br"),
        vec!["pt-br.json", "pt_br.json", "pt-BR.json", "pt_BR.json"]
    );
    assert_eq!(
        locale_filenames("zh-hans-cn"),
        vec!["zh-hans-cn.json", "zh_hans_cn.json", "zh-Hans-CN.json", "zh_Hans_CN.json"]
    );
    assert_eq!(locale_filenames("de"), vec!["de.json"]);
    assert_eq!(locale_filenames("es-419"), vec!["es-419.json", "es_419.json"]);
    assert!(locale_filenames("").is_empty());
}

#[test]
fn case_separator_and_codeset_do_not_change_the_code() {
    for tag in ["pt_br", "zh-hans-cn", "sr-latn-rs", "de", "es-419", "zh_tw", "x", ""] {
        let code = normalize_code(tag);
        assert_eq!(normalize_code(&tag.to_ascii_uppercase()), code, "{tag:?}");
        assert_eq!(normalize_code(&tag.replace('_', "-")), code, "{tag:?}");
        assert_eq!(normalize_code(&format!("{tag}.UTF-8@euro")), code, "{tag:?}");
    }
}

#[test]
fn folding_twice_changes_nothing() {
    for l in ["nb", "ger", "cmn", "yue", "de", "no", "", "zz"] {
        let once = fold_language(l);
        assert_eq!(fold_language(&once), once);
        if once != l {
            assert_eq!(once.len(), 2);
        }
    }
}

#[test]
fn every_tried_file_name_normalizes_back_to_its_code() {
    for tag in ["pt-BR", "zh-Hans-CN", "es-419", "de", "sr_Latn_RS", "zh_TW"] {
        let code = normalize_code(tag);
        for name in locale_filenames(&code) {
            assert_eq!(normalize_code(&name), code, "{name}");
        }
    }
}
