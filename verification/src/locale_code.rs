//! Locale-tag arithmetic: canonical `lang[-script][-region]` codes, the
//! folding of ISO 639-2/639-3 and alias codes onto the shipped two-letter
//! codes, the order in which catalogs are tried for a code, and the file
//! names that may hold a catalog on disk.

use vstd::prelude::*;
use vstd::string::StrSliceExecFns;
use vstd::string::StringExecFns;
use crate::catalog::is_bundled;
use crate::text::{
    str_eq, chars_of, string_of, trim, trim_chars, push_char, parts, split_parts, ascii_lowercase,
    lowercase_chars, all_ascii_alpha, all_ascii_digit, chars_all_alpha, chars_all_digit,
    join, join_prefix, contains_string, lemma_parts_nonempty, lemma_join_nonempty, ascii_upper, ascii_uppercase,
    to_ascii_upper, uppercase_chars, is_ascii_alpha, is_ascii_digit, part_scan, trim_start, trim_end,
    ascii_lower, is_part_sep, unicode_white_space,
};

verus! {

/// The two-letter code a primary-language subtag folds onto (ISO 639-2/B,
/// 639-2/T and 639-3 codes of the shipped languages, macrolanguage members
/// and deprecated aliases); any other code is left as it is.
pub open spec fn fold_spec(l: Seq<char>) -> Seq<char> {
    if l == "nb"@ || l == "nn"@ || l == "nob"@ || l == "nno"@ || l == "nor"@ {
        "no"@
    } else if l == "mo"@ {
        "ro"@
    } else if l == "in"@ {
        "id"@
    } else if l == "cat"@ {
        "ca"@
    } else if l == "ces"@ || l == "cze"@ {
        "cs"@
    } else if l == "dan"@ {
        "da"@
    } else if l == "deu"@ || l == "ger"@ {
        "de"@
    } else if l == "ell"@ || l == "gre"@ {
        "el"@
    } else if l == "eng"@ {
        "en"@
    } else if l == "spa"@ {
        "es"@
    } else if l == "fin"@ {
        "fi"@
    } else if l == "fra"@ || l == "fre"@ {
        "fr"@
    } else if l == "hun"@ {
        "hu"@
    } else if l == "ind"@ {
        "id"@
    } else if l == "ita"@ {
        "it"@
    } else if l == "jpn"@ {
        "ja"@
    } else if l == "kor"@ {
        "ko"@
    } else if l == "nld"@ || l == "dut"@ {
        "nl"@
    } else if l == "pol"@ {
        "pl"@
    } else if l == "por"@ {
        "pt"@
    } else if l == "ron"@ || l == "rum"@ {
        "ro"@
    } else if l == "rus"@ {
        "ru"@
    } else if l == "slk"@ || l == "slo"@ {
        "sk"@
    } else if l == "swe"@ {
        "sv"@
    } else if l == "tur"@ {
        "tr"@
    } else if l == "ukr"@ {
        "uk"@
    } else if l == "vie"@ {
        "vi"@
    } else if l == "zho"@ || l == "chi"@ || l == "cmn"@ {
        "zh"@
    } else {
        l
    }
}

/// Folds a primary-language subtag onto the two-letter code the crate ships
/// a catalog under (`deu` -> `de`, `nb` -> `no`); an unknown code passes
/// through unchanged.
pub fn fold_language(lang: &str) -> (r: String)
    ensures
        r@ == fold_spec(lang@),
{
    let folded: &str =
    if str_eq(lang, "nb") || str_eq(lang, "nn") || str_eq(lang, "nob") || str_eq(lang, "nno") || str_eq(lang, "nor") {
        "no"
    } else if str_eq(lang, "mo") {
        "ro"
    } else if str_eq(lang, "in") {
        "id"
    } else if str_eq(lang, "cat") {
        "ca"
    } else if str_eq(lang, "ces") || str_eq(lang, "cze") {
        "cs"
    } else if str_eq(lang, "dan") {
        "da"
    } else if str_eq(lang, "deu") || str_eq(lang, "ger") {
        "de"
    } else if str_eq(lang, "ell") || str_eq(lang, "gre") {
        "el"
    } else if str_eq(lang, "eng") {
        "en"
    } else if str_eq(lang, "spa") {
        "es"
    } else if str_eq(lang, "fin") {
        "fi"
    } else if str_eq(lang, "fra") || str_eq(lang, "fre") {
        "fr"
    } else if str_eq(lang, "hun") {
        "hu"
    } else if str_eq(lang, "ind") {
        "id"
    } else if str_eq(lang, "ita") {
        "it"
    } else if str_eq(lang, "jpn") {
        "ja"
    } else if str_eq(lang, "kor") {
        "ko"
    } else if str_eq(lang, "nld") || str_eq(lang, "dut") {
        "nl"
    } else if str_eq(lang, "pol") {
        "pl"
    } else if str_eq(lang, "por") {
        "pt"
    } else if str_eq(lang, "ron") || str_eq(lang, "rum") {
        "ro"
    } else if str_eq(lang, "rus") {
        "ru"
    } else if str_eq(lang, "slk") || str_eq(lang, "slo") {
        "sk"
    } else if str_eq(lang, "swe") {
        "sv"
    } else if str_eq(lang, "tur") {
        "tr"
    } else if str_eq(lang, "ukr") {
        "uk"
    } else if str_eq(lang, "vie") {
        "vi"
    } else if str_eq(lang, "zho") || str_eq(lang, "chi") || str_eq(lang, "cmn") {
        "zh"
    } else {
        return lang.to_owned();
    };
    folded.to_owned()
}

/// The characters that end the tag part of a locale name: the codeset
/// (`.UTF-8`) and modifier (`@euro`) are dropped.
pub open spec fn is_base_sep(c: char) -> bool {
    c == '.' || c == '@' || c == ':'
}

/// The part of `s` before its first codeset or modifier separator.
pub open spec fn base_part(s: Seq<char>) -> Seq<char>
    decreases s.len(),
{
    if s.len() == 0 || is_base_sep(s[0]) {
        Seq::empty()
    } else {
        seq![s[0]] + base_part(s.drop_first())
    }
}

/// A script subtag: four ASCII letters (`Hans`, `Latn`).
pub open spec fn is_script_tag(p: Seq<char>) -> bool {
    p.len() == 4 && all_ascii_alpha(p)
}

/// A region subtag: two ASCII letters (`BR`) or three ASCII digits (`419`).
pub open spec fn is_region_tag(p: Seq<char>) -> bool {
    (p.len() == 2 && all_ascii_alpha(p)) || (p.len() == 3 && all_ascii_digit(p))
}

/// The first script subtag and the first region subtag among `rest`, in
/// lower case; other subtags are ignored.
pub open spec fn scan_tags(rest: Seq<Seq<char>>) -> (Option<Seq<char>>, Option<Seq<char>>)
    decreases rest.len(),
{
    if rest.len() == 0 {
        (None, None)
    } else {
        let (script, region) = scan_tags(rest.drop_last());
        let p = rest.last();
        if is_script_tag(p) && script is None {
            (Some(ascii_lowercase(p)), region)
        } else if is_region_tag(p) && region is None {
            (script, Some(ascii_lowercase(p)))
        } else {
            (script, region)
        }
    }
}

/// `-x` for `Some(x)`, nothing for `None`.
pub open spec fn dash(o: Option<Seq<char>>) -> Seq<char> {
    match o {
        Some(x) => seq!['-'] + x,
        None => Seq::empty(),
    }
}

/// Regions whose Chinese is written in Traditional script.
pub open spec fn is_hant_region(r: Option<Seq<char>>) -> bool {
    r == Some("tw"@) || r == Some("hk"@) || r == Some("mo"@)
}

/// The subtags of a locale name: its tag part split at `_` and `-`, empty
/// pieces dropped.
pub open spec fn subtags(s: Seq<char>) -> Seq<Seq<char>> {
    parts(base_part(trim(s)), true)
}

/// The primary-language subtag comes with a BCP-47 extended-language
/// subtag (`zh-yue`): three ASCII letters right after it.
pub open spec fn has_extlang(ps: Seq<Seq<char>>) -> bool {
    ps.len() > 1 && ps[1].len() == 3 && all_ascii_alpha(ps[1])
}

/// The canonical code of a locale name: `lang[-script][-region]`, all lower
/// case (`pt_BR.UTF-8` -> `pt-br`). The primary language must be two or
/// three ASCII letters, else the code is `en`; an extended-language subtag
/// takes its place; it is folded onto the shipped code; Chinese without a
/// script gets one from its region (`tw`/`hk`/`mo` -> `hant`, else
/// `hans`), which then replaces the region.
pub open spec fn canonical_code(s: Seq<char>) -> Seq<char> {
    let ps = subtags(s);
    if ps.len() == 0 || !(2 <= ps[0].len() <= 3 && all_ascii_alpha(ps[0])) {
        "en"@
    } else {
        let lang = fold_spec(ascii_lowercase(if has_extlang(ps) { ps[1] } else { ps[0] }));
        let rest = ps.skip(if has_extlang(ps) { 2 } else { 1 });
        let (script, region) = scan_tags(rest);
        if lang == "zh"@ && script is None {
            lang + dash(Some(if is_hant_region(region) { "hant"@ } else { "hans"@ }))
        } else {
            lang + dash(script) + dash(region)
        }
    }
}

pub open spec fn opt_chars(o: Option<Vec<char>>) -> Option<Seq<char>> {
    match o {
        Some(v) => Some(v@),
        None => None,
    }
}

fn push_chars(out: &mut String, cs: &Vec<char>)
    ensures
        final(out)@ == old(out)@ + cs@,
{
    let mut i: usize = 0;
    while i < cs.len()
        invariant
            i <= cs.len(),
            out@ == old(out)@ + cs@.take(i as int),
        decreases cs.len() - i,
    {
        push_char(out, cs[i]);
        i = i + 1;
        assert(out@ =~= old(out)@ + cs@.take(i as int));
    }
    assert(cs@.take(i as int) =~= cs@);
}

/// Canonicalizes a locale tag to `lang[-script][-region]`
/// (`pt_BR.UTF-8` -> `pt-br`, `zh_TW` -> `zh-hant`, `deu` -> `de`). The
/// input is untrusted; anything that is not a two- or three-letter language
/// subtag, `C` and `POSIX` among them, becomes `en`.
pub fn normalize_code(s: &str) -> (r: String)
    ensures
        r@ == canonical_code(s@),
{
    let cs = chars_of(s);
    let t = trim_chars(&cs);
    let mut base: Vec<char> = Vec::new();
    let mut i: usize = 0;
    assert(t@.skip(0) =~= t@);
    assert(base@ + t@ =~= t@);
    while i < t.len() && !(t[i] == '.' || t[i] == '@' || t[i] == ':')
        invariant
            i <= t.len(),
            t@ == trim(s@),
            base_part(t@) == base@ + base_part(t@.skip(i as int)),
        decreases t.len() - i,
    {
        assert(t@.skip(i as int).drop_first() =~= t@.skip(i + 1));
        assert(base@.push(t@[i as int]) + base_part(t@.skip(i + 1)) =~= base@ + base_part(t@.skip(i as int)));
        base.push(t[i]);
        i = i + 1;
    }
    assert(base@ =~= base_part(t@));
    let ps = split_parts(&base, true);
    let ghost pv = ps@.map_values(|p: Vec<char>| p@);
    assert(pv == subtags(s@));
    proof {
        reveal_strlit("en");
    }
    if ps.len() == 0 {
        return "en".to_owned();
    }
    assert(ps@[0]@ == pv[0]);
    if !(2 <= ps[0].len() && ps[0].len() <= 3 && chars_all_alpha(&ps[0])) {
        return "en".to_owned();
    }
    let ext = ps.len() > 1 && ps[1].len() == 3 && chars_all_alpha(&ps[1]);
    proof {
        if ps.len() > 1 {
            assert(ps@[1]@ == pv[1]);
        }
    }
    assert(ext == has_extlang(pv));
    let lang_chars = if ext { lowercase_chars(&ps[1]) } else { lowercase_chars(&ps[0]) };
    let lang_src = string_of(&lang_chars);
    let lang = fold_language(lang_src.as_str());
    let start: usize = if ext { 2 } else { 1 };
    let ghost rest = pv.skip(start as int);
    let mut script: Option<Vec<char>> = None;
    let mut region: Option<Vec<char>> = None;
    let mut k: usize = start;
    assert(rest.take(0) =~= Seq::<Seq<char>>::empty());
    while k < ps.len()
        invariant
            start <= k <= ps.len(),
            pv == ps@.map_values(|p: Vec<char>| p@),
            rest == pv.skip(start as int),
            (opt_chars(script), opt_chars(region)) == scan_tags(rest.take(k - start)),
        decreases ps.len() - k,
    {
        let p = &ps[k];
        assert(p@ == pv[k as int]);
        assert(rest.take(k - start + 1).drop_last() =~= rest.take(k - start));
        assert(rest.take(k - start + 1).last() == p@);
        if p.len() == 4 && chars_all_alpha(p) && script.is_none() {
            script = Some(lowercase_chars(p));
        } else if ((p.len() == 2 && chars_all_alpha(p)) || (p.len() == 3 && chars_all_digit(p)))
            && region.is_none() {
            region = Some(lowercase_chars(p));
        }
        k = k + 1;
    }
    assert(rest.take(k - start) =~= rest);
    let mut out = lang.clone();
    let is_zh = str_eq(lang.as_str(), "zh");
    if is_zh && script.is_none() {
        let hant = match &region {
            Some(r) => {
                let rs = string_of(r);
                str_eq(rs.as_str(), "tw") || str_eq(rs.as_str(), "hk") || str_eq(rs.as_str(), "mo")
            },
            None => false,
        };
        assert(hant == is_hant_region(opt_chars(region)));
        push_char(&mut out, '-');
        if hant {
            out.append("hant");
        } else {
            out.append("hans");
        }
        assert(out@ =~= canonical_code(s@));
    } else {
        if let Some(sc) = &script {
            push_char(&mut out, '-');
            push_chars(&mut out, sc);
        }
        if let Some(rg) = &region {
            push_char(&mut out, '-');
            push_chars(&mut out, rg);
        }
        assert(out@ =~= canonical_code(s@));
    }
    out
}

/// A lower-case ASCII letter or an ASCII digit.
pub open spec fn is_lower_alnum(c: char) -> bool {
    ('a' <= c && c <= 'z') || ('0' <= c && c <= '9')
}

pub open spec fn is_lower_alpha_seq(p: Seq<char>) -> bool {
    forall|i: int| 0 <= i < p.len() ==> 'a' <= #[trigger] p[i] && p[i] <= 'z'
}

/// A subtag of a canonical code: non-empty, lower-case letters and digits.
pub open spec fn is_code_piece(p: Seq<char>) -> bool {
    p.len() > 0 && forall|i: int| 0 <= i < p.len() ==> is_lower_alnum(#[trigger] p[i])
}

pub open spec fn pieces_ok(ps: Seq<Seq<char>>) -> bool {
    forall|i: int| 0 <= i < ps.len() ==> is_code_piece(#[trigger] ps[i])
}

pub open spec fn opt_piece(o: Option<Seq<char>>) -> Seq<Seq<char>> {
    match o {
        Some(x) => seq![x],
        None => Seq::empty(),
    }
}

proof fn lemma_scan_append_piece(s: Seq<char>, p: Seq<char>)
    requires
        forall|i: int| 0 <= i < p.len() ==> is_lower_alnum(#[trigger] p[i]),
    ensures
        part_scan(s + p, true) == (part_scan(s, true).0, part_scan(s, true).1 + p),
    decreases p.len(),
{
    if p.len() == 0 {
        assert(s + p =~= s);
        assert(part_scan(s, true).1 + p =~= part_scan(s, true).1);
    } else {
        lemma_scan_append_piece(s, p.drop_last());
        assert((s + p).drop_last() =~= s + p.drop_last());
        assert((s + p).last() == p.last());
        assert(is_lower_alnum(p[p.len() - 1]));
        assert((part_scan(s, true).1 + p.drop_last()).push(p.last()) =~= part_scan(s, true).1 + p);
    }
}

proof fn lemma_scan_join(ps: Seq<Seq<char>>)
    requires
        ps.len() >= 1,
        pieces_ok(ps),
    ensures
        part_scan(join(ps, '-'), true) == (ps.drop_last(), ps.last()),
    decreases ps.len(),
{
    assert(is_code_piece(ps[ps.len() - 1]));
    if ps.len() == 1 {
        lemma_scan_append_piece(Seq::empty(), ps[0]);
        assert(Seq::<char>::empty() + ps[0] =~= ps[0]);
        assert(Seq::<char>::empty() + ps[0] =~= ps[0]);
        assert(ps.drop_last() =~= Seq::<Seq<char>>::empty());
    } else {
        let init = ps.drop_last();
        assert(pieces_ok(init)) by {
            assert forall|i: int| 0 <= i < init.len() implies is_code_piece(#[trigger] init[i]) by {
                assert(init[i] == ps[i]);
            }
        }
        lemma_scan_join(init);
        assert(is_code_piece(init[init.len() - 1]));
        let j = join(init, '-').push('-');
        assert(j.drop_last() =~= join(init, '-'));
        assert(init.drop_last().push(init.last()) =~= init);
        assert(part_scan(j, true) == (init, Seq::<char>::empty()));
        lemma_scan_append_piece(j, ps.last());
        assert(Seq::<char>::empty() + ps.last() =~= ps.last());
    }
}

proof fn lemma_parts_of_join(ps: Seq<Seq<char>>)
    requires
        ps.len() >= 1,
        pieces_ok(ps),
    ensures
        parts(join(ps, '-'), true) == ps,
{
    lemma_scan_join(ps);
    assert(is_code_piece(ps[ps.len() - 1]));
    assert(ps.drop_last().push(ps.last()) =~= ps);
}

proof fn lemma_join_chars(ps: Seq<Seq<char>>)
    requires
        ps.len() >= 1,
        pieces_ok(ps),
    ensures
        join(ps, '-').len() > 0,
        forall|i: int| 0 <= i < join(ps, '-').len() ==> is_lower_alnum(#[trigger] join(ps, '-')[i]) || join(ps, '-')[i] == '-',
        join(ps, '-')[0] == ps[0][0],
        join(ps, '-').last() == ps.last().last(),
    decreases ps.len(),
{
    assert(is_code_piece(ps[0]));
    assert(is_code_piece(ps[ps.len() - 1]));
    if ps.len() > 1 {
        let init = ps.drop_last();
        assert(pieces_ok(init)) by {
            assert forall|i: int| 0 <= i < init.len() implies is_code_piece(#[trigger] init[i]) by {
                assert(init[i] == ps[i]);
            }
        }
        lemma_join_chars(init);
        let a = join(init, '-').push('-');
        let l = ps.last();
        assert forall|i: int| 0 <= i < (a + l).len() implies is_lower_alnum(#[trigger] (a + l)[i]) || (a + l)[i] == '-' by {
            if i < join(init, '-').len() {
                assert((a + l)[i] == join(init, '-')[i]);
            } else if i == join(init, '-').len() {
                assert((a + l)[i] == '-');
            } else {
                assert((a + l)[i] == l[i - a.len()]);
            }
        }
    }
}

proof fn lemma_base_part_id(x: Seq<char>)
    requires
        forall|i: int| 0 <= i < x.len() ==> !is_base_sep(#[trigger] x[i]),
    ensures
        base_part(x) == x,
    decreases x.len(),
{
    if x.len() > 0 {
        assert(!is_base_sep(x[0]));
        assert forall|i: int| 0 <= i < x.drop_first().len() implies !is_base_sep(#[trigger] x.drop_first()[i]) by {
            assert(x.drop_first()[i] == x[i + 1]);
        }
        lemma_base_part_id(x.drop_first());
        assert(seq![x[0]] + x.drop_first() =~= x);
    }
}

proof fn lemma_trim_id(x: Seq<char>)
    requires
        x.len() > 0,
        is_lower_alnum(x[0]),
        is_lower_alnum(x.last()),
    ensures
        trim(x) == x,
{
}

proof fn lemma_lower_id(p: Seq<char>)
    requires
        forall|i: int| 0 <= i < p.len() ==> is_lower_alnum(#[trigger] p[i]),
    ensures
        ascii_lowercase(p) == p,
{
    assert forall|i: int| 0 <= i < p.len() implies ascii_lowercase(p)[i] == p[i] by {
        assert(is_lower_alnum(p[i]));
    }
    assert(ascii_lowercase(p) =~= p);
}

proof fn lemma_lower_alpha(p: Seq<char>)
    requires
        all_ascii_alpha(p),
    ensures
        is_lower_alpha_seq(ascii_lowercase(p)),
        ascii_lowercase(p).len() == p.len(),
{
    assert forall|i: int| 0 <= i < p.len() implies 'a' <= #[trigger] ascii_lowercase(p)[i] && ascii_lowercase(p)[i] <= 'z' by {
        assert(is_ascii_alpha(p[i]));
    }
}

proof fn lemma_lower_digits(p: Seq<char>)
    requires
        all_ascii_digit(p),
    ensures
        ascii_lowercase(p) == p,
{
    assert forall|i: int| 0 <= i < p.len() implies ascii_lowercase(p)[i] == p[i] by {
        assert(is_ascii_digit(p[i]));
    }
    assert(ascii_lowercase(p) =~= p);
}

/// The characters of the literal codes the folding and the bundled codes
/// are written with.
proof fn lemma_code_literals()
    ensures
        "br"@ == seq!['b', 'r'],
        "ca"@ == seq!['c', 'a'],
        "cat"@ == seq!['c', 'a', 't'],
        "ces"@ == seq!['c', 'e', 's'],
        "chi"@ == seq!['c', 'h', 'i'],
        "cmn"@ == seq!['c', 'm', 'n'],
        "cs"@ == seq!['c', 's'],
        "cze"@ == seq!['c', 'z', 'e'],
        "da"@ == seq!['d', 'a'],
        "dan"@ == seq!['d', 'a', 'n'],
        "de"@ == seq!['d', 'e'],
        "deu"@ == seq!['d', 'e', 'u'],
        "dut"@ == seq!['d', 'u', 't'],
        "el"@ == seq!['e', 'l'],
        "ell"@ == seq!['e', 'l', 'l'],
        "en"@ == seq!['e', 'n'],
        "eng"@ == seq!['e', 'n', 'g'],
        "es"@ == seq!['e', 's'],
        "fi"@ == seq!['f', 'i'],
        "fin"@ == seq!['f', 'i', 'n'],
        "fr"@ == seq!['f', 'r'],
        "fra"@ == seq!['f', 'r', 'a'],
        "fre"@ == seq!['f', 'r', 'e'],
        "ger"@ == seq!['g', 'e', 'r'],
        "gre"@ == seq!['g', 'r', 'e'],
        "hans"@ == seq!['h', 'a', 'n', 's'],
        "hant"@ == seq!['h', 'a', 'n', 't'],
        "hk"@ == seq!['h', 'k'],
        "hu"@ == seq!['h', 'u'],
        "hun"@ == seq!['h', 'u', 'n'],
        "id"@ == seq!['i', 'd'],
        "in"@ == seq!['i', 'n'],
        "ind"@ == seq!['i', 'n', 'd'],
        "it"@ == seq!['i', 't'],
        "ita"@ == seq!['i', 't', 'a'],
        "ja"@ == seq!['j', 'a'],
        "jpn"@ == seq!['j', 'p', 'n'],
        "ko"@ == seq!['k', 'o'],
        "kor"@ == seq!['k', 'o', 'r'],
        "mo"@ == seq!['m', 'o'],
        "nb"@ == seq!['n', 'b'],
        "nl"@ == seq!['n', 'l'],
        "nld"@ == seq!['n', 'l', 'd'],
        "nn"@ == seq!['n', 'n'],
        "nno"@ == seq!['n', 'n', 'o'],
        "no"@ == seq!['n', 'o'],
        "nob"@ == seq!['n', 'o', 'b'],
        "nor"@ == seq!['n', 'o', 'r'],
        "pl"@ == seq!['p', 'l'],
        "pol"@ == seq!['p', 'o', 'l'],
        "por"@ == seq!['p', 'o', 'r'],
        "pt"@ == seq!['p', 't'],
        "ro"@ == seq!['r', 'o'],
        "ron"@ == seq!['r', 'o', 'n'],
        "ru"@ == seq!['r', 'u'],
        "rum"@ == seq!['r', 'u', 'm'],
        "rus"@ == seq!['r', 'u', 's'],
        "sk"@ == seq!['s', 'k'],
        "slk"@ == seq!['s', 'l', 'k'],
        "slo"@ == seq!['s', 'l', 'o'],
        "spa"@ == seq!['s', 'p', 'a'],
        "sv"@ == seq!['s', 'v'],
        "swe"@ == seq!['s', 'w', 'e'],
        "tr"@ == seq!['t', 'r'],
        "tur"@ == seq!['t', 'u', 'r'],
        "tw"@ == seq!['t', 'w'],
        "uk"@ == seq!['u', 'k'],
        "ukr"@ == seq!['u', 'k', 'r'],
        "vi"@ == seq!['v', 'i'],
        "vie"@ == seq!['v', 'i', 'e'],
        "zh"@ == seq!['z', 'h'],
        "zho"@ == seq!['z', 'h', 'o'],
{
    reveal_strlit("br");
    reveal_strlit("ca");
    reveal_strlit("cat");
    reveal_strlit("ces");
    reveal_strlit("chi");
    reveal_strlit("cmn");
    reveal_strlit("cs");
    reveal_strlit("cze");
    reveal_strlit("da");
    reveal_strlit("dan");
    reveal_strlit("de");
    reveal_strlit("deu");
    reveal_strlit("dut");
    reveal_strlit("el");
    reveal_strlit("ell");
    reveal_strlit("en");
    reveal_strlit("eng");
    reveal_strlit("es");
    reveal_strlit("fi");
    reveal_strlit("fin");
    reveal_strlit("fr");
    reveal_strlit("fra");
    reveal_strlit("fre");
    reveal_strlit("ger");
    reveal_strlit("gre");
    reveal_strlit("hans");
    reveal_strlit("hant");
    reveal_strlit("hk");
    reveal_strlit("hu");
    reveal_strlit("hun");
    reveal_strlit("id");
    reveal_strlit("in");
    reveal_strlit("ind");
    reveal_strlit("it");
    reveal_strlit("ita");
    reveal_strlit("ja");
    reveal_strlit("jpn");
    reveal_strlit("ko");
    reveal_strlit("kor");
    reveal_strlit("mo");
    reveal_strlit("nb");
    reveal_strlit("nl");
    reveal_strlit("nld");
    reveal_strlit("nn");
    reveal_strlit("nno");
    reveal_strlit("no");
    reveal_strlit("nob");
    reveal_strlit("nor");
    reveal_strlit("pl");
    reveal_strlit("pol");
    reveal_strlit("por");
    reveal_strlit("pt");
    reveal_strlit("ro");
    reveal_strlit("ron");
    reveal_strlit("ru");
    reveal_strlit("rum");
    reveal_strlit("rus");
    reveal_strlit("sk");
    reveal_strlit("slk");
    reveal_strlit("slo");
    reveal_strlit("spa");
    reveal_strlit("sv");
    reveal_strlit("swe");
    reveal_strlit("tr");
    reveal_strlit("tur");
    reveal_strlit("tw");
    reveal_strlit("uk");
    reveal_strlit("ukr");
    reveal_strlit("vi");
    reveal_strlit("vie");
    reveal_strlit("zh");
    reveal_strlit("zho");
    assert("br"@ =~= seq!['b', 'r']);
    assert("ca"@ =~= seq!['c', 'a']);
    assert("cat"@ =~= seq!['c', 'a', 't']);
    assert("ces"@ =~= seq!['c', 'e', 's']);
    assert("chi"@ =~= seq!['c', 'h', 'i']);
    assert("cmn"@ =~= seq!['c', 'm', 'n']);
    assert("cs"@ =~= seq!['c', 's']);
    assert("cze"@ =~= seq!['c', 'z', 'e']);
    assert("da"@ =~= seq!['d', 'a']);
    assert("dan"@ =~= seq!['d', 'a', 'n']);
    assert("de"@ =~= seq!['d', 'e']);
    assert("deu"@ =~= seq!['d', 'e', 'u']);
    assert("dut"@ =~= seq!['d', 'u', 't']);
    assert("el"@ =~= seq!['e', 'l']);
    assert("ell"@ =~= seq!['e', 'l', 'l']);
    assert("en"@ =~= seq!['e', 'n']);
    assert("eng"@ =~= seq!['e', 'n', 'g']);
    assert("es"@ =~= seq!['e', 's']);
    assert("fi"@ =~= seq!['f', 'i']);
    assert("fin"@ =~= seq!['f', 'i', 'n']);
    assert("fr"@ =~= seq!['f', 'r']);
    assert("fra"@ =~= seq!['f', 'r', 'a']);
    assert("fre"@ =~= seq!['f', 'r', 'e']);
    assert("ger"@ =~= seq!['g', 'e', 'r']);
    assert("gre"@ =~= seq!['g', 'r', 'e']);
    assert("hans"@ =~= seq!['h', 'a', 'n', 's']);
    assert("hant"@ =~= seq!['h', 'a', 'n', 't']);
    assert("hk"@ =~= seq!['h', 'k']);
    assert("hu"@ =~= seq!['h', 'u']);
    assert("hun"@ =~= seq!['h', 'u', 'n']);
    assert("id"@ =~= seq!['i', 'd']);
    assert("in"@ =~= seq!['i', 'n']);
    assert("ind"@ =~= seq!['i', 'n', 'd']);
    assert("it"@ =~= seq!['i', 't']);
    assert("ita"@ =~= seq!['i', 't', 'a']);
    assert("ja"@ =~= seq!['j', 'a']);
    assert("jpn"@ =~= seq!['j', 'p', 'n']);
    assert("ko"@ =~= seq!['k', 'o']);
    assert("kor"@ =~= seq!['k', 'o', 'r']);
    assert("mo"@ =~= seq!['m', 'o']);
    assert("nb"@ =~= seq!['n', 'b']);
    assert("nl"@ =~= seq!['n', 'l']);
    assert("nld"@ =~= seq!['n', 'l', 'd']);
    assert("nn"@ =~= seq!['n', 'n']);
    assert("nno"@ =~= seq!['n', 'n', 'o']);
    assert("no"@ =~= seq!['n', 'o']);
    assert("nob"@ =~= seq!['n', 'o', 'b']);
    assert("nor"@ =~= seq!['n', 'o', 'r']);
    assert("pl"@ =~= seq!['p', 'l']);
    assert("pol"@ =~= seq!['p', 'o', 'l']);
    assert("por"@ =~= seq!['p', 'o', 'r']);
    assert("pt"@ =~= seq!['p', 't']);
    assert("ro"@ =~= seq!['r', 'o']);
    assert("ron"@ =~= seq!['r', 'o', 'n']);
    assert("ru"@ =~= seq!['r', 'u']);
    assert("rum"@ =~= seq!['r', 'u', 'm']);
    assert("rus"@ =~= seq!['r', 'u', 's']);
    assert("sk"@ =~= seq!['s', 'k']);
    assert("slk"@ =~= seq!['s', 'l', 'k']);
    assert("slo"@ =~= seq!['s', 'l', 'o']);
    assert("spa"@ =~= seq!['s', 'p', 'a']);
    assert("sv"@ =~= seq!['s', 'v']);
    assert("swe"@ =~= seq!['s', 'w', 'e']);
    assert("tr"@ =~= seq!['t', 'r']);
    assert("tur"@ =~= seq!['t', 'u', 'r']);
    assert("tw"@ =~= seq!['t', 'w']);
    assert("uk"@ =~= seq!['u', 'k']);
    assert("ukr"@ =~= seq!['u', 'k', 'r']);
    assert("vi"@ =~= seq!['v', 'i']);
    assert("vie"@ =~= seq!['v', 'i', 'e']);
    assert("zh"@ =~= seq!['z', 'h']);
    assert("zho"@ =~= seq!['z', 'h', 'o']);
}

/// `en` is not one of the folded codes.
proof fn lemma_fold_en()
    ensures
        fold_spec("en"@) == "en"@,
{
    lemma_code_literals();
}

proof fn lemma_fold_output(y: Seq<char>)
    requires
        2 <= y.len() <= 3,
        is_lower_alpha_seq(y),
    ensures
        2 <= fold_spec(y).len() <= 3,
        is_lower_alpha_seq(fold_spec(y)),
        fold_spec(fold_spec(y)) == fold_spec(y),
{
    lemma_code_literals();
    law_fold_is_idempotent(y);
}

/// Folding is idempotent: a folded code folds to itself. Whatever folding
/// changes becomes a two-letter lower-case code.
#[verifier::spinoff_prover]
#[verifier::rlimit(60)]
pub proof fn law_fold_is_idempotent(l: Seq<char>)
    ensures
        fold_spec(fold_spec(l)) == fold_spec(l),
        fold_spec(l) != l ==> fold_spec(l).len() == 2 && is_lower_alpha_seq(fold_spec(l)),
{
    lemma_code_literals();
    assert(fold_spec("no"@) == "no"@) by {
        lemma_code_literals();
    }
    assert(fold_spec("ro"@) == "ro"@) by {
        lemma_code_literals();
    }
    assert(fold_spec("id"@) == "id"@) by {
        lemma_code_literals();
    }
    assert(fold_spec("ca"@) == "ca"@) by {
        lemma_code_literals();
    }
    assert(fold_spec("cs"@) == "cs"@) by {
        lemma_code_literals();
    }
    assert(fold_spec("da"@) == "da"@) by {
        lemma_code_literals();
    }
    assert(fold_spec("de"@) == "de"@) by {
        lemma_code_literals();
    }
    assert(fold_spec("el"@) == "el"@) by {
        lemma_code_literals();
    }
    assert(fold_spec("en"@) == "en"@) by {
        lemma_code_literals();
    }
    assert(fold_spec("es"@) == "es"@) by {
        lemma_code_literals();
    }
    assert(fold_spec("fi"@) == "fi"@) by {
        lemma_code_literals();
    }
    assert(fold_spec("fr"@) == "fr"@) by {
        lemma_code_literals();
    }
    assert(fold_spec("hu"@) == "hu"@) by {
        lemma_code_literals();
    }
    assert(fold_spec("it"@) == "it"@) by {
        lemma_code_literals();
    }
    assert(fold_spec("ja"@) == "ja"@) by {
        lemma_code_literals();
    }
    assert(fold_spec("ko"@) == "ko"@) by {
        lemma_code_literals();
    }
    assert(fold_spec("nl"@) == "nl"@) by {
        lemma_code_literals();
    }
    assert(fold_spec("pl"@) == "pl"@) by {
        lemma_code_literals();
    }
    assert(fold_spec("pt"@) == "pt"@) by {
        lemma_code_literals();
    }
    assert(fold_spec("ru"@) == "ru"@) by {
        lemma_code_literals();
        let ru = "ru"@;
        assert(ru.len() == 2 && ru[0] == 'r' && ru[1] == 'u');
        assert(ru != "rum"@ && ru != "rus"@ && ru != "ron"@);
    }
    assert(fold_spec("sk"@) == "sk"@) by {
        lemma_code_literals();
    }
    assert(fold_spec("sv"@) == "sv"@) by {
        lemma_code_literals();
    }
    assert(fold_spec("tr"@) == "tr"@) by {
        lemma_code_literals();
    }
    assert(fold_spec("uk"@) == "uk"@) by {
        lemma_code_literals();
    }
    assert(fold_spec("vi"@) == "vi"@) by {
        lemma_code_literals();
    }
    assert(fold_spec("zh"@) == "zh"@) by {
        lemma_code_literals();
    }
    if fold_spec(l) != l {
        let o = fold_spec(l);
        assert(o == "no"@ || o == "ro"@ || o == "id"@ || o == "ca"@ || o == "cs"@ || o == "da"@ || o == "de"@ || o == "el"@ || o == "en"@ || o == "es"@ || o == "fi"@ || o == "fr"@ || o == "hu"@ || o == "it"@ || o == "ja"@ || o == "ko"@ || o == "nl"@ || o == "pl"@ || o == "pt"@ || o == "ru"@ || o == "sk"@ || o == "sv"@ || o == "tr"@ || o == "uk"@ || o == "vi"@ || o == "zh"@);
    }
}

/// The codes folded onto each two-letter code: the ISO 639-2/B, 639-2/T and
/// 639-3 codes of the language, its macrolanguage members and its deprecated
/// aliases (`fr`: `fra`, `fre`; `no`: `nb`, `nn`, `nob`, `nno`, `nor`).
pub open spec fn alias_codes(c: Seq<char>) -> Seq<Seq<char>> {
    if c == "no"@ {
        seq!["nb"@, "nn"@, "nob"@, "nno"@, "nor"@]
    } else if c == "ro"@ {
        seq!["mo"@, "ron"@, "rum"@]
    } else if c == "id"@ {
        seq!["in"@, "ind"@]
    } else if c == "ca"@ {
        seq!["cat"@]
    } else if c == "cs"@ {
        seq!["ces"@, "cze"@]
    } else if c == "da"@ {
        seq!["dan"@]
    } else if c == "de"@ {
        seq!["deu"@, "ger"@]
    } else if c == "el"@ {
        seq!["ell"@, "gre"@]
    } else if c == "en"@ {
        seq!["eng"@]
    } else if c == "es"@ {
        seq!["spa"@]
    } else if c == "fi"@ {
        seq!["fin"@]
    } else if c == "fr"@ {
        seq!["fra"@, "fre"@]
    } else if c == "hu"@ {
        seq!["hun"@]
    } else if c == "it"@ {
        seq!["ita"@]
    } else if c == "ja"@ {
        seq!["jpn"@]
    } else if c == "ko"@ {
        seq!["kor"@]
    } else if c == "nl"@ {
        seq!["nld"@, "dut"@]
    } else if c == "pl"@ {
        seq!["pol"@]
    } else if c == "pt"@ {
        seq!["por"@]
    } else if c == "ru"@ {
        seq!["rus"@]
    } else if c == "sk"@ {
        seq!["slk"@, "slo"@]
    } else if c == "sv"@ {
        seq!["swe"@]
    } else if c == "tr"@ {
        seq!["tur"@]
    } else if c == "uk"@ {
        seq!["ukr"@]
    } else if c == "vi"@ {
        seq!["vie"@]
    } else if c == "zh"@ {
        seq!["zho"@, "chi"@, "cmn"@]
    } else {
        Seq::empty()
    }
}

/// A subtag of two or three lower-case letters and nothing else is
/// canonicalized to its folded code (`zh` getting its default script).
proof fn lemma_single_subtag(x: Seq<char>)
    requires
        2 <= x.len() <= 3,
        is_lower_alpha_seq(x),
    ensures
        canonical_code(x) == (if fold_spec(x) == "zh"@ { fold_spec(x) + "-hans"@ } else { fold_spec(x) }),
{
    reveal_strlit("-hans");
    reveal_strlit("hans");
    assert("-hans"@ =~= seq!['-'] + "hans"@);
    let ps = seq![x];
    lemma_lower_alpha_piece(x);
    assert(pieces_ok(ps));
    assert(join(ps, '-') == x);
    lemma_parts_of_join(ps);
    lemma_trim_id(x);
    assert forall|i: int| 0 <= i < x.len() implies !is_base_sep(#[trigger] x[i]) by {
        assert('a' <= x[i] && x[i] <= 'z');
    }
    lemma_base_part_id(x);
    assert(subtags(x) == ps);
    assert(all_ascii_alpha(x)) by {
        assert forall|i: int| 0 <= i < x.len() implies is_ascii_alpha(#[trigger] x[i]) by {
            assert('a' <= x[i] && x[i] <= 'z');
        }
    }
    lemma_lower_id(x);
    assert(ps.skip(1) =~= Seq::<Seq<char>>::empty());
    assert(scan_tags(Seq::<Seq<char>>::empty()) == (None::<Seq<char>>, None::<Seq<char>>));
}

/// Folding changes a code only when it is a listed alias of the code it
/// folds onto; every other code passes through unchanged.
pub proof fn law_folding_changes_only_aliases(l: Seq<char>)
    ensures
        fold_spec(l) != l ==> alias_codes(fold_spec(l)).contains(l),
{
    lemma_code_literals();
    if fold_spec(l) != l {
        if l == "nb"@ {
            assert(alias_codes("no"@)[0] == l);
        } else if l == "nn"@ {
            assert(alias_codes("no"@)[1] == l);
        } else if l == "nob"@ {
            assert(alias_codes("no"@)[2] == l);
        } else if l == "nno"@ {
            assert(alias_codes("no"@)[3] == l);
        } else if l == "nor"@ {
            assert(alias_codes("no"@)[4] == l);
        } else if l == "mo"@ {
            assert(alias_codes("ro"@)[0] == l);
        } else if l == "ron"@ {
            assert(alias_codes("ro"@)[1] == l);
        } else if l == "rum"@ {
            assert(alias_codes("ro"@)[2] == l);
        } else if l == "in"@ {
            assert(alias_codes("id"@)[0] == l);
        } else if l == "ind"@ {
            assert(alias_codes("id"@)[1] == l);
        } else if l == "cat"@ {
            assert(alias_codes("ca"@)[0] == l);
        } else if l == "ces"@ {
            assert(alias_codes("cs"@)[0] == l);
        } else if l == "cze"@ {
            assert(alias_codes("cs"@)[1] == l);
        } else if l == "dan"@ {
            assert(alias_codes("da"@)[0] == l);
        } else if l == "deu"@ {
            assert(alias_codes("de"@)[0] == l);
        } else if l == "ger"@ {
            assert(alias_codes("de"@)[1] == l);
        } else if l == "ell"@ {
            assert(alias_codes("el"@)[0] == l);
        } else if l == "gre"@ {
            assert(alias_codes("el"@)[1] == l);
        } else if l == "eng"@ {
            assert(alias_codes("en"@)[0] == l);
        } else if l == "spa"@ {
            assert(alias_codes("es"@)[0] == l);
        } else if l == "fin"@ {
            assert(alias_codes("fi"@)[0] == l);
        } else if l == "fra"@ {
            assert(alias_codes("fr"@)[0] == l);
        } else if l == "fre"@ {
            assert(alias_codes("fr"@)[1] == l);
        } else if l == "hun"@ {
            assert(alias_codes("hu"@)[0] == l);
        } else if l == "ita"@ {
            assert(alias_codes("it"@)[0] == l);
        } else if l == "jpn"@ {
            assert(alias_codes("ja"@)[0] == l);
        } else if l == "kor"@ {
            assert(alias_codes("ko"@)[0] == l);
        } else if l == "nld"@ {
            assert(alias_codes("nl"@)[0] == l);
        } else if l == "dut"@ {
            assert(alias_codes("nl"@)[1] == l);
        } else if l == "pol"@ {
            assert(alias_codes("pl"@)[0] == l);
        } else if l == "por"@ {
            assert(alias_codes("pt"@)[0] == l);
        } else if l == "rus"@ {
            assert(alias_codes("ru"@)[0] == l);
        } else if l == "slk"@ {
            assert(alias_codes("sk"@)[0] == l);
        } else if l == "slo"@ {
            assert(alias_codes("sk"@)[1] == l);
        } else if l == "swe"@ {
            assert(alias_codes("sv"@)[0] == l);
        } else if l == "tur"@ {
            assert(alias_codes("tr"@)[0] == l);
        } else if l == "ukr"@ {
            assert(alias_codes("uk"@)[0] == l);
        } else if l == "vie"@ {
            assert(alias_codes("vi"@)[0] == l);
        } else if l == "zho"@ {
            assert(alias_codes("zh"@)[0] == l);
        } else if l == "chi"@ {
            assert(alias_codes("zh"@)[1] == l);
        } else if l == "cmn"@ {
            assert(alias_codes("zh"@)[2] == l);
        }
    }
}

/// Every alias of a language folds onto its two-letter code, and a tag
/// made of the alias alone is canonicalized exactly like the two-letter
/// code (`--language fra` reaches the `fr` catalog).
pub proof fn law_alias_codes_fold(c: Seq<char>, l: Seq<char>)
    requires
        alias_codes(c).contains(l),
    ensures
        fold_spec(l) == c,
        canonical_code(l) == canonical_code(c),
{
    lemma_code_literals();
    let k = choose|k: int| 0 <= k < alias_codes(c).len() && alias_codes(c)[k] == l;
    assert(fold_spec(l) == c);
    assert(2 <= l.len() <= 3 && is_lower_alpha_seq(l));
    assert(c.len() == 2 && is_lower_alpha_seq(c));
    law_fold_is_idempotent(l);
    lemma_single_subtag(l);
    lemma_single_subtag(c);
}

/// A script subtag found by the scan: four lower-case letters.
pub open spec fn is_code_script(x: Seq<char>) -> bool {
    x.len() == 4 && is_lower_alpha_seq(x)
}

/// A region subtag found by the scan: two lower-case letters or three digits.
pub open spec fn is_code_region(x: Seq<char>) -> bool {
    (x.len() == 2 && is_lower_alpha_seq(x)) || (x.len() == 3 && all_ascii_digit(x))
}

proof fn lemma_scan_tags_shape(rest: Seq<Seq<char>>)
    ensures
        scan_tags(rest).0 matches Some(x) ==> is_code_script(x),
        scan_tags(rest).1 matches Some(x) ==> is_code_region(x),
    decreases rest.len(),
{
    if rest.len() > 0 {
        lemma_scan_tags_shape(rest.drop_last());
        let p = rest.last();
        if is_script_tag(p) {
            lemma_lower_alpha(p);
        }
        if is_region_tag(p) {
            if p.len() == 2 && all_ascii_alpha(p) {
                lemma_lower_alpha(p);
            } else {
                lemma_lower_digits(p);
            }
        }
    }
}

proof fn lemma_scan_tags_again(script: Option<Seq<char>>, region: Option<Seq<char>>)
    requires
        script matches Some(x) ==> is_code_script(x),
        region matches Some(x) ==> is_code_region(x),
    ensures
        scan_tags(opt_piece(script) + opt_piece(region)) == (script, region),
{
    let rest = opt_piece(script) + opt_piece(region);
    if let Some(x) = script {
        assert(all_ascii_alpha(x));
        lemma_lower_id(x);
    }
    if let Some(x) = region {
        if x.len() == 2 {
            assert(all_ascii_alpha(x));
            lemma_lower_id(x);
        } else {
            lemma_lower_digits(x);
            assert(x.len() == 3 && !all_ascii_alpha(x)) by {
                assert(is_ascii_digit(x[0]));
            }
        }
    }
    let e = Seq::<Seq<char>>::empty();
    assert(scan_tags(e) == (None::<Seq<char>>, None::<Seq<char>>));
    match (script, region) {
        (Some(x), Some(y)) => {
            assert(rest =~= seq![x, y]);
            assert(rest.drop_last() =~= seq![x]);
            assert(seq![x].drop_last() =~= e);
            assert(scan_tags(seq![x]) == (Some(x), None::<Seq<char>>));
            assert(!is_script_tag(y));
            assert(scan_tags(seq![x, y]) == (Some(x), Some(y)));
        },
        (Some(x), None) => {
            assert(rest =~= seq![x]);
            assert(rest.drop_last() =~= e);
            assert(scan_tags(seq![x]) == (Some(x), None::<Seq<char>>));
        },
        (None, Some(y)) => {
            assert(rest =~= seq![y]);
            assert(rest.drop_last() =~= e);
            assert(!is_script_tag(y));
            assert(scan_tags(seq![y]) == (None::<Seq<char>>, Some(y)));
        },
        (None, None) => {
            assert(rest =~= e);
        },
    }
}

proof fn lemma_lower_alpha_piece(x: Seq<char>)
    requires
        x.len() > 0,
        is_lower_alpha_seq(x),
    ensures
        is_code_piece(x),
{
    assert forall|i: int| 0 <= i < x.len() implies is_lower_alnum(#[trigger] x[i]) by {
        assert('a' <= x[i] && x[i] <= 'z');
    }
}

proof fn lemma_region_piece(x: Seq<char>)
    requires
        is_code_region(x),
    ensures
        is_code_piece(x),
{
    if x.len() == 2 {
        lemma_lower_alpha_piece(x);
    } else {
        assert forall|i: int| 0 <= i < x.len() implies is_lower_alnum(#[trigger] x[i]) by {
            assert(is_ascii_digit(x[i]));
        }
    }
}

/// The canonical code written as its subtags joined with `-`.
proof fn lemma_code_as_join(lang: Seq<char>, script: Option<Seq<char>>, region: Option<Seq<char>>)
    ensures
        lang + dash(script) + dash(region) == join(seq![lang] + opt_piece(script) + opt_piece(region), '-'),
{
    let ps = seq![lang] + opt_piece(script) + opt_piece(region);
    assert(join(seq![lang], '-') == lang);
    match (script, region) {
        (Some(x), Some(y)) => {
            assert(ps =~= seq![lang, x, y]);
            assert(seq![lang, x, y].drop_last() =~= seq![lang, x]);
            assert(seq![lang, x].drop_last() =~= seq![lang]);
            assert(join(seq![lang, x], '-') == lang.push('-') + x);
            assert(join(seq![lang, x, y], '-') == (lang.push('-') + x).push('-') + y);
            assert(lang + dash(script) + dash(region) =~= (lang.push('-') + x).push('-') + y);
        },
        (Some(x), None) => {
            assert(ps =~= seq![lang, x]);
            assert(seq![lang, x].drop_last() =~= seq![lang]);
            assert(join(seq![lang, x], '-') == lang.push('-') + x);
            assert(lang + dash(script) + dash(region) =~= lang.push('-') + x);
        },
        (None, Some(y)) => {
            assert(ps =~= seq![lang, y]);
            assert(seq![lang, y].drop_last() =~= seq![lang]);
            assert(join(seq![lang, y], '-') == lang.push('-') + y);
            assert(lang + dash(script) + dash(region) =~= lang.push('-') + y);
        },
        (None, None) => {
            assert(ps =~= seq![lang]);
            assert(lang + dash(script) + dash(region) =~= lang);
        },
    }
}

proof fn lemma_fixed_from_parts(lang: Seq<char>, script: Option<Seq<char>>, region: Option<Seq<char>>)
    requires
        2 <= lang.len() <= 3,
        is_lower_alpha_seq(lang),
        fold_spec(lang) == lang,
        script matches Some(x) ==> is_code_script(x),
        region matches Some(x) ==> is_code_region(x),
        !(lang == "zh"@ && script is None),
    ensures
        canonical_code(lang + dash(script) + dash(region)) == lang + dash(script) + dash(region),
        pieces_ok(seq![lang] + opt_piece(script) + opt_piece(region)),
        lang + dash(script) + dash(region) == join(seq![lang] + opt_piece(script) + opt_piece(region), '-'),
{
    let r = lang + dash(script) + dash(region);
    let pieces = seq![lang] + opt_piece(script) + opt_piece(region);
    lemma_code_as_join(lang, script, region);
    lemma_lower_alpha_piece(lang);
    assert(pieces_ok(pieces)) by {
        assert forall|i: int| 0 <= i < pieces.len() implies is_code_piece(#[trigger] pieces[i]) by {
            if i == 0 {
                assert(pieces[0] == lang);
            } else if script is Some && i == 1 {
                lemma_lower_alpha_piece(script->0);
                assert(pieces[1] == script->0);
            } else {
                lemma_region_piece(region->0);
                assert(pieces[i] == region->0);
            }
        }
    }
    lemma_join_chars(pieces);
    lemma_parts_of_join(pieces);
    assert(is_code_piece(pieces[0]));
    assert(is_code_piece(pieces[pieces.len() - 1]));
    assert(is_lower_alnum(r[0]));
    assert(is_lower_alnum(r.last()));
    lemma_trim_id(r);
    assert forall|i: int| 0 <= i < r.len() implies !is_base_sep(#[trigger] r[i]) by {
        assert(is_lower_alnum(r[i]) || r[i] == '-');
    }
    lemma_base_part_id(r);
    assert(subtags(r) == pieces);
    assert(pieces[0] == lang);
    assert(all_ascii_alpha(lang)) by {
        assert forall|i: int| 0 <= i < lang.len() implies is_ascii_alpha(#[trigger] lang[i]) by {
            assert('a' <= lang[i] && lang[i] <= 'z');
        }
    }
    assert(!has_extlang(pieces)) by {
        if pieces.len() > 1 && pieces[1].len() == 3 {
            if script is Some {
                assert(pieces[1] == script->0);
            } else {
                assert(pieces[1] == region->0);
                assert(is_ascii_digit(pieces[1][0]));
            }
        }
    }
    lemma_lower_id(lang);
    assert(pieces.skip(1) =~= opt_piece(script) + opt_piece(region));
    lemma_scan_tags_again(script, region);
}

/// A canonical code is its non-empty lower-case subtags joined with `-`,
/// and is its own canonical code.
proof fn lemma_canonical_pieces(s: Seq<char>) -> (ps: Seq<Seq<char>>)
    ensures
        ps.len() >= 1,
        pieces_ok(ps),
        canonical_code(s) == join(ps, '-'),
        canonical_code(canonical_code(s)) == canonical_code(s),
{
    reveal_strlit("en");
    reveal_strlit("zh");
    reveal_strlit("hans");
    reveal_strlit("hant");
    let ps = subtags(s);
    if ps.len() == 0 || !(2 <= ps[0].len() <= 3 && all_ascii_alpha(ps[0])) {
        let en = "en"@;
        assert(en =~= seq!['e', 'n']);
        assert(is_lower_alpha_seq(en));
        lemma_fold_en();
        assert(en + dash(None) + dash(None) =~= en);
        lemma_fixed_from_parts(en, None, None);
        seq![en] + opt_piece(None) + opt_piece(None)
    } else {
        let x = if has_extlang(ps) { ps[1] } else { ps[0] };
        lemma_lower_alpha(x);
        lemma_fold_output(ascii_lowercase(x));
        let lang = fold_spec(ascii_lowercase(x));
        let rest = ps.skip(if has_extlang(ps) { 2 } else { 1 });
        lemma_scan_tags_shape(rest);
        let (sc, rg) = scan_tags(rest);
        if lang == "zh"@ && sc is None {
            let script = if is_hant_region(rg) { "hant"@ } else { "hans"@ };
            assert("hant"@ =~= seq!['h', 'a', 'n', 't']);
            assert("hans"@ =~= seq!['h', 'a', 'n', 's']);
            assert(is_code_script(script));
            assert(lang + dash(Some(script)) + dash(None) =~= lang + dash(Some(script)));
            lemma_fixed_from_parts(lang, Some(script), None);
            seq![lang] + opt_piece(Some(script)) + opt_piece(None)
        } else {
            lemma_fixed_from_parts(lang, sc, rg);
            seq![lang] + opt_piece(sc) + opt_piece(rg)
        }
    }
}

/// Normalizing a canonical code gives it back unchanged: every code
/// `normalize_code` produces is one it maps to itself, so a code derived
/// from a catalog's file name is exactly the code the run-time lookup asks
/// for.
pub proof fn law_canonical_code_is_fixed(s: Seq<char>)
    ensures
        canonical_code(canonical_code(s)) == canonical_code(s),
{
    lemma_canonical_pieces(s);
}

/// Every bundled catalog sits under a canonical code, so the code the
/// run-time lookup derives from a locale tag can reach it.
pub proof fn law_bundled_codes_are_canonical(code: Seq<char>)
    requires
        is_bundled(code),
    ensures
        canonical_code(code) == code,
{
    lemma_code_literals();
    reveal_strlit("pt-br");
    reveal_strlit("zh-hans");
    reveal_strlit("zh-hant");
    if code == "pt-br"@ {
        let (pt, br) = ("pt"@, "br"@);
        assert(code =~= pt + dash(None) + dash(Some(br)));
        lemma_fold_output(pt);
        lemma_fixed_from_parts(pt, None, Some(br));
    } else if code == "zh-hans"@ || code == "zh-hant"@ {
        let zh = "zh"@;
        let script = if code == "zh-hans"@ { "hans"@ } else { "hant"@ };
        assert(code =~= zh + dash(Some(script)) + dash(None));
        lemma_fold_output(zh);
        lemma_fixed_from_parts(zh, Some(script), None);
    } else {
        assert(code.len() == 2 && is_lower_alpha_seq(code));
        assert(code =~= code + dash(None) + dash(None));
        lemma_fold_output(code);
        lemma_fixed_from_parts(code, None, None);
    }
}

/// The codes to try for a catalog, most specific first: every prefix of the
/// tag's `-`-separated subtags, longest first (`zh-hans-cn`, `zh-hans`,
/// `zh`); the code itself when it has no subtags.
pub open spec fn fallback_spec(code: Seq<char>) -> Seq<Seq<char>> {
    let ps = parts(code, false);
    if ps.len() == 0 {
        seq![code]
    } else {
        Seq::new(ps.len(), |i: int| join(ps.take(ps.len() - i), '-'))
    }
}

proof fn lemma_join_take_longer(ps: Seq<Seq<char>>, a: int, b: int)
    requires
        1 <= a < b <= ps.len(),
        forall|i: int| 0 <= i < ps.len() ==> (#[trigger] ps[i]).len() > 0,
    ensures
        join(ps.take(a), '-').len() < join(ps.take(b), '-').len(),
    decreases b - a,
{
    assert(ps.take(b).drop_last() =~= ps.take(b - 1));
    assert(ps.take(b).last() == ps[b - 1]);
    if a < b - 1 {
        lemma_join_take_longer(ps, a, b - 1);
    }
}

/// The catalog codes to try for `code`, most specific first.
pub fn fallback_chain(code: &str) -> (r: Vec<String>)
    ensures
        r@.map_values(|x: String| x@) == fallback_spec(code@),
{
    let cs = chars_of(code);
    let ps = split_parts(&cs, false);
    let ghost pv = ps@.map_values(|p: Vec<char>| p@);
    let ghost len = ps.len() as int;
    proof {
        lemma_parts_nonempty(code@, false);
    }
    let mut out: Vec<String> = Vec::new();
    let mut n: usize = ps.len();
    while n > 0
        invariant
            n <= ps.len(),
            len == ps.len(),
            pv == ps@.map_values(|p: Vec<char>| p@),
            pv == parts(code@, false),
            forall|i: int| 0 <= i < pv.len() ==> (#[trigger] pv[i]).len() > 0,
            out@.map_values(|x: String| x@) == Seq::new((len - n) as nat, |i: int| join(pv.take(len - i), '-')),
        decreases n,
    {
        let cand = join_prefix(&ps, n, '-');
        let ghost before = out@.map_values(|x: String| x@);
        proof {
            assert forall|k: int| 0 <= k < before.len() implies before[k] != cand@ by {
                lemma_join_take_longer(pv, n as int, len - k);
            }
        }
        let present = contains_string(&out, cand.as_str());
        assert(!present);
        assert(cand@ == join(pv.take(n as int), '-'));
        out.push(cand);
        assert(out@.map_values(|x: String| x@) =~= before.push(join(pv.take(n as int), '-')));
        n = n - 1;
        assert(out@.map_values(|x: String| x@) =~= Seq::new((len - n) as nat, |i: int| join(pv.take(len - i), '-')));
    }
    if out.len() == 0 {
        out.push(code.to_owned());
        assert(out@.map_values(|x: String| x@) =~= seq![code@]);
    } else {
        assert(out@.map_values(|x: String| x@) =~= fallback_spec(code@));
    }
    out
}

/// The chain starts at the whole tag (its subtags joined with `-`) and ends
/// at its primary-language subtag, with one step per subtag.
pub proof fn law_fallback_chain_ends(code: Seq<char>)
    requires
        parts(code, false).len() > 0,
    ensures
        fallback_spec(code).len() == parts(code, false).len(),
        fallback_spec(code)[0] == join(parts(code, false), '-'),
        fallback_spec(code).last() == parts(code, false)[0],
{
    let ps = parts(code, false);
    assert(ps.take(ps.len() as int) =~= ps);
    assert(ps.take(1) =~= seq![ps[0]]);
}

/// Each step of the chain drops exactly the last subtag of the one before,
/// so a `lang-script` catalog is tried whether or not a region is attached.
pub proof fn law_fallback_chain_steps(code: Seq<char>, i: int)
    requires
        0 <= i,
        i + 1 < fallback_spec(code).len(),
    ensures
        fallback_spec(code)[i] == join(parts(code, false).take(parts(code, false).len() - i), '-'),
        fallback_spec(code)[i + 1] == join(parts(code, false).take(parts(code, false).len() - i - 1), '-'),
{
}

/// The BCP-47 canonical case of the subtag at position `i`: the language
/// in lower case, a four-letter script in title case, a two-letter region
/// in upper case, anything else unchanged.
pub open spec fn canonical_subtag(i: int, p: Seq<char>) -> Seq<char> {
    if i == 0 {
        ascii_lowercase(p)
    } else if p.len() == 4 && all_ascii_alpha(p) {
        seq![ascii_upper(p[0])] + ascii_lowercase(p.skip(1))
    } else if p.len() == 2 && all_ascii_alpha(p) {
        ascii_uppercase(p)
    } else {
        p
    }
}

pub open spec fn canonical_subtags(ps: Seq<Seq<char>>) -> Seq<Seq<char>> {
    Seq::new(ps.len(), |i: int| canonical_subtag(i, ps[i]))
}

/// `acc` with `stem.json` added, unless the stem is empty or the name is
/// already there.
pub open spec fn add_file_name(acc: Seq<Seq<char>>, stem: Seq<char>) -> Seq<Seq<char>> {
    if stem.len() > 0 && !acc.contains(stem + ".json"@) {
        acc.push(stem + ".json"@)
    } else {
        acc
    }
}

/// The file names that may hold the catalog for `code`: the internal form,
/// the underscore form, and BCP-47 canonical case in both separators,
/// without repeats.
pub open spec fn file_names_spec(code: Seq<char>) -> Seq<Seq<char>> {
    let ps = parts(code, false);
    let cp = canonical_subtags(ps);
    add_file_name(
        add_file_name(add_file_name(add_file_name(Seq::empty(), join(ps, '-')), join(ps, '_')), join(cp, '-')),
        join(cp, '_'),
    )
}

fn canonical_subtag_exec(i: usize, p: &Vec<char>) -> (r: Vec<char>)
    ensures
        r@ == canonical_subtag(i as int, p@),
{
    if i == 0 {
        lowercase_chars(p)
    } else if p.len() == 4 && chars_all_alpha(p) {
        let mut tail: Vec<char> = Vec::new();
        let mut k: usize = 1;
        while k < p.len()
            invariant
                1 <= k <= p.len(),
                tail@ == p@.subrange(1, k as int),
            decreases p.len() - k,
        {
            tail.push(p[k]);
            k = k + 1;
            assert(tail@ =~= p@.subrange(1, k as int));
        }
        assert(tail@ =~= p@.skip(1));
        let low = lowercase_chars(&tail);
        let mut out: Vec<char> = Vec::new();
        out.push(to_ascii_upper(p[0]));
        let mut j: usize = 0;
        while j < low.len()
            invariant
                j <= low.len(),
                out@ == seq![ascii_upper(p@[0])] + low@.take(j as int),
            decreases low.len() - j,
        {
            out.push(low[j]);
            j = j + 1;
            assert(out@ =~= seq![ascii_upper(p@[0])] + low@.take(j as int));
        }
        assert(low@.take(j as int) =~= low@);
        out
    } else if p.len() == 2 && chars_all_alpha(p) {
        uppercase_chars(p)
    } else {
        p.clone()
    }
}

fn add_file_name_exec(out: &mut Vec<String>, stem: String)
    ensures
        final(out)@.map_values(|x: String| x@) == add_file_name(old(out)@.map_values(|x: String| x@), stem@),
{
    let mut name = stem;
    let nonempty = name.as_str().unicode_len() > 0;
    name.append(".json");
    if nonempty && !contains_string(out, name.as_str()) {
        out.push(name);
        assert(out@.map_values(|x: String| x@) =~= old(out)@.map_values(|x: String| x@).push(name@));
    }
}

proof fn lemma_add_file_name(acc: Seq<Seq<char>>, stem: Seq<char>)
    ensures
        add_file_name(acc, stem).len() <= acc.len() + 1,
        forall|i: int| 0 <= i < acc.len() ==> add_file_name(acc, stem)[i] == acc[i],
        add_file_name(acc, stem).len() == acc.len() + 1 ==> add_file_name(acc, stem).last() == stem + ".json"@
            && !acc.contains(stem + ".json"@),
{
}

/// At most four names, none twice, each of the form `<stem>.json`; the
/// first is the internal form itself when the code has any subtag.
pub proof fn law_file_names_shape(code: Seq<char>)
    ensures
        file_names_spec(code).len() <= 4,
        forall|i: int| 0 <= i < file_names_spec(code).len() ==> exists|stem: Seq<char>| stem.len() > 0
            && #[trigger] file_names_spec(code)[i] == stem + ".json"@,
        forall|i: int, j: int| 0 <= i < j < file_names_spec(code).len() ==> file_names_spec(code)[i] != file_names_spec(code)[j],
        parts(code, false).len() > 0 ==> file_names_spec(code)[0] == join(parts(code, false), '-') + ".json"@,
{
    let ps = parts(code, false);
    let cp = canonical_subtags(ps);
    let stems = seq![join(ps, '-'), join(ps, '_'), join(cp, '-'), join(cp, '_')];
    let a0: Seq<Seq<char>> = Seq::empty();
    let a1 = add_file_name(a0, stems[0]);
    let a2 = add_file_name(a1, stems[1]);
    let a3 = add_file_name(a2, stems[2]);
    let a4 = add_file_name(a3, stems[3]);
    lemma_add_file_name(a0, stems[0]);
    lemma_add_file_name(a1, stems[1]);
    lemma_add_file_name(a2, stems[2]);
    lemma_add_file_name(a3, stems[3]);
    assert(a4 == file_names_spec(code));
    if ps.len() > 0 {
        lemma_parts_nonempty(code, false);
        lemma_join_nonempty(ps, '-');
        assert(!a0.contains(stems[0] + ".json"@));
    }
    assert forall|i: int| 0 <= i < a4.len() implies exists|stem: Seq<char>| stem.len() > 0
        && #[trigger] a4[i] == stem + ".json"@ by {
        lemma_add_names_form(a0, stems, i);
    }
    assert forall|i: int, j: int| 0 <= i < j < a4.len() implies a4[i] != a4[j] by {
        lemma_add_names_distinct(a0, stems, i, j);
    }
}

proof fn lemma_add_names_form(acc: Seq<Seq<char>>, stems: Seq<Seq<char>>, i: int)
    requires
        acc.len() == 0,
        stems.len() == 4,
        0 <= i < add_file_name(add_file_name(add_file_name(add_file_name(acc, stems[0]), stems[1]), stems[2]), stems[3]).len(),
    ensures
        exists|stem: Seq<char>| stem.len() > 0
            && #[trigger] add_file_name(add_file_name(add_file_name(add_file_name(acc, stems[0]), stems[1]), stems[2]), stems[3])[i]
            == stem + ".json"@,
{
    let a1 = add_file_name(acc, stems[0]);
    let a2 = add_file_name(a1, stems[1]);
    let a3 = add_file_name(a2, stems[2]);
    let a4 = add_file_name(a3, stems[3]);
    lemma_add_file_name(acc, stems[0]);
    lemma_add_file_name(a1, stems[1]);
    lemma_add_file_name(a2, stems[2]);
    lemma_add_file_name(a3, stems[3]);
    if i < a3.len() {
        if i < a2.len() {
            if i < a1.len() {
                assert(a4[i] == stems[0] + ".json"@);
            } else {
                assert(a4[i] == stems[1] + ".json"@);
            }
        } else {
            assert(a4[i] == stems[2] + ".json"@);
        }
    } else {
        assert(a4[i] == stems[3] + ".json"@);
    }
}

proof fn lemma_add_names_distinct(acc: Seq<Seq<char>>, stems: Seq<Seq<char>>, i: int, j: int)
    requires
        acc.len() == 0,
        stems.len() == 4,
        0 <= i < j < add_file_name(add_file_name(add_file_name(add_file_name(acc, stems[0]), stems[1]), stems[2]), stems[3]).len(),
    ensures
        add_file_name(add_file_name(add_file_name(add_file_name(acc, stems[0]), stems[1]), stems[2]), stems[3])[i]
            != add_file_name(add_file_name(add_file_name(add_file_name(acc, stems[0]), stems[1]), stems[2]), stems[3])[j],
{
    let a1 = add_file_name(acc, stems[0]);
    let a2 = add_file_name(a1, stems[1]);
    let a3 = add_file_name(a2, stems[2]);
    let a4 = add_file_name(a3, stems[3]);
    lemma_add_file_name(acc, stems[0]);
    lemma_add_file_name(a1, stems[1]);
    lemma_add_file_name(a2, stems[2]);
    lemma_add_file_name(a3, stems[3]);
    assert forall|a: Seq<Seq<char>>, st: Seq<char>, k: int, l: int|
        0 <= k < l < add_file_name(a, st).len() && (forall|x: int, y: int| 0 <= x < y < a.len() ==> a[x] != a[y])
        implies #[trigger] add_file_name(a, st)[k] != #[trigger] add_file_name(a, st)[l] by {
        lemma_add_file_name(a, st);
        if l == a.len() {
            assert(a.contains(a[k]));
        }
    }
    assert(forall|x: int, y: int| 0 <= x < y < a1.len() ==> a1[x] != a1[y]);
    assert(forall|x: int, y: int| 0 <= x < y < a2.len() ==> a2[x] != a2[y]);
    assert(forall|x: int, y: int| 0 <= x < y < a3.len() ==> a3[x] != a3[y]);
}

/// The on-disk file names that may hold the catalog for an internal code
/// (`pt-br` -> `pt-br.json`, `pt_br.json`, `pt-BR.json`, `pt_BR.json`).
pub fn locale_filenames(code: &str) -> (r: Vec<String>)
    ensures
        r@.map_values(|x: String| x@) == file_names_spec(code@),
{
    let cs = chars_of(code);
    let ps = split_parts(&cs, false);
    let ghost pv = ps@.map_values(|p: Vec<char>| p@);
    let mut canon: Vec<Vec<char>> = Vec::new();
    let mut i: usize = 0;
    while i < ps.len()
        invariant
            i <= ps.len(),
            pv == ps@.map_values(|p: Vec<char>| p@),
            canon@.map_values(|p: Vec<char>| p@) == Seq::new(i as nat, |k: int| canonical_subtag(k, pv[k])),
        decreases ps.len() - i,
    {
        let ghost before = canon@.map_values(|p: Vec<char>| p@);
        let c = canonical_subtag_exec(i, &ps[i]);
        assert(ps@[i as int]@ == pv[i as int]);
        assert(c@ == canonical_subtag(i as int, pv[i as int]));
        canon.push(c);
        assert(canon@.map_values(|p: Vec<char>| p@) =~= before.push(c@));
        i = i + 1;
        assert(canon@.map_values(|p: Vec<char>| p@) =~= Seq::new(i as nat, |k: int| canonical_subtag(k, pv[k])));
    }
    let ghost cv = canon@.map_values(|p: Vec<char>| p@);
    assert(cv =~= canonical_subtags(pv));
    assert(pv.take(ps.len() as int) =~= pv);
    assert(cv.take(canon.len() as int) =~= cv);
    let mut out: Vec<String> = Vec::new();
    assert(out@.map_values(|x: String| x@) =~= Seq::<Seq<char>>::empty());
    add_file_name_exec(&mut out, join_prefix(&ps, ps.len(), '-'));
    add_file_name_exec(&mut out, join_prefix(&ps, ps.len(), '_'));
    add_file_name_exec(&mut out, join_prefix(&canon, canon.len(), '-'));
    add_file_name_exec(&mut out, join_prefix(&canon, canon.len(), '_'));
    out
}

/// Two characters a locale tag cannot tell apart: equal up to ASCII case, or
/// both subtag separators (`-`, `_`).
pub open spec fn same_tag_char(c: char, d: char) -> bool {
    ascii_lower(c) == ascii_lower(d) || (is_part_sep(c, true) && is_part_sep(d, true))
}

/// Two texts equal character by character up to ASCII case and the choice
/// of subtag separator.
pub open spec fn same_tag_text(s: Seq<char>, t: Seq<char>) -> bool {
    s.len() == t.len() && forall|i: int| 0 <= i < s.len() ==> same_tag_char(#[trigger] s[i], t[i])
}

/// `s` with every `_` written as `-`.
pub open spec fn dashes(s: Seq<char>) -> Seq<char> {
    Seq::new(s.len(), |i: int| if s[i] == '_' { '-' } else { s[i] })
}

proof fn lemma_lower_char_facts(c: char)
    ensures
        is_ascii_alpha(ascii_lower(c)) == is_ascii_alpha(c),
        is_ascii_digit(ascii_lower(c)) == is_ascii_digit(c),
        is_part_sep(ascii_lower(c), true) == is_part_sep(c, true),
        is_base_sep(ascii_lower(c)) == is_base_sep(c),
        ascii_lower(ascii_upper(c)) == ascii_lower(c),
        ascii_lower(ascii_lower(c)) == ascii_lower(c),
        unicode_white_space(ascii_upper(c)) == unicode_white_space(c),
        unicode_white_space(ascii_lower(c)) == unicode_white_space(c),
{
}

proof fn lemma_lower_seq_facts(p: Seq<char>, q: Seq<char>)
    requires
        ascii_lowercase(p) == ascii_lowercase(q),
    ensures
        p.len() == q.len(),
        all_ascii_alpha(p) == all_ascii_alpha(q),
        all_ascii_digit(p) == all_ascii_digit(q),
{
    assert(ascii_lowercase(p).len() == p.len());
    assert(ascii_lowercase(q).len() == q.len());
    assert forall|i: int| 0 <= i < p.len() implies is_ascii_alpha(#[trigger] p[i]) == is_ascii_alpha(q[i])
        && is_ascii_digit(p[i]) == is_ascii_digit(q[i]) by {
        assert(ascii_lowercase(p)[i] == ascii_lower(p[i]));
        assert(ascii_lowercase(q)[i] == ascii_lower(q[i]));
        assert(ascii_lowercase(p)[i] == ascii_lowercase(q)[i]);
        lemma_lower_char_facts(p[i]);
        lemma_lower_char_facts(q[i]);
    }
    if all_ascii_alpha(p) {
        assert forall|i: int| 0 <= i < q.len() implies is_ascii_alpha(#[trigger] q[i]) by {
            assert(is_ascii_alpha(p[i]));
        }
    }
    if all_ascii_alpha(q) {
        assert forall|i: int| 0 <= i < p.len() implies is_ascii_alpha(#[trigger] p[i]) by {
            assert(is_ascii_alpha(q[i]));
        }
    }
    if all_ascii_digit(p) {
        assert forall|i: int| 0 <= i < q.len() implies is_ascii_digit(#[trigger] q[i]) by {
            assert(is_ascii_digit(p[i]));
        }
    }
    if all_ascii_digit(q) {
        assert forall|i: int| 0 <= i < p.len() implies is_ascii_digit(#[trigger] p[i]) by {
            assert(is_ascii_digit(q[i]));
        }
    }
}

/// Lists of pieces equal piece by piece up to ASCII case.
pub open spec fn same_pieces(ps: Seq<Seq<char>>, qs: Seq<Seq<char>>) -> bool {
    ps.len() == qs.len() && forall|i: int| 0 <= i < ps.len() ==> ascii_lowercase(#[trigger] ps[i]) == ascii_lowercase(qs[i])
}

proof fn lemma_scan_tags_same(ps: Seq<Seq<char>>, qs: Seq<Seq<char>>)
    requires
        same_pieces(ps, qs),
    ensures
        scan_tags(ps) == scan_tags(qs),
    decreases ps.len(),
{
    if ps.len() > 0 {
        let (a, b) = (ps.drop_last(), qs.drop_last());
        assert forall|i: int| 0 <= i < a.len() implies ascii_lowercase(#[trigger] a[i]) == ascii_lowercase(b[i]) by {
            assert(a[i] == ps[i] && b[i] == qs[i]);
        }
        lemma_scan_tags_same(a, b);
        assert(ascii_lowercase(ps[ps.len() - 1]) == ascii_lowercase(qs[qs.len() - 1]));
        lemma_lower_seq_facts(ps.last(), qs.last());
    }
}

/// The canonical code depends on the subtags only up to ASCII case.
proof fn lemma_canonical_same_subtags(s: Seq<char>, t: Seq<char>)
    requires
        same_pieces(subtags(s), subtags(t)),
    ensures
        canonical_code(s) == canonical_code(t),
{
    let (ps, qs) = (subtags(s), subtags(t));
    if ps.len() > 0 {
        assert(ascii_lowercase(ps[0]) == ascii_lowercase(qs[0]));
        lemma_lower_seq_facts(ps[0], qs[0]);
        if ps.len() > 1 {
            assert(ascii_lowercase(ps[1]) == ascii_lowercase(qs[1]));
            lemma_lower_seq_facts(ps[1], qs[1]);
        }
        assert(has_extlang(ps) == has_extlang(qs));
        let k: int = if has_extlang(ps) { 2 } else { 1 };
        let (a, b) = (ps.skip(k), qs.skip(k));
        assert forall|i: int| 0 <= i < a.len() implies ascii_lowercase(#[trigger] a[i]) == ascii_lowercase(b[i]) by {
            assert(a[i] == ps[i + k] && b[i] == qs[i + k]);
        }
        lemma_scan_tags_same(a, b);
    }
}

proof fn lemma_lowercase_push(p: Seq<char>, c: char)
    ensures
        ascii_lowercase(p.push(c)) == ascii_lowercase(p).push(ascii_lower(c)),
{
    assert(ascii_lowercase(p.push(c)) =~= ascii_lowercase(p).push(ascii_lower(c)));
}

/// Texts that agree up to case and separator split into the same subtags up
/// to case.
proof fn lemma_scan_same_text(s: Seq<char>, t: Seq<char>)
    requires
        same_tag_text(s, t),
    ensures
        same_pieces(part_scan(s, true).0, part_scan(t, true).0),
        ascii_lowercase(part_scan(s, true).1) == ascii_lowercase(part_scan(t, true).1),
    decreases s.len(),
{
    if s.len() > 0 {
        let (a, b) = (s.drop_last(), t.drop_last());
        assert forall|i: int| 0 <= i < a.len() implies same_tag_char(#[trigger] a[i], b[i]) by {
            assert(a[i] == s[i] && b[i] == t[i]);
        }
        lemma_scan_same_text(a, b);
        let (c, d) = (s.last(), t.last());
        assert(same_tag_char(s[s.len() - 1], t[t.len() - 1]));
        lemma_lower_char_facts(c);
        lemma_lower_char_facts(d);
        let (ds, cs) = part_scan(a, true);
        let (dt, ct) = part_scan(b, true);
        assert(ascii_lowercase(cs).len() == cs.len() && ascii_lowercase(ct).len() == ct.len());
        if is_part_sep(c, true) {
            assert(is_part_sep(d, true));
            if cs.len() > 0 {
                assert(ds.push(cs).len() == dt.push(ct).len());
                assert forall|i: int| 0 <= i < ds.push(cs).len() implies ascii_lowercase(#[trigger] ds.push(cs)[i])
                    == ascii_lowercase(dt.push(ct)[i]) by {
                    if i < ds.len() {
                        assert(ds.push(cs)[i] == ds[i] && dt.push(ct)[i] == dt[i]);
                    }
                }
            }
            assert(ascii_lowercase(Seq::<char>::empty()) =~= Seq::<char>::empty());
        } else {
            assert(!is_part_sep(d, true));
            lemma_lowercase_push(cs, c);
            lemma_lowercase_push(ct, d);
        }
    }
}

proof fn lemma_parts_same_text(s: Seq<char>, t: Seq<char>)
    requires
        same_tag_text(s, t),
    ensures
        same_pieces(parts(s, true), parts(t, true)),
{
    lemma_scan_same_text(s, t);
    let (ds, cs) = part_scan(s, true);
    let (dt, ct) = part_scan(t, true);
    assert(ascii_lowercase(cs).len() == cs.len() && ascii_lowercase(ct).len() == ct.len());
    if cs.len() > 0 {
        assert forall|i: int| 0 <= i < ds.push(cs).len() implies ascii_lowercase(#[trigger] ds.push(cs)[i])
            == ascii_lowercase(dt.push(ct)[i]) by {
            if i < ds.len() {
                assert(ds.push(cs)[i] == ds[i] && dt.push(ct)[i] == dt[i]);
            }
        }
    }
}

proof fn lemma_trim_start_len(s: Seq<char>)
    ensures
        trim_start(s).len() <= s.len(),
        s.len() > 0 && unicode_white_space(s[0]) ==> trim_start(s).len() < s.len(),
        s.len() == 0 || !unicode_white_space(s[0]) ==> trim_start(s) == s,
    decreases s.len(),
{
    if s.len() > 0 && unicode_white_space(s[0]) {
        lemma_trim_start_len(s.drop_first());
    }
}

proof fn lemma_trim_end_len(s: Seq<char>)
    ensures
        trim_end(s).len() <= s.len(),
        s.len() > 0 && unicode_white_space(s.last()) ==> trim_end(s).len() < s.len(),
        s.len() == 0 || !unicode_white_space(s.last()) ==> trim_end(s) == s,
    decreases s.len(),
{
    if s.len() > 0 && unicode_white_space(s.last()) {
        lemma_trim_end_len(s.drop_last());
    }
}

/// A text is its own trim exactly when it neither starts nor ends with
/// whitespace.
proof fn lemma_trimmed(s: Seq<char>)
    ensures
        (trim(s) == s) == (s.len() == 0 || (!unicode_white_space(s[0]) && !unicode_white_space(s.last()))),
{
    lemma_trim_start_len(s);
    lemma_trim_end_len(trim_start(s));
    if s.len() > 0 && !unicode_white_space(s[0]) {
        lemma_trim_end_len(s);
    }
}

proof fn lemma_base_part_append(s: Seq<char>, t: Seq<char>)
    requires
        forall|i: int| 0 <= i < s.len() ==> !is_base_sep(#[trigger] s[i]),
        t.len() > 0,
        is_base_sep(t[0]),
    ensures
        base_part(s + t) == s,
    decreases s.len(),
{
    if s.len() == 0 {
        assert(s + t =~= t);
    } else {
        assert((s + t).drop_first() =~= s.drop_first() + t);
        assert forall|i: int| 0 <= i < s.drop_first().len() implies !is_base_sep(#[trigger] s.drop_first()[i]) by {
            assert(s.drop_first()[i] == s[i + 1]);
        }
        lemma_base_part_append(s.drop_first(), t);
        assert(seq![s[0]] + s.drop_first() =~= s);
    }
}

/// The subtags of a text with no whitespace at either end and no codeset or
/// modifier are its `-`/`_`-separated pieces.
proof fn lemma_subtags_plain(s: Seq<char>)
    requires
        trim(s) == s,
        forall|i: int| 0 <= i < s.len() ==> !is_base_sep(#[trigger] s[i]),
    ensures
        subtags(s) == parts(s, true),
{
    lemma_base_part_id(s);
}

/// Texts that agree up to case and separator, neither with whitespace at
/// an end nor with a codeset or modifier, have the same canonical code.
proof fn lemma_canonical_same_text(s: Seq<char>, t: Seq<char>)
    requires
        same_tag_text(s, t),
        trim(s) == s,
        forall|i: int| 0 <= i < s.len() ==> !is_base_sep(#[trigger] s[i]),
    ensures
        canonical_code(s) == canonical_code(t),
{
    lemma_trimmed(s);
    lemma_trimmed(t);
    if s.len() > 0 {
        assert(same_tag_char(s[0], t[0]));
        assert(same_tag_char(s[s.len() - 1], t[t.len() - 1]));
        lemma_lower_char_facts(s[0]);
        lemma_lower_char_facts(t[0]);
        lemma_lower_char_facts(s.last());
        lemma_lower_char_facts(t.last());
    }
    assert forall|i: int| 0 <= i < t.len() implies !is_base_sep(#[trigger] t[i]) by {
        assert(same_tag_char(s[i], t[i]));
        lemma_lower_char_facts(s[i]);
        lemma_lower_char_facts(t[i]);
    }
    lemma_subtags_plain(s);
    lemma_subtags_plain(t);
    lemma_parts_same_text(s, t);
    lemma_canonical_same_subtags(s, t);
}

/// The canonical code of a locale tag does not depend on letter case, on
/// `_` versus `-` between subtags, or on a codeset and modifier suffix
/// (`PT_br`, `pt-BR`, `pt_BR.UTF-8@euro` all give `pt-br`), for a tag with no
/// whitespace at either end and no codeset or modifier of its own.
pub proof fn law_canonical_code_ignores_case_separator_and_codeset(s: Seq<char>)
    requires
        trim(s) == s,
        forall|i: int| 0 <= i < s.len() ==> !is_base_sep(#[trigger] s[i]),
    ensures
        canonical_code(ascii_uppercase(s)) == canonical_code(s),
        canonical_code(ascii_lowercase(s)) == canonical_code(s),
        canonical_code(dashes(s)) == canonical_code(s),
        canonical_code(s + ".UTF-8@euro"@) == canonical_code(s),
{
    assert forall|i: int| 0 <= i < s.len() implies same_tag_char(#[trigger] s[i], ascii_uppercase(s)[i])
        && same_tag_char(s[i], ascii_lowercase(s)[i]) && same_tag_char(s[i], dashes(s)[i]) by {
        lemma_lower_char_facts(s[i]);
    }
    lemma_canonical_same_text(s, ascii_uppercase(s));
    lemma_canonical_same_text(s, ascii_lowercase(s));
    lemma_canonical_same_text(s, dashes(s));
    let sfx = ".UTF-8@euro"@;
    reveal_strlit(".UTF-8@euro");
    let u = s + sfx;
    assert(u.last() == 'o');
    assert(u[0] == (if s.len() > 0 { s[0] } else { '.' }));
    lemma_trimmed(s);
    lemma_trimmed(u);
    lemma_base_part_append(s, sfx);
    lemma_subtags_plain(s);
}


proof fn lemma_scan_no_underscore(x: Seq<char>)
    requires
        forall|i: int| 0 <= i < x.len() ==> #[trigger] x[i] != '_',
    ensures
        part_scan(x, false) == part_scan(x, true),
    decreases x.len(),
{
    if x.len() > 0 {
        assert forall|i: int| 0 <= i < x.drop_last().len() implies #[trigger] x.drop_last()[i] != '_' by {
            assert(x.drop_last()[i] == x[i]);
        }
        lemma_scan_no_underscore(x.drop_last());
        assert(x[x.len() - 1] != '_');
    }
}

proof fn lemma_same_text_refl(p: Seq<char>)
    ensures
        same_tag_text(p, p),
{
}

proof fn lemma_same_text_subtag(i: int, p: Seq<char>)
    ensures
        same_tag_text(canonical_subtag(i, p), p),
{
    let q = canonical_subtag(i, p);
    if i != 0 && p.len() == 4 && all_ascii_alpha(p) {
        assert(q.len() == p.len());
        assert forall|j: int| 0 <= j < q.len() implies same_tag_char(#[trigger] q[j], p[j]) by {
            lemma_lower_char_facts(p[j]);
            if j > 0 {
                assert(q[j] == ascii_lowercase(p.skip(1))[j - 1]);
                assert(p.skip(1)[j - 1] == p[j]);
            }
        }
    } else {
        assert forall|j: int| 0 <= j < q.len() implies same_tag_char(#[trigger] q[j], p[j]) by {
            lemma_lower_char_facts(p[j]);
        }
    }
}

/// Pieces joined with separators agree with the same pieces, up to case,
/// joined with other separators.
proof fn lemma_join_same(qs: Seq<Seq<char>>, ps: Seq<Seq<char>>, d: char, e: char)
    requires
        qs.len() == ps.len(),
        forall|i: int| 0 <= i < ps.len() ==> same_tag_text(#[trigger] qs[i], ps[i]),
        is_part_sep(d, true),
        is_part_sep(e, true),
    ensures
        same_tag_text(join(qs, d), join(ps, e)),
    decreases ps.len(),
{
    if ps.len() == 1 {
        assert(same_tag_text(qs[0], ps[0]));
    } else if ps.len() > 1 {
        let (a, b) = (qs.drop_last(), ps.drop_last());
        assert forall|i: int| 0 <= i < b.len() implies same_tag_text(#[trigger] a[i], b[i]) by {
            assert(a[i] == qs[i] && b[i] == ps[i]);
        }
        lemma_join_same(a, b, d, e);
        assert(same_tag_text(qs[qs.len() - 1], ps[ps.len() - 1]));
        let (x, y) = (join(a, d).push(d), join(b, e).push(e));
        let (u, v) = (x + qs.last(), y + ps.last());
        assert forall|i: int| 0 <= i < u.len() implies same_tag_char(#[trigger] u[i], v[i]) by {
            if i < x.len() - 1 {
                assert(u[i] == join(a, d)[i] && v[i] == join(b, e)[i]);
            } else if i >= x.len() {
                assert(u[i] == qs.last()[i - x.len()] && v[i] == ps.last()[i - x.len()]);
            }
        }
    }
}

proof fn lemma_add_file_name_contains(acc: Seq<Seq<char>>, stem: Seq<char>, n: Seq<char>)
    requires
        add_file_name(acc, stem).contains(n),
    ensures
        acc.contains(n) || (n == stem + ".json"@ && stem.len() > 0),
{
    if stem.len() > 0 && !acc.contains(stem + ".json"@) {
        let j = choose|j: int| 0 <= j < acc.push(stem + ".json"@).len() && acc.push(stem + ".json"@)[j] == n;
        if j < acc.len() {
            assert(acc[j] == n);
        }
    }
}

/// A name tried for a canonical code, with its `.json` removed, agrees with
/// the code up to case and separator.
proof fn lemma_file_name_stem(code: Seq<char>, ps: Seq<Seq<char>>, n: Seq<char>) -> (stem: Seq<char>)
    requires
        ps.len() >= 1,
        pieces_ok(ps),
        code == join(ps, '-'),
        file_names_spec(code).contains(n),
    ensures
        n == stem + ".json"@,
        same_tag_text(stem, code),
{
    lemma_join_chars(ps);
    lemma_parts_of_join(ps);
    assert forall|i: int| 0 <= i < code.len() implies #[trigger] code[i] != '_' by {
        assert(is_lower_alnum(code[i]) || code[i] == '-');
    }
    lemma_scan_no_underscore(code);
    assert(parts(code, false) == ps);
    let cp = canonical_subtags(ps);
    let st = seq![join(ps, '-'), join(ps, '_'), join(cp, '-'), join(cp, '_')];
    let a0: Seq<Seq<char>> = Seq::empty();
    let a1 = add_file_name(a0, st[0]);
    let a2 = add_file_name(a1, st[1]);
    let a3 = add_file_name(a2, st[2]);
    assert(file_names_spec(code) == add_file_name(a3, st[3]));
    assert forall|i: int| 0 <= i < ps.len() implies same_tag_text(#[trigger] ps[i], ps[i]) by {
        lemma_same_text_refl(ps[i]);
    }
    assert forall|i: int| 0 <= i < ps.len() implies same_tag_text(#[trigger] cp[i], ps[i]) by {
        lemma_same_text_subtag(i, ps[i]);
    }
    lemma_join_same(ps, ps, '-', '-');
    lemma_join_same(ps, ps, '_', '-');
    lemma_join_same(cp, ps, '-', '-');
    lemma_join_same(cp, ps, '_', '-');
    lemma_add_file_name_contains(a3, st[3], n);
    if a3.contains(n) {
        lemma_add_file_name_contains(a2, st[2], n);
        if a2.contains(n) {
            lemma_add_file_name_contains(a1, st[1], n);
            if a1.contains(n) {
                lemma_add_file_name_contains(a0, st[0], n);
                st[0]
            } else {
                st[1]
            }
        } else {
            st[2]
        }
    } else {
        st[3]
    }
}

/// Every file name tried for a code normalizes back to that code
/// (`pt_BR.json` -> `pt-br`), so a catalog found on disk under any of the
/// tried spellings is the one for the code asked for.
pub proof fn law_file_names_normalize_to_their_code(t: Seq<char>, n: Seq<char>)
    requires
        file_names_spec(canonical_code(t)).contains(n),
    ensures
        canonical_code(n) == canonical_code(t),
{
    let code = canonical_code(t);
    let ps = lemma_canonical_pieces(t);
    let stem = lemma_file_name_stem(code, ps, n);
    lemma_join_chars(ps);
    let json = ".json"@;
    reveal_strlit(".json");
    assert(json.len() == 5 && json[0] == '.' && json[4] == 'n');
    assert(code.len() > 0);
    assert(stem.len() == code.len());
    assert forall|i: int| 0 <= i < stem.len() implies !is_base_sep(#[trigger] stem[i]) by {
        assert(same_tag_char(stem[i], code[i]));
        assert(is_lower_alnum(code[i]) || code[i] == '-');
        lemma_lower_char_facts(stem[i]);
        lemma_lower_char_facts(code[i]);
    }
    assert(same_tag_char(stem[0], code[0]));
    assert(is_lower_alnum(code[0]));
    lemma_lower_char_facts(stem[0]);
    lemma_lower_char_facts(code[0]);
    assert(n[0] == stem[0]);
    assert(n.last() == 'n');
    lemma_trimmed(n);
    lemma_base_part_append(stem, json);
    assert(subtags(n) == parts(stem, true));
    assert(is_lower_alnum(code.last()));
    lemma_trim_id(code);
    assert forall|i: int| 0 <= i < code.len() implies !is_base_sep(#[trigger] code[i]) by {
        assert(is_lower_alnum(code[i]) || code[i] == '-');
    }
    lemma_subtags_plain(code);
    lemma_parts_same_text(stem, code);
    lemma_canonical_same_subtags(n, code);
}


/// The fallback chain of a canonical code starts at the code itself, so the
/// tag asked for is always tried before any shorter one.
pub proof fn law_chain_starts_at_the_code(t: Seq<char>)
    ensures
        fallback_spec(canonical_code(t)).len() >= 1,
        fallback_spec(canonical_code(t))[0] == canonical_code(t),
{
    let ps = lemma_canonical_pieces(t);
    let code = canonical_code(t);
    lemma_join_chars(ps);
    lemma_parts_of_join(ps);
    assert forall|i: int| 0 <= i < code.len() implies #[trigger] code[i] != '_' by {
        assert(is_lower_alnum(code[i]) || code[i] == '-');
    }
    lemma_scan_no_underscore(code);
    assert(parts(code, false) == ps);
    law_fallback_chain_ends(code);
}

} // verus!
