//! Choosing the active language: the candidate locale tags taken from the
//! `--language` flag and the locale environment, and the process-wide locale
//! state (the override, the installed catalog, the English catalog and the
//! keys already reported as untranslated).

use vstd::prelude::*;
use vstd::string::StringExecFns;
use crate::text::{
    chars_of, string_of, trim, trim_chars, to_lowercase, unicode_lowercase, is_ascii_alpha, str_eq, split_on,
    split_char, contains_string, lemma_split_on_nonempty,
};
use crate::catalog::Catalog;

verus! {

/// The characters that end the language part of a locale name
/// (`fr_FR.UTF-8@euro` -> `fr`).
pub open spec fn is_locale_separator(c: char) -> bool {
    c == '_' || c == '.' || c == '-' || c == '@' || c == ':'
}

/// The part of `s` before its first locale separator.
pub open spec fn language_part(s: Seq<char>) -> Seq<char>
    decreases s.len(),
{
    if s.len() == 0 || is_locale_separator(s[0]) {
        Seq::empty()
    } else {
        seq![s[0]] + language_part(s.drop_first())
    }
}

/// The two-letter language code of a locale name: the first two characters
/// of its lowercased language part when both are ASCII letters, else `en`.
pub open spec fn two_letter_spec(s: Seq<char>) -> Seq<char> {
    let lang = unicode_lowercase(language_part(trim(s)));
    if lang.len() >= 2 && is_ascii_alpha(lang[0]) && is_ascii_alpha(lang[1]) {
        lang.take(2)
    } else {
        "en"@
    }
}

/// The two-letter language of a locale name: `"fr_FR.UTF-8"` -> `"fr"`.
/// The input is untrusted (the `--language` flag and the `LC_*`/`LANG`
/// variables); the code is taken by character and must be two ASCII
/// letters, anything else falls back to English. Catalog resolution uses
/// the full canonical code (`normalize_code`) instead.
pub fn two_letter_code(s: &str) -> (r: String)
    ensures
        r@ == two_letter_spec(s@),
        r@ == "en"@ || (r@.len() == 2 && is_ascii_alpha(r@[0]) && is_ascii_alpha(r@[1])),
{
    let cs = chars_of(s);
    let t = trim_chars(&cs);
    let mut part: Vec<char> = Vec::new();
    let mut i: usize = 0;
    assert(t@.skip(0) =~= t@);
    assert(part@ + t@ =~= t@);
    while i < t.len() && !(t[i] == '_' || t[i] == '.' || t[i] == '-' || t[i] == '@' || t[i] == ':')
        invariant
            i <= t.len(),
            t@ == trim(s@),
            forall|k: int| 0 <= k < i ==> !is_locale_separator(t@[k]),
            language_part(t@) == part@ + language_part(t@.skip(i as int)),
            part@ == t@.take(i as int),
        decreases t.len() - i,
    {
        assert(t@.skip(i as int).drop_first() =~= t@.skip(i + 1));
        part.push(t[i]);
        i = i + 1;
        assert(part@ =~= t@.take(i as int));
    }
    assert(language_part(t@.skip(i as int)) =~= Seq::<char>::empty());
    assert(part@ =~= language_part(t@));
    let part_s = string_of(&part);
    let lower = to_lowercase(part_s.as_str());
    let lc = chars_of(lower.as_str());
    if lc.len() >= 2 && (('a' <= lc[0] && lc[0] <= 'z') || ('A' <= lc[0] && lc[0] <= 'Z'))
        && (('a' <= lc[1] && lc[1] <= 'z') || ('A' <= lc[1] && lc[1] <= 'Z'))
    {
        let mut code: Vec<char> = Vec::new();
        code.push(lc[0]);
        code.push(lc[1]);
        assert(code@ =~= lc@.take(2));
        string_of(&code)
    } else {
        proof {
            reveal_strlit("en");
        }
        "en".to_owned()
    }
}

/// The value of the first of `LC_ALL`, `LC_MESSAGES`, `LANG` that is set
/// and non-empty (POSIX precedence).
pub open spec fn env_locale(lc_all: Option<Seq<char>>, lc_messages: Option<Seq<char>>, lang: Option<Seq<char>>) -> Option<Seq<char>> {
    if lc_all is Some && lc_all->0.len() > 0 {
        lc_all
    } else if lc_messages is Some && lc_messages->0.len() > 0 {
        lc_messages
    } else if lang is Some && lang->0.len() > 0 {
        lang
    } else {
        None
    }
}

pub open spec fn opt_view(o: Option<&str>) -> Option<Seq<char>> {
    match o {
        Some(s) => Some(s@),
        None => None,
    }
}

/// The locale the POSIX variables select: the first of `LC_ALL`,
/// `LC_MESSAGES` and `LANG` that is set and non-empty, which wins outright
/// even when it is `C` or `POSIX`.
pub fn locale_from_env<'a>(lc_all: Option<&'a str>, lc_messages: Option<&'a str>, lang: Option<&'a str>) -> (r: Option<&'a str>)
    ensures
        opt_view(r) == env_locale(opt_view(lc_all), opt_view(lc_messages), opt_view(lang)),
{
    if let Some(v) = lc_all {
        if !v.is_empty() {
            return Some(v);
        }
    }
    if let Some(v) = lc_messages {
        if !v.is_empty() {
            return Some(v);
        }
    }
    if let Some(v) = lang {
        if !v.is_empty() {
            return Some(v);
        }
    }
    None
}

/// The non-empty pieces of `ps`, in order.
pub open spec fn nonempty_pieces(ps: Seq<Seq<char>>) -> Seq<Seq<char>>
    decreases ps.len(),
{
    if ps.len() == 0 {
        Seq::empty()
    } else if ps.last().len() > 0 {
        nonempty_pieces(ps.drop_last()).push(ps.last())
    } else {
        nonempty_pieces(ps.drop_last())
    }
}

/// The POSIX `C` locale, by its raw name: the unlocalized output a script
/// asks for.
pub open spec fn is_posix_c(v: Seq<char>) -> bool {
    v == "C"@ || v == "POSIX"@
}

/// The locale tags to try, in order: the `--language` override alone when
/// there is one; else the entries of GNU `LANGUAGE` (a `:`-separated list,
/// empty entries skipped) followed by the POSIX selection, except that
/// `LANGUAGE` is ignored when the POSIX selection is `C`/`POSIX` or nothing
/// is set at all.
pub open spec fn candidates_spec(
    lang_override: Option<Seq<char>>,
    language: Option<Seq<char>>,
    lc_all: Option<Seq<char>>,
    lc_messages: Option<Seq<char>>,
    lang: Option<Seq<char>>,
) -> Seq<Seq<char>> {
    match lang_override {
        Some(l) => seq![l],
        None => match env_locale(lc_all, lc_messages, lang) {
            None => Seq::empty(),
            Some(v) => if is_posix_c(v) {
                seq![v]
            } else {
                match language {
                    Some(g) => nonempty_pieces(split_on(g, ':')).push(v),
                    None => seq![v],
                }
            },
        },
    }
}

/// The non-empty `:`-separated entries of `s`.
fn language_entries(s: &str) -> (r: Vec<String>)
    ensures
        r@.map_values(|x: String| x@) == nonempty_pieces(split_on(s@, ':')),
{
    let pieces = split_char(s, ':');
    let ghost pv = pieces@.map_values(|x: String| x@);
    let mut out: Vec<String> = Vec::new();
    let mut i: usize = 0;
    while i < pieces.len()
        invariant
            i <= pieces.len(),
            pv == pieces@.map_values(|x: String| x@),
            pv == split_on(s@, ':'),
            out@.map_values(|x: String| x@) == nonempty_pieces(pv.take(i as int)),
        decreases pieces.len() - i,
    {
        let ghost before = out@.map_values(|x: String| x@);
        assert(pv.take(i + 1).drop_last() =~= pv.take(i as int));
        assert(pv.take(i + 1).last() == pv[i as int]);
        let p = &pieces[i];
        if !p.as_str().is_empty() {
            out.push(p.clone());
            assert(out@.map_values(|x: String| x@) =~= before.push(pv[i as int]));
        }
        i = i + 1;
    }
    assert(pv.take(pieces.len() as int) =~= pv);
    out
}

/// The locale tags to try for the active language (see `candidates_spec`),
/// from the `--language` override and the values of `LANGUAGE`, `LC_ALL`,
/// `LC_MESSAGES` and `LANG` (`None` where a variable is unset).
pub fn locale_candidates(
    lang_override: Option<&str>,
    language: Option<&str>,
    lc_all: Option<&str>,
    lc_messages: Option<&str>,
    lang: Option<&str>,
) -> (r: Vec<String>)
    ensures
        r@.map_values(|x: String| x@) == candidates_spec(
            opt_view(lang_override), opt_view(language), opt_view(lc_all), opt_view(lc_messages), opt_view(lang),
        ),
{
    if let Some(l) = lang_override {
        let v = vec![l.to_owned()];
        assert(v@.map_values(|x: String| x@) =~= seq![l@]);
        return v;
    }
    match locale_from_env(lc_all, lc_messages, lang) {
        None => {
            let v: Vec<String> = Vec::new();
            assert(v@.map_values(|x: String| x@) =~= Seq::<Seq<char>>::empty());
            v
        },
        Some(p) => {
            if str_eq(p, "C") || str_eq(p, "POSIX") {
                let v = vec![p.to_owned()];
                assert(v@.map_values(|x: String| x@) =~= seq![p@]);
                return v;
            }
            let mut v: Vec<String> = match language {
                Some(g) => language_entries(g),
                None => Vec::new(),
            };
            let ghost before = v@.map_values(|x: String| x@);
            v.push(p.to_owned());
            assert(v@.map_values(|x: String| x@) =~= before.push(p@));
            v
        },
    }
}

/// GNU `LANGUAGE` comes first whenever the POSIX selection `v` is a real
/// locale, whichever of `LC_ALL`, `LC_MESSAGES` and `LANG` supplies it: its
/// non-empty entries, in order, then `v`; without `LANGUAGE`, `v` alone.
pub proof fn law_language_list_precedes_posix_selection(
    g: Seq<char>,
    v: Seq<char>,
    lc_all: Option<Seq<char>>,
    lc_messages: Option<Seq<char>>,
    lang: Option<Seq<char>>,
)
    requires
        env_locale(lc_all, lc_messages, lang) == Some(v),
        !is_posix_c(v),
    ensures
        candidates_spec(None, Some(g), lc_all, lc_messages, lang) == nonempty_pieces(split_on(g, ':')).push(v),
        candidates_spec(None, None, lc_all, lc_messages, lang) == seq![v],
{
}

/// Under the `C`/`POSIX` locale `LANGUAGE` is ignored and the selection is
/// the only candidate; with no locale variable set there is no candidate;
/// the `--language` override is the only candidate when there is one.
pub proof fn law_language_ignored_without_a_real_locale(
    language: Option<Seq<char>>,
    lc_all: Option<Seq<char>>,
    lc_messages: Option<Seq<char>>,
    lang: Option<Seq<char>>,
    lang_override: Seq<char>,
)
    ensures
        (env_locale(lc_all, lc_messages, lang) is Some && is_posix_c(env_locale(lc_all, lc_messages, lang)->0))
            ==> candidates_spec(None, language, lc_all, lc_messages, lang) == seq![env_locale(lc_all, lc_messages, lang)->0],
        env_locale(lc_all, lc_messages, lang) is None
            ==> candidates_spec(None, language, lc_all, lc_messages, lang) == Seq::<Seq<char>>::empty(),
        candidates_spec(Some(lang_override), language, lc_all, lc_messages, lang) == seq![lang_override],
{
}

/// The candidates depend on the POSIX selection only, not on which variable
/// holds it.
pub proof fn law_candidates_ignore_which_variable_is_set(language: Option<Seq<char>>, v: Seq<char>)
    requires
        v.len() > 0,
    ensures
        candidates_spec(None, language, Some(v), None, None) == candidates_spec(None, language, None, Some(v), None),
        candidates_spec(None, language, None, Some(v), None) == candidates_spec(None, language, None, None, Some(v)),
{
}

/// The `LANGUAGE` entries that become candidates are non-empty and hold no
/// `:`; every non-empty entry of the list is among them.
pub proof fn law_language_entries(g: Seq<char>)
    ensures
        forall|i: int| 0 <= i < nonempty_pieces(split_on(g, ':')).len()
            ==> (#[trigger] nonempty_pieces(split_on(g, ':'))[i]).len() > 0
                && !nonempty_pieces(split_on(g, ':'))[i].contains(':'),
{
    lemma_split_on_no_sep(g);
    lemma_nonempty_pieces(split_on(g, ':'));
}

proof fn lemma_split_on_no_sep(s: Seq<char>)
    ensures
        forall|i: int| 0 <= i < split_on(s, ':').len() ==> !(#[trigger] split_on(s, ':')[i]).contains(':'),
    decreases s.len(),
{
    if s.len() > 0 {
        lemma_split_on_no_sep(s.drop_last());
        lemma_split_on_nonempty(s.drop_last(), ':');
        let init = split_on(s.drop_last(), ':');
        if s.last() != ':' {
            let p = init.last().push(s.last());
            assert(!p.contains(':')) by {
                if p.contains(':') {
                    let k = choose|k: int| 0 <= k < p.len() && p[k] == ':';
                    if k < init.last().len() {
                        assert(init[init.len() - 1].contains(':')) by {
                            assert(init.last()[k] == ':');
                        }
                    }
                }
            }
            assert forall|i: int| 0 <= i < split_on(s, ':').len() implies !(#[trigger] split_on(s, ':')[i]).contains(':') by {
                if i < init.len() - 1 {
                    assert(split_on(s, ':')[i] == init[i]);
                }
            }
        } else {
            assert forall|i: int| 0 <= i < split_on(s, ':').len() implies !(#[trigger] split_on(s, ':')[i]).contains(':') by {
                if i < init.len() {
                    assert(split_on(s, ':')[i] == init[i]);
                } else {
                    assert(split_on(s, ':')[i] =~= Seq::<char>::empty());
                }
            }
        }
    }
}

proof fn lemma_nonempty_pieces(ps: Seq<Seq<char>>)
    requires
        forall|i: int| 0 <= i < ps.len() ==> !(#[trigger] ps[i]).contains(':'),
    ensures
        forall|i: int| 0 <= i < nonempty_pieces(ps).len()
            ==> (#[trigger] nonempty_pieces(ps)[i]).len() > 0 && !nonempty_pieces(ps)[i].contains(':'),
    decreases ps.len(),
{
    if ps.len() > 0 {
        assert forall|i: int| 0 <= i < ps.drop_last().len() implies !(#[trigger] ps.drop_last()[i]).contains(':') by {
            assert(ps.drop_last()[i] == ps[i]);
        }
        lemma_nonempty_pieces(ps.drop_last());
        assert(!ps[ps.len() - 1].contains(':'));
        let init = nonempty_pieces(ps.drop_last());
        if ps.last().len() > 0 {
            assert forall|i: int| 0 <= i < init.push(ps.last()).len()
                implies (#[trigger] init.push(ps.last())[i]).len() > 0 && !init.push(ps.last())[i].contains(':') by {
                if i < init.len() {
                    assert(init.push(ps.last())[i] == init[i]);
                }
            }
        }
    }
}

/// The process-wide locale state: the `--language` override, the catalog
/// installed for the active language, the English catalog that backs it
/// key by key, and the keys already reported as served in English.
pub struct LocaleState {
    lang_override: Option<String>,
    installed: Option<Catalog>,
    english: Option<Catalog>,
    reported: Vec<String>,
}

impl LocaleState {
    /// The `--language` override, if one was accepted.
    pub closed spec fn override_spec(&self) -> Option<Seq<char>> {
        match self.lang_override {
            Some(l) => Some(l@),
            None => None,
        }
    }

    /// The installed catalog's strings, if a catalog is installed.
    pub closed spec fn installed_spec(&self) -> Option<Map<Seq<Seq<char>>, Seq<char>>> {
        match self.installed {
            Some(c) => Some(c@),
            None => None,
        }
    }

    /// The English catalog's strings, once it is loaded.
    pub closed spec fn english_spec(&self) -> Option<Map<Seq<Seq<char>>, Seq<char>>> {
        match self.english {
            Some(c) => Some(c@),
            None => None,
        }
    }

    /// The keys already reported as untranslated, in the order reported.
    pub closed spec fn reported_spec(&self) -> Seq<Seq<char>> {
        self.reported@.map_values(|x: String| x@)
    }

    /// No override, no catalog, nothing reported.
    pub fn new() -> (r: Self)
        ensures
            r.override_spec() is None,
            r.installed_spec() is None,
            r.english_spec() is None,
            r.reported_spec() == Seq::<Seq<char>>::empty(),
    {
        let r = LocaleState { lang_override: None, installed: None, english: None, reported: Vec::new() };
        assert(r.reported_spec() =~= Seq::<Seq<char>>::empty());
        r
    }

    /// Records the `--language` override. It takes effect only before a
    /// catalog is installed and only once: a call after a catalog is
    /// installed, or after an override was already accepted, is ignored and
    /// reported as such (`true`), so that the caller can tell the user.
    pub fn set_language(&mut self, lang: &str) -> (ignored: bool)
        ensures
            ignored == (old(self).installed_spec() is Some || old(self).override_spec() is Some),
            final(self).installed_spec() == old(self).installed_spec(),
            final(self).english_spec() == old(self).english_spec(),
            final(self).reported_spec() == old(self).reported_spec(),
            final(self).override_spec() == (if ignored { old(self).override_spec() } else { Some(lang@) }),
    {
        if self.installed.is_some() || self.lang_override.is_some() {
            return true;
        }
        self.lang_override = Some(lang.to_owned());
        false
    }

    /// The `--language` override, if one was accepted.
    pub fn language_override(&self) -> (r: Option<&str>)
        ensures
            opt_view(r) == self.override_spec(),
    {
        match &self.lang_override {
            Some(l) => Some(l.as_str()),
            None => None,
        }
    }

    /// Installs `c` as the active catalog, replacing any installed before
    /// (the live switch: the last catalog installed is the one in use).
    pub fn install(&mut self, c: Catalog)
        ensures
            final(self).override_spec() == old(self).override_spec(),
            final(self).english_spec() == old(self).english_spec(),
            final(self).reported_spec() == old(self).reported_spec(),
            final(self).installed_spec() == Some(c@),
    {
        self.installed = Some(c);
    }

    /// The installed catalog, if any.
    pub fn catalog(&self) -> (r: Option<&Catalog>)
        ensures
            match r {
                Some(c) => self.installed_spec() == Some(c@),
                None => self.installed_spec() is None,
            },
    {
        match &self.installed {
            Some(c) => Some(c),
            None => None,
        }
    }

    /// Keeps `c` as the English catalog.
    pub fn set_english(&mut self, c: Catalog)
        ensures
            final(self).override_spec() == old(self).override_spec(),
            final(self).installed_spec() == old(self).installed_spec(),
            final(self).reported_spec() == old(self).reported_spec(),
            final(self).english_spec() == Some(c@),
    {
        self.english = Some(c);
    }

    /// The English catalog, once it is loaded.
    pub fn english(&self) -> (r: Option<&Catalog>)
        ensures
            match r {
                Some(c) => self.english_spec() == Some(c@),
                None => self.english_spec() is None,
            },
    {
        match &self.english {
            Some(c) => Some(c),
            None => None,
        }
    }

    /// Notes that `key` was served in English; `true` the first time a key
    /// is noted, so that each untranslated key is reported once.
    pub fn first_report(&mut self, key: &str) -> (r: bool)
        ensures
            r == !old(self).reported_spec().contains(key@),
            final(self).reported_spec() == (if r { old(self).reported_spec().push(key@) } else { old(self).reported_spec() }),
            final(self).override_spec() == old(self).override_spec(),
            final(self).installed_spec() == old(self).installed_spec(),
            final(self).english_spec() == old(self).english_spec(),
    {
        if contains_string(&self.reported, key) {
            return false;
        }
        let ghost before = self.reported@.map_values(|x: String| x@);
        self.reported.push(key.to_owned());
        assert(self.reported@.map_values(|x: String| x@) =~= before.push(key@));
        true
    }
}

} // verus!
