//! String catalogs: the bundled English catalog, parsing, lookup by dotted
//! path, placeholder substitution and error-code messages.

use vstd::prelude::*;
use vstd::string::StringExecFns;
use crate::json::{json_strings, json_text_strings, under, json_from_str, json_member, json_as_str};
use crate::text::{split_on, split_char, chars_of, push_char, str_eq, is_whitespace, unicode_white_space};

verus! {

/// The English catalog, compiled into the library so that English is always
/// available.
pub const LOCALE_EN: &'static str = r#"{
  "locale": "en",
  "app": {
    "opt_quiet": "Only print errors",
    "opt_verbose": "Print detailed progress",
    "unknown_option": "Unknown option: {opt}"
  },
  "disc": {
    "scanning": "Scanning disc..."
  },
  "error": {
    "no_drive": "No optical drive found",
    "open_failed": "Cannot open {device}: {error}",
    "E1000": "Drive not found: {detail}",
    "E7022": "No key source has a decryption key for this disc (id: {hash})"
  }
}"#;

/// The German catalog (`de`), compiled into the library.
pub const LOCALE_DE: &'static str = r#"{
  "locale": "de",
  "app": {
    "opt_quiet": "Nur Fehler ausgeben",
    "opt_verbose": "Detaillierten Fortschritt ausgeben",
    "unknown_option": "Unbekannte Option: {opt}"
  },
  "disc": {
    "scanning": "Disc wird gelesen..."
  },
  "error": {
    "no_drive": "Kein optisches Laufwerk gefunden",
    "open_failed": "{device} kann nicht geöffnet werden: {error}",
    "E1000": "Laufwerk nicht gefunden: {detail}",
    "E7022": "Keine Schlüsselquelle hat einen Entschlüsselungsschlüssel für diese Disc (ID: {hash})"
  }
}"#;

/// The Spanish catalog (`es`), compiled into the library.
pub const LOCALE_ES: &'static str = r#"{
  "locale": "es",
  "app": {
    "opt_quiet": "Solo mostrar errores",
    "opt_verbose": "Mostrar el progreso detallado",
    "unknown_option": "Opción desconocida: {opt}"
  },
  "disc": {
    "scanning": "Escaneando el disco..."
  },
  "error": {
    "no_drive": "No se encontró ninguna unidad óptica",
    "open_failed": "No se puede abrir {device}: {error}",
    "E1000": "Unidad no encontrada: {detail}",
    "E7022": "Ninguna fuente de claves tiene una clave de descifrado para este disco (id: {hash})"
  }
}"#;

/// The French catalog (`fr`), compiled into the library.
pub const LOCALE_FR: &'static str = r#"{
  "locale": "fr",
  "app": {
    "opt_quiet": "N'afficher que les erreurs",
    "opt_verbose": "Afficher la progression détaillée",
    "unknown_option": "Option inconnue : {opt}"
  },
  "disc": {
    "scanning": "Analyse du disque..."
  },
  "error": {
    "no_drive": "Aucun lecteur optique trouvé",
    "open_failed": "Impossible d'ouvrir {device} : {error}",
    "E1000": "Lecteur introuvable : {detail}",
    "E7022": "Aucune source de clés n'a de clé de déchiffrement pour ce disque (id : {hash})"
  }
}"#;

/// The Italian catalog (`it`), compiled into the library.
pub const LOCALE_IT: &'static str = r#"{
  "locale": "it",
  "app": {
    "opt_quiet": "Mostra solo gli errori",
    "opt_verbose": "Mostra l'avanzamento dettagliato",
    "unknown_option": "Opzione sconosciuta: {opt}"
  },
  "disc": {
    "scanning": "Scansione del disco..."
  },
  "error": {
    "no_drive": "Nessuna unità ottica trovata",
    "open_failed": "Impossibile aprire {device}: {error}",
    "E1000": "Unità non trovata: {detail}",
    "E7022": "Nessuna fonte di chiavi ha una chiave di decrittazione per questo disco (id: {hash})"
  }
}"#;

/// The Dutch catalog (`nl`), compiled into the library.
pub const LOCALE_NL: &'static str = r#"{
  "locale": "nl",
  "app": {
    "opt_quiet": "Alleen fouten tonen",
    "opt_verbose": "Gedetailleerde voortgang tonen",
    "unknown_option": "Onbekende optie: {opt}"
  },
  "disc": {
    "scanning": "Schijf wordt gescand..."
  },
  "error": {
    "no_drive": "Geen optisch station gevonden",
    "open_failed": "Kan {device} niet openen: {error}",
    "E1000": "Station niet gevonden: {detail}",
    "E7022": "Geen enkele sleutelbron heeft een ontsleutelingssleutel voor deze schijf (id: {hash})"
  }
}"#;

/// The European Portuguese catalog (`pt`), compiled into the library.
pub const LOCALE_PT: &'static str = r#"{
  "locale": "pt",
  "app": {
    "opt_quiet": "Mostrar apenas erros",
    "opt_verbose": "Mostrar o progresso detalhado",
    "unknown_option": "Opção desconhecida: {opt}"
  },
  "disc": {
    "scanning": "A analisar o disco..."
  },
  "error": {
    "no_drive": "Nenhuma unidade ótica encontrada",
    "open_failed": "Não é possível abrir {device}: {error}",
    "E1000": "Unidade não encontrada: {detail}",
    "E7022": "Nenhuma fonte de chaves tem uma chave de desencriptação para este disco (id: {hash})"
  }
}"#;

/// The Brazilian Portuguese catalog (`pt-br`), compiled into the library.
pub const LOCALE_PT_BR: &'static str = r#"{
  "locale": "pt-br",
  "app": {
    "opt_quiet": "Exibir apenas erros",
    "opt_verbose": "Exibir o progresso detalhado",
    "unknown_option": "Opção desconhecida: {opt}"
  },
  "disc": {
    "scanning": "Analisando o disco..."
  },
  "error": {
    "no_drive": "Nenhuma unidade óptica encontrada",
    "open_failed": "Não foi possível abrir {device}: {error}",
    "E1000": "Unidade não encontrada: {detail}",
    "E7022": "Nenhuma fonte de chaves tem uma chave de descriptografia para este disco (id: {hash})"
  }
}"#;

/// The Simplified Chinese catalog (`zh-hans`), compiled into the library.
pub const LOCALE_ZH_HANS: &'static str = r#"{
  "locale": "zh-hans",
  "app": {
    "opt_quiet": "仅输出错误",
    "opt_verbose": "输出详细进度",
    "unknown_option": "未知选项：{opt}"
  },
  "disc": {
    "scanning": "正在扫描光盘..."
  },
  "error": {
    "no_drive": "未找到光驱",
    "open_failed": "无法打开 {device}：{error}",
    "E1000": "未找到驱动器：{detail}",
    "E7022": "没有任何密钥来源拥有此光盘的解密密钥（ID：{hash}）"
  }
}"#;

/// The Traditional Chinese catalog (`zh-hant`), compiled into the library.
pub const LOCALE_ZH_HANT: &'static str = r#"{
  "locale": "zh-hant",
  "app": {
    "opt_quiet": "僅輸出錯誤",
    "opt_verbose": "輸出詳細進度",
    "unknown_option": "未知選項：{opt}"
  },
  "disc": {
    "scanning": "正在掃描光碟..."
  },
  "error": {
    "no_drive": "找不到光碟機",
    "open_failed": "無法開啟 {device}：{error}",
    "E1000": "找不到光碟機：{detail}",
    "E7022": "沒有任何金鑰來源擁有此光碟的解密金鑰（ID：{hash}）"
  }
}"#;

/// Every language code whose catalog is compiled into the library.
pub const SHIPPED_CODES: [&'static str; 10] = ["de", "en", "es", "fr", "it", "nl", "pt-br", "pt", "zh-hans", "zh-hant"];

/// A parsed string catalog.
pub struct Catalog {
    value: serde_json::Value,
}

impl View for Catalog {
    /// The catalog's strings, keyed by the path of member names that leads
    /// to each.
    type V = Map<Seq<Seq<char>>, Seq<char>>;

    closed spec fn view(&self) -> Map<Seq<Seq<char>>, Seq<char>> {
        json_strings(self.value)
    }
}

/// What parsing `text` gives, as strings and error message: the catalog's
/// strings, or the parser's message.
pub open spec fn parse_view(r: Result<Catalog, String>) -> Result<Map<Seq<Seq<char>>, Seq<char>>, Seq<char>> {
    match r {
        Ok(c) => Ok(c@),
        Err(e) => Err(e@),
    }
}

/// Parses a catalog from JSON text. Fails, with `serde_json`'s message,
/// exactly when the text is not a JSON document.
pub fn parse_catalog(text: &str) -> (r: Result<Catalog, String>)
    ensures
        parse_view(r) == json_text_strings(text@),
{
    match json_from_str(text) {
        Ok(value) => Ok(Catalog { value }),
        Err(e) => Err(e),
    }
}

/// The bundled English catalog, parsed.
pub fn english_catalog() -> (r: Result<Catalog, String>)
    ensures
        parse_view(r) == json_text_strings(LOCALE_EN@),
{
    parse_catalog(LOCALE_EN)
}

/// The strings of `m` found under the path prefix `q`, with `q` taken off.
pub open spec fn below(m: Map<Seq<Seq<char>>, Seq<char>>, q: Seq<Seq<char>>) -> Map<Seq<Seq<char>>, Seq<char>> {
    Map::new(|p: Seq<Seq<char>>| m.contains_key(q + p), |p: Seq<Seq<char>>| m[q + p])
}

/// The dotted path `path` as a sequence of member names.
pub open spec fn path_key(path: Seq<char>) -> Seq<Seq<char>> {
    split_on(path, '.')
}

/// The string a catalog holds at a dotted path, or the path itself when it
/// holds none there, so that a missing translation is visible.
pub open spec fn lookup_spec(m: Map<Seq<Seq<char>>, Seq<char>>, path: Seq<char>) -> Seq<char> {
    if m.contains_key(path_key(path)) {
        m[path_key(path)]
    } else {
        path
    }
}

proof fn lemma_below_step(m: Map<Seq<Seq<char>>, Seq<char>>, q: Seq<Seq<char>>, k: Seq<char>)
    ensures
        under(below(m, q), k) == below(m, q.push(k)),
{
    assert forall|p: Seq<Seq<char>>| #[trigger] (q + (seq![k] + p)) == q.push(k) + p by {
        assert(q + (seq![k] + p) =~= q.push(k) + p);
    }
    assert(under(below(m, q), k) =~= below(m, q.push(k)));
}

/// The string a catalog holds at a dotted path, if any.
pub open spec fn leaf_spec(m: Map<Seq<Seq<char>>, Seq<char>>, path: Seq<char>) -> Option<Seq<char>> {
    if m.contains_key(path_key(path)) {
        Some(m[path_key(path)])
    } else {
        None
    }
}

pub open spec fn opt_string(o: Option<String>) -> Option<Seq<char>> {
    match o {
        Some(s) => Some(s@),
        None => None,
    }
}

/// The string a catalog holds at a dotted path, if any.
pub fn leaf(strings: &Catalog, path: &str) -> (r: Option<String>)
    ensures
        opt_string(r) == leaf_spec(strings@, path@),
{
    let parts = split_char(path, '.');
    let ghost key = path_key(path@);
    let ghost m = strings@;
    let mut node: &serde_json::Value = &strings.value;
    let mut i: usize = 0;
    proof {
        assert(below(m, key.take(0)) =~= m) by {
            assert forall|p: Seq<Seq<char>>| #![auto] key.take(0) + p == p by {
                assert(key.take(0) + p =~= p);
            }
        }
    }
    while i < parts.len()
        invariant
            parts@.map_values(|x: String| x@) == key,
            key == path_key(path@),
            m == strings@,
            i <= parts.len(),
            json_strings(*node) == below(m, key.take(i as int)),
        decreases parts.len() - i,
    {
        let part: &str = parts[i].as_str();
        assert(part@ == key[i as int]);
        match json_member(node, part) {
            Some(c) => {
                proof {
                    lemma_below_step(m, key.take(i as int), key[i as int]);
                    assert(key.take(i as int).push(key[i as int]) =~= key.take(i + 1));
                }
                node = c;
            },
            None => {
                proof {
                    let rest = key.skip(i + 1);
                    assert(key.take(i as int) + (seq![key[i as int]] + rest) =~= key);
                    assert(!below(m, key.take(i as int)).contains_key(seq![key[i as int]] + rest));
                }
                return None;
            },
        }
        i = i + 1;
    }
    proof {
        assert(key.take(i as int) =~= key);
        assert(key + Seq::<Seq<char>>::empty() =~= key);
    }
    match json_as_str(node) {
        Some(s) => Some(s.to_owned()),
        None => None,
    }
}

/// Looks a dotted path up in a catalog, giving the path itself on a miss.
pub fn lookup(strings: &Catalog, path: &str) -> (r: String)
    ensures
        r@ == lookup_spec(strings@, path@),
{
    match leaf(strings, path) {
        Some(s) => s,
        None => path.to_owned(),
    }
}

/// A string with nothing but whitespace in it (the empty string included).
pub open spec fn is_blank(t: Seq<char>) -> bool {
    forall|i: int| 0 <= i < t.len() ==> unicode_white_space(#[trigger] t[i])
}

/// The catalog holds a non-blank string at the path.
pub open spec fn has_text(m: Map<Seq<Seq<char>>, Seq<char>>, path: Seq<char>) -> bool {
    leaf_spec(m, path) is Some && !is_blank(leaf_spec(m, path)->0)
}

/// The text shown for a dotted path: the active catalog's string when it is
/// not blank, else the English one when that is not blank, else the path
/// itself, so that a key no catalog translates is visible.
pub open spec fn lookup_or_english(
    active: Map<Seq<Seq<char>>, Seq<char>>,
    english: Map<Seq<Seq<char>>, Seq<char>>,
    path: Seq<char>,
) -> Seq<char> {
    if has_text(active, path) {
        leaf_spec(active, path)->0
    } else if has_text(english, path) {
        leaf_spec(english, path)->0
    } else {
        path
    }
}

/// Whether `t` holds nothing but whitespace.
pub fn is_blank_str(t: &str) -> (r: bool)
    ensures
        r == is_blank(t@),
{
    let cs = chars_of(t);
    let mut i: usize = 0;
    while i < cs.len()
        invariant
            i <= cs.len(),
            cs@ == t@,
            forall|k: int| 0 <= k < i ==> unicode_white_space(#[trigger] cs@[k]),
        decreases cs.len() - i,
    {
        if !is_whitespace(cs[i]) {
            return false;
        }
        i = i + 1;
    }
    true
}

/// The text for a dotted path (see `lookup_or_english`), and whether it was
/// served from English because the active catalog lacks a translation.
pub fn translate(active: &Catalog, english: &Catalog, path: &str) -> (r: (String, bool))
    ensures
        r.0@ == lookup_or_english(active@, english@, path@),
        r.1 == (!has_text(active@, path@) && has_text(english@, path@)),
{
    if let Some(t) = leaf(active, path) {
        if !is_blank_str(t.as_str()) {
            return (t, false);
        }
    }
    if let Some(t) = leaf(english, path) {
        if !is_blank_str(t.as_str()) {
            return (t, true);
        }
    }
    (path.to_owned(), false)
}

/// Looks a dotted path (e.g. `disc.scanning`) up in the active catalog,
/// falling back to English for a key it lacks or leaves blank, and to the
/// path itself when neither has a string, which makes a missing
/// translation visible.
pub fn get(active: &Catalog, english: &Catalog, path: &str) -> (r: String)
    ensures
        r@ == lookup_or_english(active@, english@, path@),
{
    translate(active, english, path).0
}

/// The placeholder `{key}`.
pub open spec fn placeholder(key: Seq<char>) -> Seq<char> {
    seq!['{'] + key + seq!['}']
}

/// `s` begins with the placeholder `{key}`.
pub open spec fn starts_with_placeholder(s: Seq<char>, key: Seq<char>) -> bool {
    placeholder(key).len() <= s.len() && s.take(placeholder(key).len() as int) == placeholder(key)
}

/// Single-pass substitution of `args` into `s`, looking at the arguments
/// from index `j` on for the current position. At each position the first
/// argument whose placeholder begins there is replaced by its value, and
/// scanning resumes after the placeholder; the value itself is never
/// rescanned. A position where no placeholder begins is copied.
pub open spec fn substitute_from(s: Seq<char>, args: Seq<(Seq<char>, Seq<char>)>, j: int) -> Seq<char>
    decreases s.len(), args.len() - j,
{
    if s.len() == 0 {
        Seq::empty()
    } else if 0 <= j < args.len() {
        if starts_with_placeholder(s, args[j].0) {
            args[j].1 + substitute_from(s.skip(placeholder(args[j].0).len() as int), args, 0)
        } else {
            substitute_from(s, args, j + 1)
        }
    } else {
        seq![s[0]] + substitute_from(s.drop_first(), args, 0)
    }
}

pub open spec fn substitute(s: Seq<char>, args: Seq<(Seq<char>, Seq<char>)>) -> Seq<char> {
    substitute_from(s, args, 0)
}

/// The arguments of `fmt`, as pairs of character sequences.
pub open spec fn args_view(args: Seq<(&str, &str)>) -> Seq<(Seq<char>, Seq<char>)> {
    args.map_values(|a: (&str, &str)| (a.0@, a.1@))
}

/// Whether the placeholder `{key}` begins at position `i` of `cs`.
fn placeholder_at(cs: &Vec<char>, i: usize, key: &Vec<char>) -> (r: bool)
    requires
        i <= cs.len(),
    ensures
        r == starts_with_placeholder(cs@.skip(i as int), key@),
{
    let ghost s = cs@.skip(i as int);
    let ghost ph = placeholder(key@);
    if cs.len() - i < 2 || cs.len() - i - 2 < key.len() {
        return false;
    }
    if cs[i] != '{' {
        assert(s.take(ph.len() as int)[0] != ph[0]);
        return false;
    }
    let mut k: usize = 0;
    while k < key.len()
        invariant
            s == cs@.skip(i as int),
            ph == placeholder(key@),
            i + 2 + key.len() <= cs.len(),
            k <= key.len(),
            forall|t: int| 0 <= t < k ==> cs@[i + 1 + t] == key@[t],
        decreases key.len() - k,
    {
        if cs[i + 1 + k] != key[k] {
            assert(s.take(ph.len() as int)[1 + k] != ph[1 + k]);
            return false;
        }
        k = k + 1;
    }
    if cs[i + 1 + key.len()] != '}' {
        assert(s.take(ph.len() as int)[1 + key.len()] != ph[1 + key.len()]);
        return false;
    }
    assert(s.take(ph.len() as int) =~= ph);
    true
}

/// Looks `path` up as `get` does and replaces its `{key}` placeholders
/// with the values in `args`, in a single pass over the catalog string: a
/// substituted value is copied verbatim and never scanned for placeholders
/// again.
pub fn fmt(active: &Catalog, english: &Catalog, path: &str, args: &[(&str, &str)]) -> (r: String)
    ensures
        r@ == substitute(lookup_or_english(active@, english@, path@), args_view(args@)),
{
    let template = get(active, english, path);
    substitute_in(template.as_str(), args)
}

/// Replaces the `{key}` placeholders of `template` with the values in
/// `args`, in a single pass (see `substitute`).
pub fn substitute_in(template: &str, args: &[(&str, &str)]) -> (r: String)
    ensures
        r@ == substitute(template@, args_view(args@)),
{
    let cs = chars_of(template);
    let ghost a = args_view(args@);
    let ghost whole = substitute(cs@, a);
    let mut keys: Vec<Vec<char>> = Vec::new();
    let mut t: usize = 0;
    while t < args.len()
        invariant
            t <= args.len(),
            keys.len() == t,
            a == args_view(args@),
            forall|u: int| 0 <= u < t ==> (#[trigger] keys@[u])@ == a[u].0,
        decreases args.len() - t,
    {
        keys.push(chars_of(args[t].0));
        t = t + 1;
    }
    let mut out = String::new();
    let mut i: usize = 0;
    assert(cs@.skip(0) =~= cs@);
    while i < cs.len()
        invariant
            i <= cs.len(),
            keys.len() == args.len(),
            a == args_view(args@),
            a.len() == args.len(),
            forall|u: int| 0 <= u < keys.len() ==> (#[trigger] keys@[u])@ == a[u].0,
            whole == substitute(cs@, a),
            out@ + substitute(cs@.skip(i as int), a) == whole,
        decreases cs.len() - i,
    {
        let ghost rest = cs@.skip(i as int);
        let mut j: usize = 0;
        let mut matched = false;
        while j < args.len()
            invariant_except_break
                !matched,
            invariant
                i < cs.len(),
                j <= args.len(),
                rest == cs@.skip(i as int),
                a.len() == args.len(),
                keys.len() == args.len(),
                forall|u: int| 0 <= u < keys.len() ==> (#[trigger] keys@[u])@ == a[u].0,
                substitute_from(rest, a, 0) == substitute_from(rest, a, j as int),
            ensures
                substitute_from(rest, a, 0) == substitute_from(rest, a, j as int),
                matched ==> j < args.len() && starts_with_placeholder(rest, a[j as int].0),
                !matched ==> j == args.len(),
            decreases args.len() - j,
        {
            if placeholder_at(&cs, i, &keys[j]) {
                matched = true;
                break;
            }
            j = j + 1;
        }
        if matched {
            let klen = keys[j].len();
            let value: &str = args[j].1;
            proof {
                assert(a[j as int].1 == value@);
                let n = placeholder(a[j as int].0).len() as int;
                assert(rest.skip(n) =~= cs@.skip(i + n));
            }
            out.append(value);
            i = i + klen + 2;
            proof {
                assert(out@ + substitute(cs@.skip(i as int), a) =~= whole);
            }
        } else {
            push_char(&mut out, cs[i]);
            proof {
                assert(rest.drop_first() =~= cs@.skip(i + 1));
            }
            i = i + 1;
            proof {
                assert(out@ + substitute(cs@.skip(i as int), a) =~= whole);
            }
        }
    }
    proof {
        assert(cs@.skip(i as int) =~= Seq::<char>::empty());
        assert(out@ =~= whole);
    }
    out
}

proof fn lemma_substitute_from_no_brace(s: Seq<char>, args: Seq<(Seq<char>, Seq<char>)>, j: int)
    requires
        0 <= j,
        !s.contains('{'),
    ensures
        substitute_from(s, args, j) == s,
    decreases s.len(), args.len() - j,
{
    if s.len() > 0 {
        if j < args.len() {
            assert(!starts_with_placeholder(s, args[j].0)) by {
                assert(s[0] != '{');
                if placeholder(args[j].0).len() <= s.len() {
                    assert(s.take(placeholder(args[j].0).len() as int)[0] == s[0]);
                    assert(placeholder(args[j].0)[0] == '{');
                }
            }
            lemma_substitute_from_no_brace(s, args, j + 1);
        } else {
            assert forall|i: int| 0 <= i < s.drop_first().len() implies s.drop_first()[i] != '{' by {
                assert(s.drop_first()[i] == s[i + 1]);
            }
            lemma_substitute_from_no_brace(s.drop_first(), args, 0);
            assert(seq![s[0]] + s.drop_first() =~= s);
        }
    }
}

/// A catalog string with no `{` in it comes out of `fmt` unchanged,
/// whatever the arguments.
pub proof fn law_fmt_without_placeholders(s: Seq<char>, args: Seq<(Seq<char>, Seq<char>)>)
    requires
        !s.contains('{'),
    ensures
        substitute(s, args) == s,
{
    lemma_substitute_from_no_brace(s, args, 0);
}

proof fn lemma_substitute_no_args(s: Seq<char>, args: Seq<(Seq<char>, Seq<char>)>)
    requires
        args.len() == 0,
    ensures
        substitute(s, args) == s,
    decreases s.len(),
{
    if s.len() > 0 {
        lemma_substitute_no_args(s.drop_first(), args);
        assert(seq![s[0]] + s.drop_first() =~= s);
    }
}

/// With no arguments, `fmt` returns exactly what `get` returns.
pub proof fn law_fmt_without_args(
    active: Map<Seq<Seq<char>>, Seq<char>>,
    english: Map<Seq<Seq<char>>, Seq<char>>,
    path: Seq<char>,
)
    ensures
        substitute(lookup_or_english(active, english, path), Seq::empty()) == lookup_or_english(active, english, path),
{
    lemma_substitute_no_args(lookup_or_english(active, english, path), Seq::empty());
}

proof fn lemma_other_placeholder_does_not_start(a: Seq<char>, b: Seq<char>, rest: Seq<char>)
    requires
        a != b,
        !a.contains('}'),
        !b.contains('}'),
    ensures
        !starts_with_placeholder(placeholder(b) + rest, a),
{
    let s = placeholder(b) + rest;
    let pa = placeholder(a);
    if starts_with_placeholder(s, a) {
        assert(s.take(pa.len() as int) == pa);
        if a.len() < b.len() {
            assert(pa[(a.len() + 1) as int] == '}');
            assert(s[(a.len() + 1) as int] == b[a.len() as int]);
            assert(s.take(pa.len() as int)[(a.len() + 1) as int] == s[(a.len() + 1) as int]);
            assert(b.contains(b[a.len() as int]));
        } else if a.len() == b.len() {
            assert forall|i: int| 0 <= i < a.len() implies a[i] == b[i] by {
                assert(pa[i + 1] == a[i]);
                assert(s.take(pa.len() as int)[i + 1] == s[i + 1]);
            }
            assert(a =~= b);
        } else {
            assert(s[(b.len() + 1) as int] == '}');
            assert(pa[(b.len() + 1) as int] == a[b.len() as int]);
            assert(s.take(pa.len() as int)[(b.len() + 1) as int] == s[(b.len() + 1) as int]);
            assert(a.contains(a[b.len() as int]));
        }
    }
}

/// Text where no argument's placeholder begins is copied as it is, one
/// character at a time.
pub proof fn law_fmt_copies_other_text(c: char, rest: Seq<char>, args: Seq<(Seq<char>, Seq<char>)>)
    requires
        forall|j: int| 0 <= j < args.len() ==> !starts_with_placeholder(seq![c] + rest, (#[trigger] args[j]).0),
    ensures
        substitute(seq![c] + rest, args) == seq![c] + substitute(rest, args),
{
    lemma_no_argument_matches(c, rest, args, 0);
    assert((seq![c] + rest).drop_first() =~= rest);
}

proof fn lemma_no_argument_matches(c: char, rest: Seq<char>, args: Seq<(Seq<char>, Seq<char>)>, j: int)
    requires
        0 <= j <= args.len(),
        forall|i: int| 0 <= i < args.len() ==> !starts_with_placeholder(seq![c] + rest, (#[trigger] args[i]).0),
    ensures
        substitute_from(seq![c] + rest, args, j) == substitute_from(seq![c] + rest, args, args.len() as int),
    decreases args.len() - j,
{
    if j < args.len() {
        assert(!starts_with_placeholder(seq![c] + rest, args[j].0));
        lemma_no_argument_matches(c, rest, args, j + 1);
    }
}

/// Every language code listed as shipped has a bundled catalog, and every
/// bundled catalog is listed.
pub proof fn law_shipped_codes_are_bundled(code: Seq<char>)
    ensures
        forall|i: int| 0 <= i < 10 ==> (#[trigger] bundled_text(SHIPPED_CODES@[i]@)) is Some,
        bundled_text(code) is Some ==> exists|i: int| 0 <= i < 10 && (#[trigger] SHIPPED_CODES@[i])@ == code,
{
    reveal_strlit("de");
    reveal_strlit("en");
    reveal_strlit("es");
    reveal_strlit("fr");
    reveal_strlit("it");
    reveal_strlit("nl");
    reveal_strlit("pt-br");
    reveal_strlit("pt");
    reveal_strlit("zh-hans");
    reveal_strlit("zh-hant");
    assert(SHIPPED_CODES@[0]@ == "de"@);
    assert(SHIPPED_CODES@[1]@ == "en"@);
    assert(SHIPPED_CODES@[2]@ == "es"@);
    assert(SHIPPED_CODES@[3]@ == "fr"@);
    assert(SHIPPED_CODES@[4]@ == "it"@);
    assert(SHIPPED_CODES@[5]@ == "nl"@);
    assert(SHIPPED_CODES@[6]@ == "pt-br"@);
    assert(SHIPPED_CODES@[7]@ == "pt"@);
    assert(SHIPPED_CODES@[8]@ == "zh-hans"@);
    assert(SHIPPED_CODES@[9]@ == "zh-hant"@);
}

/// Every argument is used, not only the first: where the placeholder of
/// the argument at index `k` begins, its value is put in and scanning goes
/// on after the placeholder, provided no earlier argument has the same key
/// (the first of equal keys wins). Keys are taken without `}` in them, as a
/// placeholder cannot hold one.
pub proof fn law_fmt_fills_every_argument(
    args: Seq<(Seq<char>, Seq<char>)>,
    k: int,
    rest: Seq<char>,
)
    requires
        0 <= k < args.len(),
        forall|j: int| 0 <= j < k ==> (#[trigger] args[j]).0 != args[k].0,
        forall|j: int| 0 <= j <= k ==> !(#[trigger] args[j]).0.contains('}'),
    ensures
        substitute(placeholder(args[k].0) + rest, args) == args[k].1 + substitute(rest, args),
{
    let s = placeholder(args[k].0) + rest;
    assert(s.take(placeholder(args[k].0).len() as int) =~= placeholder(args[k].0));
    assert(s.skip(placeholder(args[k].0).len() as int) =~= rest);
    lemma_earlier_arguments_pass(args, k, rest, 0);
}

proof fn lemma_earlier_arguments_pass(args: Seq<(Seq<char>, Seq<char>)>, k: int, rest: Seq<char>, j: int)
    requires
        0 <= j <= k < args.len(),
        forall|i: int| 0 <= i < k ==> (#[trigger] args[i]).0 != args[k].0,
        forall|i: int| 0 <= i <= k ==> !(#[trigger] args[i]).0.contains('}'),
    ensures
        substitute_from(placeholder(args[k].0) + rest, args, j) == substitute_from(placeholder(args[k].0) + rest, args, k),
    decreases k - j,
{
    if j < k {
        assert(!args[j].0.contains('}'));
        assert(args[j].0 != args[k].0);
        lemma_other_placeholder_does_not_start(args[j].0, args[k].0, rest);
        lemma_earlier_arguments_pass(args, k, rest, j + 1);
    }
}

/// Substitution is a single pass: the value put in for a placeholder is
/// copied verbatim and scanning resumes after the placeholder, so a value
/// that itself contains `{...}` is never rewritten by a later argument.
pub proof fn law_fmt_value_not_rescanned(
    key: Seq<char>,
    value: Seq<char>,
    rest: Seq<char>,
    args: Seq<(Seq<char>, Seq<char>)>,
)
    requires
        args.len() > 0,
        args[0] == (key, value),
    ensures
        substitute(placeholder(key) + rest, args) == value + substitute(rest, args),
{
    let s = placeholder(key) + rest;
    assert(s.take(placeholder(key).len() as int) =~= placeholder(key));
    assert(s.skip(placeholder(key).len() as int) =~= rest);
}

/// The position of the first `c` in `t`, if any.
pub open spec fn first_index(t: Seq<char>, c: char) -> Option<int>
    decreases t.len(),
{
    if t.len() == 0 {
        None
    } else if t[0] == c {
        Some(0)
    } else {
        match first_index(t.drop_first(), c) {
            Some(k) => Some(k + 1),
            None => None,
        }
    }
}

/// `first_index` points at the first occurrence of `c`, and at none when
/// `c` does not occur.
pub proof fn lemma_first_index(t: Seq<char>, c: char)
    ensures
        first_index(t, c) matches Some(k) ==> 0 <= k < t.len() && t[k] == c
            && forall|j: int| 0 <= j < k ==> t[j] != c,
        first_index(t, c) is None ==> forall|j: int| 0 <= j < t.len() ==> t[j] != c,
    decreases t.len(),
{
    if t.len() > 0 {
        lemma_first_index(t.drop_first(), c);
        if t[0] != c {
            assert forall|j: int| 1 <= j < t.len() implies t[j] == t.drop_first()[j - 1] by {}
        }
    }
}

/// The `{word}` placeholders of a catalog string, in order: a `{` followed
/// by the next `}`, with no `{` between them, is a placeholder; a doubled
/// `{{` is skipped as an escape; a `{` with no `}` after it is ignored.
pub open spec fn placeholders_spec(s: Seq<char>) -> Seq<Seq<char>>
    decreases s.len(),
{
    if s.len() == 0 {
        Seq::empty()
    } else if s[0] == '{' && s.len() > 1 && s[1] == '{' {
        placeholders_spec(s.skip(2))
    } else if s[0] == '{' && first_index(s.drop_first(), '}') is Some {
        let e = first_index(s.drop_first(), '}')->0;
        proof {
            lemma_first_index(s.drop_first(), '}');
        }
        let inner = s.subrange(1, 1 + e);
        (if inner.contains('{') { Seq::empty() } else { seq![placeholder(inner)] })
            + placeholders_spec(s.skip(e + 2))
    } else {
        placeholders_spec(s.drop_first())
    }
}

/// Extracts the `{word}` placeholders of a catalog string, in order, each
/// with its braces; doubled braces (`{{`) are skipped.
pub fn placeholders(s: &str) -> (r: Vec<String>)
    ensures
        r@.map_values(|x: String| x@) == placeholders_spec(s@),
{
    let cs = chars_of(s);
    let ghost whole = placeholders_spec(s@);
    let mut out: Vec<String> = Vec::new();
    let mut i: usize = 0;
    assert(cs@.skip(0) =~= cs@);
    while i < cs.len()
        invariant
            i <= cs.len(),
            cs@ == s@,
            whole == placeholders_spec(s@),
            out@.map_values(|x: String| x@) + placeholders_spec(cs@.skip(i as int)) == whole,
        decreases cs.len() - i,
    {
        let ghost rest = cs@.skip(i as int);
        let ghost before = out@.map_values(|x: String| x@);
        if cs[i] == '{' {
            if i + 1 < cs.len() && cs[i + 1] == '{' {
                assert(rest.skip(2) =~= cs@.skip(i + 2));
                i = i + 2;
                continue;
            }
            let mut k: usize = i + 1;
            while k < cs.len() && cs[k] != '}'
                invariant
                    i + 1 <= k <= cs.len(),
                    forall|j: int| i + 1 <= j < k ==> cs@[j] != '}',
                decreases cs.len() - k,
            {
                k = k + 1;
            }
            proof {
                lemma_first_index(rest.drop_first(), '}');
                assert forall|j: int| 0 <= j < k - i - 1 implies rest.drop_first()[j] != '}' by {
                    assert(rest.drop_first()[j] == cs@[i + 1 + j]);
                }
            }
            if k < cs.len() {
                proof {
                    assert(rest.drop_first()[k - i - 1] == '}');
                    let e = first_index(rest.drop_first(), '}');
                    if let Some(x) = e {
                        if x < k - i - 1 {
                            assert(rest.drop_first()[x] == cs@[i + 1 + x]);
                        }
                        assert(x == k - i - 1);
                    }
                    assert(rest.skip(k - i + 1) =~= cs@.skip(k + 1));
                    assert(rest.subrange(1, k - i) =~= cs@.subrange(i + 1, k as int));
                }
                let mut inner: Vec<char> = Vec::new();
                let mut has_open = false;
                let mut j: usize = i + 1;
                while j < k
                    invariant
                        i + 1 <= j <= k < cs.len(),
                        inner@ == cs@.subrange(i + 1, j as int),
                        has_open == inner@.contains('{'),
                    decreases k - j,
                {
                    if cs[j] == '{' {
                        has_open = true;
                    }
                    proof {
                        assert(inner@.push(cs@[j as int]).last() == cs@[j as int]);
                        if has_open && !inner@.contains('{') {
                            assert(inner@.push(cs@[j as int])[inner@.len() as int] == '{');
                        }
                        if inner@.contains('{') {
                            let w = choose|w: int| 0 <= w < inner@.len() && inner@[w] == '{';
                            assert(inner@.push(cs@[j as int])[w] == '{');
                        }
                        if !has_open {
                            assert forall|w: int| 0 <= w < inner@.len() + 1 implies inner@.push(cs@[j as int])[w] != '{' by {
                                if w < inner@.len() {
                                    assert(inner@.push(cs@[j as int])[w] == inner@[w]);
                                }
                            }
                        }
                    }
                    inner.push(cs[j]);
                    j = j + 1;
                    assert(inner@ =~= cs@.subrange(i + 1, j as int));
                }
                if !has_open {
                    let mut ph = String::new();
                    push_char(&mut ph, '{');
                    let mut w: usize = 0;
                    while w < inner.len()
                        invariant
                            w <= inner.len(),
                            ph@ == seq!['{'] + inner@.take(w as int),
                        decreases inner.len() - w,
                    {
                        push_char(&mut ph, inner[w]);
                        w = w + 1;
                        assert(ph@ =~= seq!['{'] + inner@.take(w as int));
                    }
                    push_char(&mut ph, '}');
                    assert(inner@.take(w as int) =~= inner@);
                    assert(ph@ =~= placeholder(inner@));
                    out.push(ph);
                    assert(out@.map_values(|x: String| x@) =~= before.push(placeholder(inner@)));
                    assert(before.push(placeholder(inner@)) + placeholders_spec(cs@.skip(k + 1))
                        =~= before + (seq![placeholder(inner@)] + placeholders_spec(cs@.skip(k + 1))));
                } else {
                    assert(before + (Seq::<Seq<char>>::empty() + placeholders_spec(cs@.skip(k + 1)))
                        =~= before + placeholders_spec(cs@.skip(k + 1)));
                }
                i = k + 1;
                continue;
            }
            proof {
                assert(first_index(rest.drop_first(), '}') is None) by {
                    if let Some(x) = first_index(rest.drop_first(), '}') {
                        assert(rest.drop_first()[x] == cs@[i + 1 + x]);
                    }
                }
            }
        }
        assert(rest.drop_first() =~= cs@.skip(i + 1));
        i = i + 1;
    }
    assert(placeholders_spec(cs@.skip(i as int)) =~= Seq::<Seq<char>>::empty()) by {
        assert(cs@.skip(i as int).len() == 0);
    }
    assert(out@.map_values(|x: String| x@) =~= whole);
    out
}

/// The catalog text compiled in for a language code, if that language
/// ships with the library.
pub open spec fn bundled_text(code: Seq<char>) -> Option<&'static str> {
    if code == "de"@ {
        Some(LOCALE_DE)
    } else if code == "en"@ {
        Some(LOCALE_EN)
    } else if code == "es"@ {
        Some(LOCALE_ES)
    } else if code == "fr"@ {
        Some(LOCALE_FR)
    } else if code == "it"@ {
        Some(LOCALE_IT)
    } else if code == "nl"@ {
        Some(LOCALE_NL)
    } else if code == "pt-br"@ {
        Some(LOCALE_PT_BR)
    } else if code == "pt"@ {
        Some(LOCALE_PT)
    } else if code == "zh-hans"@ {
        Some(LOCALE_ZH_HANS)
    } else if code == "zh-hant"@ {
        Some(LOCALE_ZH_HANT)
    } else {
        None
    }
}

/// The language codes whose catalog is compiled into the library.
pub open spec fn is_bundled(code: Seq<char>) -> bool {
    bundled_text(code) is Some
}

/// The bundled catalog text for a language code, if that language ships
/// with the library; any other code is looked for on disk at run time.
pub fn bundled_locale(code: &str) -> (r: Option<&'static str>)
    ensures
        r == bundled_text(code@),
{
    if str_eq(code, "de") {
        Some(LOCALE_DE)
    } else if str_eq(code, "en") {
        Some(LOCALE_EN)
    } else if str_eq(code, "es") {
        Some(LOCALE_ES)
    } else if str_eq(code, "fr") {
        Some(LOCALE_FR)
    } else if str_eq(code, "it") {
        Some(LOCALE_IT)
    } else if str_eq(code, "nl") {
        Some(LOCALE_NL)
    } else if str_eq(code, "pt-br") {
        Some(LOCALE_PT_BR)
    } else if str_eq(code, "pt") {
        Some(LOCALE_PT)
    } else if str_eq(code, "zh-hans") {
        Some(LOCALE_ZH_HANS)
    } else if str_eq(code, "zh-hant") {
        Some(LOCALE_ZH_HANT)
    } else {
        None
    }
}

/// The bundled (compiled-in) catalog text for `code`, if that language is
/// shipped, so that callers can check coverage against the exact bundled
/// data.
pub fn bundled_locale_json(code: &str) -> (r: Option<&'static str>)
    ensures
        r == bundled_text(code@),
{
    bundled_locale(code)
}

/// The head every bundled catalog text starts with: its `locale` member,
/// naming the language code the catalog is written for.
pub open spec fn declares_code(text: Seq<char>, code: Seq<char>) -> bool {
    let head = "{\n  \"locale\": \""@ + code + "\","@;
    head.len() <= text.len() && text.take(head.len() as int) == head
}

/// The catalog bundled for a code is the one written for that code: its
/// text declares exactly that code, so no language is served another
/// language's catalog, and distinct codes get distinct catalogs.
pub proof fn law_bundled_catalog_is_for_its_code(code: Seq<char>, other: Seq<char>)
    ensures
        bundled_text(code) matches Some(t) ==> declares_code(t@, code),
        bundled_text(code) is Some && bundled_text(other) is Some && code != other
            ==> bundled_text(code) != bundled_text(other),
{
    lemma_bundled_declares(code);
    lemma_bundled_declares(other);
    if bundled_text(code) is Some && bundled_text(other) is Some && code != other
        && bundled_text(code) == bundled_text(other) {
        lemma_declared_code_unique(bundled_text(code)->0@, code, other);
    }
}

proof fn lemma_declared_code_unique(t: Seq<char>, a: Seq<char>, b: Seq<char>)
    requires
        declares_code(t, a),
        declares_code(t, b),
        !a.contains('"'),
        !b.contains('"'),
    ensures
        a == b,
{
    let pre = "{\n  \"locale\": \""@;
    let q = "\","@;
    reveal_strlit("\",");
    assert(q =~= seq!['"', ',']);
    let ha = pre + a + q;
    let hb = pre + b + q;
    if a.len() < b.len() {
        assert(t[(pre.len() + a.len()) as int] == ha[(pre.len() + a.len()) as int]);
        assert(t[(pre.len() + a.len()) as int] == hb[(pre.len() + a.len()) as int]);
        assert(b[a.len() as int] == '"');
        assert(b.contains(b[a.len() as int]));
    } else if b.len() < a.len() {
        assert(t[(pre.len() + b.len()) as int] == ha[(pre.len() + b.len()) as int]);
        assert(t[(pre.len() + b.len()) as int] == hb[(pre.len() + b.len()) as int]);
        assert(a[b.len() as int] == '"');
        assert(a.contains(a[b.len() as int]));
    } else {
        assert forall|i: int| 0 <= i < a.len() implies a[i] == b[i] by {
            assert(t[(pre.len() + i) as int] == ha[(pre.len() + i) as int]);
            assert(t[(pre.len() + i) as int] == hb[(pre.len() + i) as int]);
        }
        assert(a =~= b);
    }
}

/// Each bundled catalog text declares the code it is bundled under, which
/// has no `"` in it.
proof fn lemma_bundled_declares(code: Seq<char>)
    ensures
        bundled_text(code) matches Some(t) ==> declares_code(t@, code) && !code.contains('"'),
{
    reveal_strlit("{\n  \"locale\": \"");
    reveal_strlit("\",");
    reveal_strlit("de");
    reveal_strlit("en");
    reveal_strlit("es");
    reveal_strlit("fr");
    reveal_strlit("it");
    reveal_strlit("nl");
    reveal_strlit("pt-br");
    reveal_strlit("pt");
    reveal_strlit("zh-hans");
    reveal_strlit("zh-hant");
    if code == "de"@ {
        reveal_strlit("de");
        reveal_strlit(r#"{
  "locale": "de",
  "app": {
    "opt_quiet": "Nur Fehler ausgeben",
    "opt_verbose": "Detaillierten Fortschritt ausgeben",
    "unknown_option": "Unbekannte Option: {opt}"
  },
  "disc": {
    "scanning": "Disc wird gelesen..."
  },
  "error": {
    "no_drive": "Kein optisches Laufwerk gefunden",
    "open_failed": "{device} kann nicht geöffnet werden: {error}",
    "E1000": "Laufwerk nicht gefunden: {detail}",
    "E7022": "Keine Schlüsselquelle hat einen Entschlüsselungsschlüssel für diese Disc (ID: {hash})"
  }
}"#);
        let head = "{\n  \"locale\": \""@ + code + "\","@;
        assert(LOCALE_DE@.take(head.len() as int) =~= head);
        assert(!code.contains('"')) by {
            if code.contains('"') {
                let k = choose|k: int| 0 <= k < code.len() && code[k] == '"';
            }
        }
    } else if code == "en"@ {
        reveal_strlit("en");
        reveal_strlit(r#"{
  "locale": "en",
  "app": {
    "opt_quiet": "Only print errors",
    "opt_verbose": "Print detailed progress",
    "unknown_option": "Unknown option: {opt}"
  },
  "disc": {
    "scanning": "Scanning disc..."
  },
  "error": {
    "no_drive": "No optical drive found",
    "open_failed": "Cannot open {device}: {error}",
    "E1000": "Drive not found: {detail}",
    "E7022": "No key source has a decryption key for this disc (id: {hash})"
  }
}"#);
        let head = "{\n  \"locale\": \""@ + code + "\","@;
        assert(LOCALE_EN@.take(head.len() as int) =~= head);
        assert(!code.contains('"')) by {
            if code.contains('"') {
                let k = choose|k: int| 0 <= k < code.len() && code[k] == '"';
            }
        }
    } else if code == "es"@ {
        reveal_strlit("es");
        reveal_strlit(r#"{
  "locale": "es",
  "app": {
    "opt_quiet": "Solo mostrar errores",
    "opt_verbose": "Mostrar el progreso detallado",
    "unknown_option": "Opción desconocida: {opt}"
  },
  "disc": {
    "scanning": "Escaneando el disco..."
  },
  "error": {
    "no_drive": "No se encontró ninguna unidad óptica",
    "open_failed": "No se puede abrir {device}: {error}",
    "E1000": "Unidad no encontrada: {detail}",
    "E7022": "Ninguna fuente de claves tiene una clave de descifrado para este disco (id: {hash})"
  }
}"#);
        let head = "{\n  \"locale\": \""@ + code + "\","@;
        assert(LOCALE_ES@.take(head.len() as int) =~= head);
        assert(!code.contains('"')) by {
            if code.contains('"') {
                let k = choose|k: int| 0 <= k < code.len() && code[k] == '"';
            }
        }
    } else if code == "fr"@ {
        reveal_strlit("fr");
        reveal_strlit(r#"{
  "locale": "fr",
  "app": {
    "opt_quiet": "N'afficher que les erreurs",
    "opt_verbose": "Afficher la progression détaillée",
    "unknown_option": "Option inconnue : {opt}"
  },
  "disc": {
    "scanning": "Analyse du disque..."
  },
  "error": {
    "no_drive": "Aucun lecteur optique trouvé",
    "open_failed": "Impossible d'ouvrir {device} : {error}",
    "E1000": "Lecteur introuvable : {detail}",
    "E7022": "Aucune source de clés n'a de clé de déchiffrement pour ce disque (id : {hash})"
  }
}"#);
        let head = "{\n  \"locale\": \""@ + code + "\","@;
        assert(LOCALE_FR@.take(head.len() as int) =~= head);
        assert(!code.contains('"')) by {
            if code.contains('"') {
                let k = choose|k: int| 0 <= k < code.len() && code[k] == '"';
            }
        }
    } else if code == "it"@ {
        reveal_strlit("it");
        reveal_strlit(r#"{
  "locale": "it",
  "app": {
    "opt_quiet": "Mostra solo gli errori",
    "opt_verbose": "Mostra l'avanzamento dettagliato",
    "unknown_option": "Opzione sconosciuta: {opt}"
  },
  "disc": {
    "scanning": "Scansione del disco..."
  },
  "error": {
    "no_drive": "Nessuna unità ottica trovata",
    "open_failed": "Impossibile aprire {device}: {error}",
    "E1000": "Unità non trovata: {detail}",
    "E7022": "Nessuna fonte di chiavi ha una chiave di decrittazione per questo disco (id: {hash})"
  }
}"#);
        let head = "{\n  \"locale\": \""@ + code + "\","@;
        assert(LOCALE_IT@.take(head.len() as int) =~= head);
        assert(!code.contains('"')) by {
            if code.contains('"') {
                let k = choose|k: int| 0 <= k < code.len() && code[k] == '"';
            }
        }
    } else if code == "nl"@ {
        reveal_strlit("nl");
        reveal_strlit(r#"{
  "locale": "nl",
  "app": {
    "opt_quiet": "Alleen fouten tonen",
    "opt_verbose": "Gedetailleerde voortgang tonen",
    "unknown_option": "Onbekende optie: {opt}"
  },
  "disc": {
    "scanning": "Schijf wordt gescand..."
  },
  "error": {
    "no_drive": "Geen optisch station gevonden",
    "open_failed": "Kan {device} niet openen: {error}",
    "E1000": "Station niet gevonden: {detail}",
    "E7022": "Geen enkele sleutelbron heeft een ontsleutelingssleutel voor deze schijf (id: {hash})"
  }
}"#);
        let head = "{\n  \"locale\": \""@ + code + "\","@;
        assert(LOCALE_NL@.take(head.len() as int) =~= head);
        assert(!code.contains('"')) by {
            if code.contains('"') {
                let k = choose|k: int| 0 <= k < code.len() && code[k] == '"';
            }
        }
    } else if code == "pt-br"@ {
        reveal_strlit("pt-br");
        reveal_strlit(r#"{
  "locale": "pt-br",
  "app": {
    "opt_quiet": "Exibir apenas erros",
    "opt_verbose": "Exibir o progresso detalhado",
    "unknown_option": "Opção desconhecida: {opt}"
  },
  "disc": {
    "scanning": "Analisando o disco..."
  },
  "error": {
    "no_drive": "Nenhuma unidade óptica encontrada",
    "open_failed": "Não foi possível abrir {device}: {error}",
    "E1000": "Unidade não encontrada: {detail}",
    "E7022": "Nenhuma fonte de chaves tem uma chave de descriptografia para este disco (id: {hash})"
  }
}"#);
        let head = "{\n  \"locale\": \""@ + code + "\","@;
        assert(LOCALE_PT_BR@.take(head.len() as int) =~= head);
        assert(!code.contains('"')) by {
            if code.contains('"') {
                let k = choose|k: int| 0 <= k < code.len() && code[k] == '"';
            }
        }
    } else if code == "pt"@ {
        reveal_strlit("pt");
        reveal_strlit(r#"{
  "locale": "pt",
  "app": {
    "opt_quiet": "Mostrar apenas erros",
    "opt_verbose": "Mostrar o progresso detalhado",
    "unknown_option": "Opção desconhecida: {opt}"
  },
  "disc": {
    "scanning": "A analisar o disco..."
  },
  "error": {
    "no_drive": "Nenhuma unidade ótica encontrada",
    "open_failed": "Não é possível abrir {device}: {error}",
    "E1000": "Unidade não encontrada: {detail}",
    "E7022": "Nenhuma fonte de chaves tem uma chave de desencriptação para este disco (id: {hash})"
  }
}"#);
        let head = "{\n  \"locale\": \""@ + code + "\","@;
        assert(LOCALE_PT@.take(head.len() as int) =~= head);
        assert(!code.contains('"')) by {
            if code.contains('"') {
                let k = choose|k: int| 0 <= k < code.len() && code[k] == '"';
            }
        }
    } else if code == "zh-hans"@ {
        reveal_strlit("zh-hans");
        reveal_strlit(r#"{
  "locale": "zh-hans",
  "app": {
    "opt_quiet": "仅输出错误",
    "opt_verbose": "输出详细进度",
    "unknown_option": "未知选项：{opt}"
  },
  "disc": {
    "scanning": "正在扫描光盘..."
  },
  "error": {
    "no_drive": "未找到光驱",
    "open_failed": "无法打开 {device}：{error}",
    "E1000": "未找到驱动器：{detail}",
    "E7022": "没有任何密钥来源拥有此光盘的解密密钥（ID：{hash}）"
  }
}"#);
        let head = "{\n  \"locale\": \""@ + code + "\","@;
        assert(LOCALE_ZH_HANS@.take(head.len() as int) =~= head);
        assert(!code.contains('"')) by {
            if code.contains('"') {
                let k = choose|k: int| 0 <= k < code.len() && code[k] == '"';
            }
        }
    } else if code == "zh-hant"@ {
        reveal_strlit("zh-hant");
        reveal_strlit(r#"{
  "locale": "zh-hant",
  "app": {
    "opt_quiet": "僅輸出錯誤",
    "opt_verbose": "輸出詳細進度",
    "unknown_option": "未知選項：{opt}"
  },
  "disc": {
    "scanning": "正在掃描光碟..."
  },
  "error": {
    "no_drive": "找不到光碟機",
    "open_failed": "無法開啟 {device}：{error}",
    "E1000": "找不到光碟機：{detail}",
    "E7022": "沒有任何金鑰來源擁有此光碟的解密金鑰（ID：{hash}）"
  }
}"#);
        let head = "{\n  \"locale\": \""@ + code + "\","@;
        assert(LOCALE_ZH_HANT@.take(head.len() as int) =~= head);
        assert(!code.contains('"')) by {
            if code.contains('"') {
                let k = choose|k: int| 0 <= k < code.len() && code[k] == '"';
            }
        }
    }
}

} // verus!
