//! Error-code messages: the placeholders a bare error code cannot fill are
//! dropped rather than shown, and the gaps that leaves are tidied.

use vstd::prelude::*;
use crate::catalog::{
    Catalog, first_index, lemma_first_index, placeholder, substitute, args_view, lookup_or_english,
    get, substitute_in,
};
use crate::text::{chars_of, string_of, str_eq, push_decimal, decimal};

verus! {

/// `s` with its placeholders (`{` up to the next `}`, with no `{` between)
/// removed, except `{detail}` when `keep_detail`; the flag tells whether
/// anything was removed. A `{` that starts no placeholder is kept.
pub open spec fn drop_placeholders(s: Seq<char>, keep_detail: bool) -> (Seq<char>, bool)
    decreases s.len(),
{
    if s.len() == 0 {
        (Seq::empty(), false)
    } else if s[0] == '{' && first_index(s.drop_first(), '}') is Some {
        let e = first_index(s.drop_first(), '}')->0;
        proof {
            lemma_first_index(s.drop_first(), '}');
        }
        let inner = s.subrange(1, 1 + e);
        if inner.contains('{') {
            let (t, d) = drop_placeholders(s.drop_first(), keep_detail);
            (seq![s[0]] + t, d)
        } else if keep_detail && inner == "detail"@ {
            let (t, d) = drop_placeholders(s.skip(e + 2), keep_detail);
            (placeholder(inner) + t, d)
        } else {
            let (t, d) = drop_placeholders(s.skip(e + 2), keep_detail);
            (t, true)
        }
    } else {
        let (t, d) = drop_placeholders(s.drop_first(), keep_detail);
        (seq![s[0]] + t, d)
    }
}

/// Runs of spaces collapsed to one space.
pub open spec fn collapse_spaces(s: Seq<char>) -> Seq<char>
    decreases s.len(),
{
    if s.len() == 0 {
        Seq::empty()
    } else if s.len() >= 2 && s[0] == ' ' && s[1] == ' ' {
        collapse_spaces(s.drop_first())
    } else {
        seq![s[0]] + collapse_spaces(s.drop_first())
    }
}

/// Punctuation that takes no space before it.
pub open spec fn is_closing(c: char) -> bool {
    c == '.' || c == ',' || c == ':' || c == ';' || c == '!' || c == '?' || c == ')' || c == '）'
}

/// Brackets that take no space after them.
pub open spec fn is_opening(c: char) -> bool {
    c == '(' || c == '（'
}

/// A space before closing punctuation, and a space after an opening
/// bracket, removed.
pub open spec fn fix_spacing(s: Seq<char>) -> Seq<char>
    decreases s.len(),
{
    if s.len() == 0 {
        Seq::empty()
    } else if s.len() >= 2 && s[0] == ' ' && is_closing(s[1]) {
        fix_spacing(s.drop_first())
    } else if s.len() >= 2 && is_opening(s[0]) && s[1] == ' ' {
        seq![s[0]] + fix_spacing(s.skip(2))
    } else {
        seq![s[0]] + fix_spacing(s.drop_first())
    }
}

/// An empty pair at the front: `()`, `''` or `（）`.
pub open spec fn starts_empty_pair(s: Seq<char>) -> bool {
    s.len() >= 2 && ((s[0] == '(' && s[1] == ')') || (s[0] == '\'' && s[1] == '\'') || (s[0] == '（' && s[1] == '）'))
}

/// A label-only parenthetical at the front, such as `(id:)`: `(`, then text
/// with no `(` ending in `:`, then the first `)`.
pub open spec fn starts_label_only(s: Seq<char>) -> bool {
    &&& s.len() > 0
    &&& s[0] == '('
    &&& first_index(s.drop_first(), ')') is Some
    &&& {
        let e = first_index(s.drop_first(), ')')->0;
        let inner = s.subrange(1, 1 + e);
        inner.len() > 0 && inner.last() == ':' && !inner.contains('(')
    }
}

/// Empty pairs and label-only parentheticals removed.
pub open spec fn drop_empty_slots(s: Seq<char>) -> Seq<char>
    decreases s.len(),
{
    if s.len() == 0 {
        Seq::empty()
    } else if starts_empty_pair(s) {
        drop_empty_slots(s.skip(2))
    } else if starts_label_only(s) {
        let e = first_index(s.drop_first(), ')')->0;
        proof {
            lemma_first_index(s.drop_first(), ')');
        }
        drop_empty_slots(s.skip(e + 2))
    } else {
        seq![s[0]] + drop_empty_slots(s.drop_first())
    }
}

pub open spec fn trim_spaces_start(s: Seq<char>) -> Seq<char>
    decreases s.len(),
{
    if s.len() > 0 && s[0] == ' ' { trim_spaces_start(s.drop_first()) } else { s }
}

pub open spec fn trim_spaces_end(s: Seq<char>) -> Seq<char>
    decreases s.len(),
{
    if s.len() > 0 && s.last() == ' ' { trim_spaces_end(s.drop_last()) } else { s }
}

/// Leading and trailing spaces removed, then a dangling final `:` and the
/// spaces before it.
pub open spec fn finish(s: Seq<char>) -> Seq<char> {
    let t = trim_spaces_end(trim_spaces_start(s));
    if t.len() > 0 && t.last() == ':' { trim_spaces_end(t.drop_last()) } else { t }
}

/// What dropping placeholders leaves, cleaned up: spacing around
/// punctuation and brackets, empty brackets and quotes, label-only
/// parentheticals, runs of spaces, and a dangling final `:`. Only spaces,
/// brackets, quotes and punctuation are ever removed, never letters.
pub open spec fn tidy(s: Seq<char>) -> Seq<char> {
    finish(fix_spacing(collapse_spaces(drop_empty_slots(fix_spacing(collapse_spaces(s))))))
}

/// The message for an error's catalog string: unfilled placeholders are
/// dropped (and the result tidied when anything was dropped); with a
/// detail, `{detail}` is kept and then filled with it, verbatim.
pub open spec fn error_text(template: Seq<char>, detail: Option<Seq<char>>) -> Seq<char> {
    let (t, dropped) = drop_placeholders(template, detail is Some);
    let t2 = if dropped { tidy(t) } else { t };
    match detail {
        Some(d) => substitute(t2, seq![("detail"@, d)]),
        None => t2,
    }
}


/// The first `c` in `cs` at or after `start`.
fn find_from(cs: &Vec<char>, start: usize, c: char) -> (r: Option<usize>)
    requires
        start <= cs.len(),
    ensures
        match r {
            Some(k) => start <= k < cs.len() && first_index(cs@.skip(start as int), c) == Some(k - start),
            None => first_index(cs@.skip(start as int), c) is None,
        },
{
    let mut k: usize = start;
    while k < cs.len()
        invariant
            start <= k <= cs.len(),
            forall|j: int| start <= j < k ==> cs@[j] != c,
        decreases cs.len() - k,
    {
        if cs[k] == c {
            proof {
                let t = cs@.skip(start as int);
                lemma_first_index(t, c);
                assert(t[k - start] == c);
                if let Some(x) = first_index(t, c) {
                    if x < k - start {
                        assert(t[x] == cs@[start + x]);
                    }
                }
            }
            return Some(k);
        }
        k = k + 1;
    }
    proof {
        let t = cs@.skip(start as int);
        lemma_first_index(t, c);
        if let Some(x) = first_index(t, c) {
            assert(t[x] == cs@[start + x]);
        }
    }
    None
}

/// Whether `cs[from..to]` holds `c`.
fn contains_between(cs: &Vec<char>, from: usize, to: usize, c: char) -> (r: bool)
    requires
        from <= to <= cs.len(),
    ensures
        r == cs@.subrange(from as int, to as int).contains(c),
{
    let mut j: usize = from;
    while j < to
        invariant
            from <= j <= to <= cs.len(),
            forall|w: int| from <= w < j ==> cs@[w] != c,
        decreases to - j,
    {
        if cs[j] == c {
            assert(cs@.subrange(from as int, to as int)[j - from] == c);
            return true;
        }
        j = j + 1;
    }
    assert forall|w: int| 0 <= w < to - from implies cs@.subrange(from as int, to as int)[w] != c by {
        assert(cs@.subrange(from as int, to as int)[w] == cs@[from + w]);
    }
    false
}

fn copy_between(cs: &Vec<char>, from: usize, to: usize) -> (r: Vec<char>)
    requires
        from <= to <= cs.len(),
    ensures
        r@ == cs@.subrange(from as int, to as int),
{
    let mut out: Vec<char> = Vec::new();
    let mut j: usize = from;
    while j < to
        invariant
            from <= j <= to <= cs.len(),
            out@ == cs@.subrange(from as int, j as int),
        decreases to - j,
    {
        out.push(cs[j]);
        j = j + 1;
        assert(out@ =~= cs@.subrange(from as int, j as int));
    }
    out
}

fn append_chars(out: &mut Vec<char>, cs: &Vec<char>)
    ensures
        final(out)@ == old(out)@ + cs@,
{
    let mut j: usize = 0;
    while j < cs.len()
        invariant
            j <= cs.len(),
            out@ == old(out)@ + cs@.take(j as int),
        decreases cs.len() - j,
    {
        out.push(cs[j]);
        j = j + 1;
        assert(out@ =~= old(out)@ + cs@.take(j as int));
    }
    assert(cs@.take(j as int) =~= cs@);
}

/// Removes placeholders as `drop_placeholders` says.
pub fn drop_placeholders_in(cs: &Vec<char>, keep_detail: bool) -> (r: (Vec<char>, bool))
    ensures
        (r.0@, r.1) == drop_placeholders(cs@, keep_detail),
{
    let ghost whole = drop_placeholders(cs@, keep_detail);
    let mut out: Vec<char> = Vec::new();
    let mut dropped = false;
    let mut i: usize = 0;
    assert(cs@.skip(0) =~= cs@);
    assert(out@ + whole.0 =~= whole.0);
    while i < cs.len()
        invariant
            i <= cs.len(),
            whole == drop_placeholders(cs@, keep_detail),
            whole.0 == out@ + drop_placeholders(cs@.skip(i as int), keep_detail).0,
            whole.1 == (dropped || drop_placeholders(cs@.skip(i as int), keep_detail).1),
        decreases cs.len() - i,
    {
        let ghost rest = cs@.skip(i as int);
        assert(rest.drop_first() =~= cs@.skip(i + 1));
        let mut handled = false;
        if cs[i] == '{' {
            if let Some(k) = find_from(cs, i + 1, '}') {
                proof {
                    let e = (k - i - 1) as int;
                    assert(first_index(rest.drop_first(), '}') == Some(e));
                    assert(rest.subrange(1, 1 + e) =~= cs@.subrange(i + 1, k as int));
                    assert(rest.skip(e + 2) =~= cs@.skip(k + 1));
                }
                if contains_between(cs, i + 1, k, '{') {
                    out.push('{');
                    i = i + 1;
                } else {
                    let inner = copy_between(cs, i + 1, k);
                    let inner_s = string_of(&inner);
                    if keep_detail && str_eq(inner_s.as_str(), "detail") {
                        let ghost before = out@;
                        out.push('{');
                        append_chars(&mut out, &inner);
                        out.push('}');
                        proof {
                            assert(out@ =~= before + placeholder(inner@));
                        }
                    } else {
                        dropped = true;
                    }
                    i = k + 1;
                }
                handled = true;
            }
        }
        if !handled {
            out.push(cs[i]);
            i = i + 1;
        }
        proof {
            assert(whole.0 =~= out@ + drop_placeholders(cs@.skip(i as int), keep_detail).0);
        }
    }
    proof {
        assert(cs@.skip(i as int) =~= Seq::<char>::empty());
        assert(out@ + Seq::<char>::empty() =~= out@);
    }
    (out, dropped)
}


fn collapse_spaces_in(cs: &Vec<char>) -> (r: Vec<char>)
    ensures
        r@ == collapse_spaces(cs@),
{
    let ghost whole = collapse_spaces(cs@);
    let mut out: Vec<char> = Vec::new();
    let mut i: usize = 0;
    assert(cs@.skip(0) =~= cs@);
    assert(out@ + whole =~= whole);
    while i < cs.len()
        invariant
            i <= cs.len(),
            whole == collapse_spaces(cs@),
            whole == out@ + collapse_spaces(cs@.skip(i as int)),
        decreases cs.len() - i,
    {
        let ghost rest = cs@.skip(i as int);
        assert(rest.drop_first() =~= cs@.skip(i + 1));
        if !(i + 1 < cs.len() && cs[i] == ' ' && cs[i + 1] == ' ') {
            out.push(cs[i]);
        }
        i = i + 1;
        assert(whole =~= out@ + collapse_spaces(cs@.skip(i as int)));
    }
    assert(out@ + collapse_spaces(cs@.skip(i as int)) =~= out@);
    out
}

fn fix_spacing_in(cs: &Vec<char>) -> (r: Vec<char>)
    ensures
        r@ == fix_spacing(cs@),
{
    let ghost whole = fix_spacing(cs@);
    let mut out: Vec<char> = Vec::new();
    let mut i: usize = 0;
    assert(cs@.skip(0) =~= cs@);
    assert(out@ + whole =~= whole);
    while i < cs.len()
        invariant
            i <= cs.len(),
            whole == fix_spacing(cs@),
            whole == out@ + fix_spacing(cs@.skip(i as int)),
        decreases cs.len() - i,
    {
        let ghost rest = cs@.skip(i as int);
        assert(rest.drop_first() =~= cs@.skip(i + 1));
        let c = cs[i];
        if i + 1 < cs.len() && c == ' ' && {
            let d = cs[i + 1];
            d == '.' || d == ',' || d == ':' || d == ';' || d == '!' || d == '?' || d == ')' || d == '）'
        } {
            i = i + 1;
        } else if i + 1 < cs.len() && (c == '(' || c == '（') && cs[i + 1] == ' ' {
            assert(rest.skip(2) =~= cs@.skip(i + 2));
            out.push(c);
            i = i + 2;
        } else {
            out.push(c);
            i = i + 1;
        }
        assert(whole =~= out@ + fix_spacing(cs@.skip(i as int)));
    }
    assert(out@ + fix_spacing(cs@.skip(i as int)) =~= out@);
    out
}

fn drop_empty_slots_in(cs: &Vec<char>) -> (r: Vec<char>)
    ensures
        r@ == drop_empty_slots(cs@),
{
    let ghost whole = drop_empty_slots(cs@);
    let mut out: Vec<char> = Vec::new();
    let mut i: usize = 0;
    assert(cs@.skip(0) =~= cs@);
    assert(out@ + whole =~= whole);
    while i < cs.len()
        invariant
            i <= cs.len(),
            whole == drop_empty_slots(cs@),
            whole == out@ + drop_empty_slots(cs@.skip(i as int)),
        decreases cs.len() - i,
    {
        let ghost rest = cs@.skip(i as int);
        assert(rest.drop_first() =~= cs@.skip(i + 1));
        let c = cs[i];
        let pair = i + 1 < cs.len() && ((c == '(' && cs[i + 1] == ')') || (c == '\'' && cs[i + 1] == '\'')
            || (c == '（' && cs[i + 1] == '）'));
        assert(pair == starts_empty_pair(rest));
        if pair {
            assert(rest.skip(2) =~= cs@.skip(i + 2));
            i = i + 2;
        } else {
            let mut label_end: Option<usize> = None;
            if c == '(' {
                if let Some(k) = find_from(cs, i + 1, ')') {
                    proof {
                        let e = (k - i - 1) as int;
                        assert(first_index(rest.drop_first(), ')') == Some(e));
                        assert(rest.subrange(1, 1 + e) =~= cs@.subrange(i + 1, k as int));
                        assert(rest.skip(e + 2) =~= cs@.skip(k + 1));
                    }
                    if k > i + 1 && cs[k - 1] == ':' && !contains_between(cs, i + 1, k, '(') {
                        label_end = Some(k);
                    }
                }
            }
            proof {
                if c == '(' {
                    lemma_first_index(rest.drop_first(), ')');
                }
            }
            match label_end {
                Some(k) => {
                    i = k + 1;
                },
                None => {
                    proof {
                        if starts_label_only(rest) {
                            let e = first_index(rest.drop_first(), ')')->0;
                            assert(rest.drop_first()[e] == cs@[i + 1 + e]);
                        }
                    }
                    out.push(c);
                    i = i + 1;
                },
            }
        }
        assert(whole =~= out@ + drop_empty_slots(cs@.skip(i as int)));
    }
    assert(out@ + drop_empty_slots(cs@.skip(i as int)) =~= out@);
    out
}

fn finish_in(cs: &Vec<char>) -> (r: Vec<char>)
    ensures
        r@ == finish(cs@),
{
    let mut a: usize = 0;
    assert(cs@.subrange(0, cs.len() as int) =~= cs@);
    while a < cs.len() && cs[a] == ' '
        invariant
            a <= cs.len(),
            trim_spaces_start(cs@) == trim_spaces_start(cs@.subrange(a as int, cs.len() as int)),
        decreases cs.len() - a,
    {
        assert(cs@.subrange(a as int, cs.len() as int).drop_first() =~= cs@.subrange(a + 1, cs.len() as int));
        a = a + 1;
    }
    let mut b: usize = cs.len();
    while b > a && cs[b - 1] == ' '
        invariant
            a <= b <= cs.len(),
            trim_spaces_start(cs@) == cs@.subrange(a as int, cs.len() as int),
            trim_spaces_end(trim_spaces_start(cs@)) == trim_spaces_end(cs@.subrange(a as int, b as int)),
        decreases b - a,
    {
        assert(cs@.subrange(a as int, b as int).drop_last() =~= cs@.subrange(a as int, b - 1));
        b = b - 1;
    }
    if b > a && cs[b - 1] == ':' {
        assert(cs@.subrange(a as int, b as int).drop_last() =~= cs@.subrange(a as int, b - 1));
        b = b - 1;
        while b > a && cs[b - 1] == ' '
            invariant
                a <= b <= cs.len(),
                finish(cs@) == trim_spaces_end(cs@.subrange(a as int, b as int)),
            decreases b - a,
        {
            assert(cs@.subrange(a as int, b as int).drop_last() =~= cs@.subrange(a as int, b - 1));
            b = b - 1;
        }
    }
    copy_between(cs, a, b)
}

/// Cleans up what dropping placeholders leaves (see `tidy`).
pub fn tidy_empty_slots(cs: &Vec<char>) -> (r: Vec<char>)
    ensures
        r@ == tidy(cs@),
{
    let a = collapse_spaces_in(cs);
    let b = fix_spacing_in(&a);
    let c = drop_empty_slots_in(&b);
    let d = collapse_spaces_in(&c);
    let e = fix_spacing_in(&d);
    finish_in(&e)
}

/// The catalog path under which the message for error code `code` lives:
/// `error.E<code>`.
pub open spec fn error_key(code: u32) -> Seq<char> {
    "error.E"@ + decimal(code as nat)
}

/// The catalog string for an error code, as `get` finds it.
fn error_template(active: &Catalog, english: &Catalog, code: u32) -> (r: String)
    ensures
        r@ == lookup_or_english(active@, english@, error_key(code)),
{
    let mut key = "error.E".to_owned();
    push_decimal(&mut key, code);
    get(active, english, key.as_str())
}

/// Drops the placeholders of `template` that cannot be filled, tidying the
/// result when anything was dropped; `{detail}` is kept when `keep_detail`.
fn drop_unfilled(template: &str, keep_detail: bool) -> (r: String)
    ensures
        r@ == (if drop_placeholders(template@, keep_detail).1 {
            tidy(drop_placeholders(template@, keep_detail).0)
        } else {
            drop_placeholders(template@, keep_detail).0
        }),
{
    let cs = chars_of(template);
    let (t, dropped) = drop_placeholders_in(&cs, keep_detail);
    if dropped {
        let u = tidy_empty_slots(&t);
        string_of(&u)
    } else {
        string_of(&t)
    }
}

/// The localized message for a numeric error code, looked up as `get` does
/// under `error.E<code>` (e.g. `7022` -> `error.E7022`), so an unknown code
/// gives that key path. Placeholders that only the caller holding the
/// original error could fill (`{detail}`, `{hash}`, `{path}`, ...) are
/// dropped and what that leaves is tidied, so no raw placeholder is shown.
pub fn error_message(active: &Catalog, english: &Catalog, code: u32) -> (r: String)
    ensures
        r@ == error_text(lookup_or_english(active@, english@, error_key(code)), None),
{
    let template = error_template(active, english, code);
    drop_unfilled(template.as_str(), false)
}

/// As `error_message`, with `{detail}` filled from `detail` (copied
/// verbatim); any other unfilled placeholder is dropped the same way.
pub fn error_message_with(active: &Catalog, english: &Catalog, code: u32, detail: &str) -> (r: String)
    ensures
        r@ == error_text(lookup_or_english(active@, english@, error_key(code)), Some(detail@)),
{
    let template = error_template(active, english, code);
    let kept = drop_unfilled(template.as_str(), true);
    let args = vec![("detail", detail)];
    proof {
        assert(args_view(args@) =~= seq![("detail"@, detail@)]);
    }
    substitute_in(kept.as_str(), args.as_slice())
}

} // verus!
