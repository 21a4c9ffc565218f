//! Character-level helpers over `&str` and `String`.

use vstd::prelude::*;
use vstd::string::StrSliceExecFns;

verus! {

/// `String::push`. Claimed, as std documents it: appends `c` to the end.
#[verifier::external_body]
pub(crate) fn push_char(s: &mut String, c: char)
    ensures
        final(s)@ == old(s)@.push(c),
{
    s.push(c);
}

/// The characters of `s`, in order.
pub fn chars_of(s: &str) -> (r: Vec<char>)
    ensures
        r@ == s@,
{
    let n = s.unicode_len();
    let mut out: Vec<char> = Vec::new();
    let mut i: usize = 0;
    while i < n
        invariant
            n == s@.len(),
            i <= n,
            out@ == s@.take(i as int),
        decreases n - i,
    {
        let c = s.get_char(i);
        out.push(c);
        i = i + 1;
        assert(out@ =~= s@.take(i as int));
    }
    assert(out@ =~= s@);
    out
}

/// A `String` holding the characters of `cs`.
pub fn string_of(cs: &Vec<char>) -> (r: String)
    ensures
        r@ == cs@,
{
    let mut out = String::new();
    let mut i: usize = 0;
    while i < cs.len()
        invariant
            i <= cs.len(),
            out@ == cs@.take(i as int),
        decreases cs.len() - i,
    {
        push_char(&mut out, cs[i]);
        i = i + 1;
        assert(out@ =~= cs@.take(i as int));
    }
    assert(out@ =~= cs@);
    out
}

/// An ASCII letter.
pub open spec fn is_ascii_alpha(c: char) -> bool {
    ('a' <= c && c <= 'z') || ('A' <= c && c <= 'Z')
}

/// An ASCII digit.
pub open spec fn is_ascii_digit(c: char) -> bool {
    '0' <= c && c <= '9'
}

/// `c` lowered if it is an ASCII capital letter.
pub open spec fn ascii_lower(c: char) -> char {
    if 'A' <= c && c <= 'Z' { ((c as int) + 32) as char } else { c }
}

/// `char::to_ascii_lowercase`, written out.
pub fn to_ascii_lower(c: char) -> (r: char)
    ensures
        r == ascii_lower(c),
{
    if 'A' <= c && c <= 'Z' {
        let b: u8 = c as u8;
        ((b + 32) as char)
    } else {
        c
    }
}

/// `s` cut at every occurrence of `d`, as `str::split` with a single
/// character does: `k` separators give `k + 1` pieces, empty ones included.
pub open spec fn split_on(s: Seq<char>, d: char) -> Seq<Seq<char>>
    decreases s.len(),
{
    if s.len() == 0 {
        seq![Seq::empty()]
    } else {
        let init = split_on(s.drop_last(), d);
        if s.last() == d {
            init.push(Seq::empty())
        } else {
            init.update(init.len() - 1, init.last().push(s.last()))
        }
    }
}

/// Splitting always yields at least one piece.
pub proof fn lemma_split_on_nonempty(s: Seq<char>, d: char)
    ensures
        split_on(s, d).len() >= 1,
    decreases s.len(),
{
    if s.len() > 0 {
        lemma_split_on_nonempty(s.drop_last(), d);
    }
}

/// The pieces of `s` between occurrences of `d`, each as a `String`.
pub fn split_char(s: &str, d: char) -> (r: Vec<String>)
    ensures
        r@.map_values(|x: String| x@) == split_on(s@, d),
{
    let cs = chars_of(s);
    let mut done: Vec<String> = Vec::new();
    let mut cur = String::new();
    let mut i: usize = 0;
    while i < cs.len()
        invariant
            i <= cs.len(),
            cs@ == s@,
            done@.map_values(|x: String| x@).push(cur@) == split_on(s@.take(i as int), d),
        decreases cs.len() - i,
    {
        let c = cs[i];
        proof {
            assert(s@.take(i + 1).drop_last() =~= s@.take(i as int));
            lemma_split_on_nonempty(s@.take(i as int), d);
        }
        if c == d {
            let old_cur = cur;
            cur = String::new();
            done.push(old_cur);
            assert(done@.map_values(|x: String| x@).push(cur@) =~= split_on(s@.take(i + 1), d));
        } else {
            push_char(&mut cur, c);
            assert(done@.map_values(|x: String| x@).push(cur@) =~= split_on(s@.take(i + 1), d));
        }
        i = i + 1;
    }
    assert(s@.take(cs.len() as int) =~= s@);
    done.push(cur);
    assert(done@.map_values(|x: String| x@) =~= split_on(s@, d));
    done
}

/// The decimal digit for `d < 10`.
pub open spec fn digit_char(d: nat) -> char {
    ((d + 48) as int) as char
}

/// The decimal representation of `n`, without leading zeros.
pub open spec fn decimal(n: nat) -> Seq<char>
    decreases n,
{
    if n < 10 {
        seq![digit_char(n)]
    } else {
        decimal(n / 10).push(digit_char(n % 10))
    }
}

/// Appends the decimal representation of `n`.
pub fn push_decimal(s: &mut String, n: u32)
    ensures
        final(s)@ == old(s)@ + decimal(n as nat),
    decreases n,
{
    if n >= 10 {
        push_decimal(s, n / 10);
    }
    let d: u8 = (n % 10) as u8;
    let c: char = (48u8 + d) as char;
    push_char(s, c);
    proof {
        assert(s@ =~= old(s)@ + decimal(n as nat));
    }
}

/// Whether `s` and `t` hold the same characters.
pub fn str_eq(s: &str, t: &str) -> (r: bool)
    ensures
        r == (s@ == t@),
{
    let n = s.unicode_len();
    if n != t.unicode_len() {
        return false;
    }
    let mut i: usize = 0;
    while i < n
        invariant
            n == s@.len(),
            n == t@.len(),
            i <= n,
            forall|k: int| 0 <= k < i ==> s@[k] == t@[k],
        decreases n - i,
    {
        if s.get_char(i) != t.get_char(i) {
            return false;
        }
        i = i + 1;
    }
    assert(s@ =~= t@);
    true
}

/// The Unicode `White_Space` property (Unicode `PropList.txt`): U+0009..U+000D,
/// the space, U+0085, U+00A0, U+1680, U+2000..U+200A, U+2028, U+2029,
/// U+202F, U+205F and U+3000.
pub open spec fn unicode_white_space(c: char) -> bool {
    let n = c as int;
    ||| n == 0x20
    ||| 0x09 <= n <= 0x0D
    ||| n == 0x85
    ||| n == 0xA0
    ||| n == 0x1680
    ||| 0x2000 <= n <= 0x200A
    ||| n == 0x2028
    ||| n == 0x2029
    ||| n == 0x202F
    ||| n == 0x205F
    ||| n == 0x3000
}

/// Whether `c` has the Unicode `White_Space` property, as
/// `char::is_whitespace` decides it.
pub fn is_whitespace(c: char) -> (r: bool)
    ensures
        r == unicode_white_space(c),
{
    let n = c as u32;
    n == 0x20 || (0x09 <= n && n <= 0x0D) || n == 0x85 || n == 0xA0 || n == 0x1680
        || (0x2000 <= n && n <= 0x200A) || n == 0x2028 || n == 0x2029 || n == 0x202F || n == 0x205F
        || n == 0x3000
}

/// What `str::to_lowercase` makes of a text that is not all ASCII (the
/// Unicode `Lowercase` mapping, which may change the number of characters).
pub uninterp spec fn non_ascii_lowercase(s: Seq<char>) -> Seq<char>;

/// Every character of `s` is ASCII.
pub open spec fn is_ascii_text(s: Seq<char>) -> bool {
    forall|i: int| 0 <= i < s.len() ==> (#[trigger] s[i] as int) < 128
}

/// `s` in lower case, as `str::to_lowercase` gives it: on ASCII text the
/// letters `A`..`Z` are lowered and every other character is kept.
pub open spec fn unicode_lowercase(s: Seq<char>) -> Seq<char> {
    if is_ascii_text(s) {
        ascii_lowercase(s)
    } else {
        non_ascii_lowercase(s)
    }
}

/// `str::to_lowercase`. Claimed: its result is a function of `s` alone,
/// and on ASCII text it lowers the letters `A`..`Z` and keeps every other
/// character, as the Unicode `Lowercase` mapping does there; the mapping
/// of other text is left unstated.
#[verifier::external_body]
pub(crate) fn to_lowercase(s: &str) -> (r: String)
    ensures
        is_ascii_text(s@) ==> r@ == ascii_lowercase(s@),
        !is_ascii_text(s@) ==> r@ == non_ascii_lowercase(s@),
{
    s.to_lowercase()
}

/// `s` without its leading whitespace.
pub open spec fn trim_start(s: Seq<char>) -> Seq<char>
    decreases s.len(),
{
    if s.len() > 0 && unicode_white_space(s[0]) {
        trim_start(s.drop_first())
    } else {
        s
    }
}

/// `s` without its trailing whitespace.
pub open spec fn trim_end(s: Seq<char>) -> Seq<char>
    decreases s.len(),
{
    if s.len() > 0 && unicode_white_space(s.last()) {
        trim_end(s.drop_last())
    } else {
        s
    }
}

/// `s` without leading and trailing whitespace, as `str::trim` gives it.
pub open spec fn trim(s: Seq<char>) -> Seq<char> {
    trim_end(trim_start(s))
}

/// The characters of `cs` without leading and trailing whitespace.
pub fn trim_chars(cs: &Vec<char>) -> (r: Vec<char>)
    ensures
        r@ == trim(cs@),
{
    let mut a: usize = 0;
    assert(cs@.skip(0) =~= cs@);
    while a < cs.len() && is_whitespace(cs[a])
        invariant
            a <= cs.len(),
            trim_start(cs@) == trim_start(cs@.skip(a as int)),
        decreases cs.len() - a,
    {
        assert(cs@.skip(a as int).drop_first() =~= cs@.skip(a + 1));
        a = a + 1;
    }
    let mut b: usize = cs.len();
    assert(cs@.skip(a as int) =~= cs@.subrange(a as int, b as int));
    while b > a && is_whitespace(cs[b - 1])
        invariant
            a <= b <= cs.len(),
            trim_start(cs@) == cs@.skip(a as int),
            trim_end(cs@.skip(a as int)) == trim_end(cs@.subrange(a as int, b as int)),
        decreases b - a,
    {
        assert(cs@.subrange(a as int, b as int).drop_last() =~= cs@.subrange(a as int, b - 1));
        b = b - 1;
    }
    let mut out: Vec<char> = Vec::new();
    let mut i: usize = a;
    while i < b
        invariant
            a <= i <= b <= cs.len(),
            out@ == cs@.subrange(a as int, i as int),
        decreases b - i,
    {
        out.push(cs[i]);
        i = i + 1;
        assert(out@ =~= cs@.subrange(a as int, i as int));
    }
    out
}

/// `c` raised if it is an ASCII small letter.
pub open spec fn ascii_upper(c: char) -> char {
    if 'a' <= c && c <= 'z' { ((c as int) - 32) as char } else { c }
}

/// `char::to_ascii_uppercase`, written out.
pub fn to_ascii_upper(c: char) -> (r: char)
    ensures
        r == ascii_upper(c),
{
    if 'a' <= c && c <= 'z' {
        let b: u8 = c as u8;
        ((b - 32) as char)
    } else {
        c
    }
}

/// `s` with its ASCII letters in lower case, as `str::to_ascii_lowercase`.
pub open spec fn ascii_lowercase(s: Seq<char>) -> Seq<char> {
    Seq::new(s.len(), |i: int| ascii_lower(s[i]))
}

/// `s` with its ASCII letters in upper case, as `str::to_ascii_uppercase`.
pub open spec fn ascii_uppercase(s: Seq<char>) -> Seq<char> {
    Seq::new(s.len(), |i: int| ascii_upper(s[i]))
}

/// `v` with its ASCII letters in lower case.
pub fn lowercase_chars(v: &Vec<char>) -> (r: Vec<char>)
    ensures
        r@ == ascii_lowercase(v@),
{
    let mut out: Vec<char> = Vec::new();
    let mut i: usize = 0;
    while i < v.len()
        invariant
            i <= v.len(),
            out@ == ascii_lowercase(v@.take(i as int)),
        decreases v.len() - i,
    {
        out.push(to_ascii_lower(v[i]));
        i = i + 1;
        assert(out@ =~= ascii_lowercase(v@.take(i as int)));
    }
    assert(v@.take(i as int) =~= v@);
    out
}

/// `v` with its ASCII letters in upper case.
pub fn uppercase_chars(v: &Vec<char>) -> (r: Vec<char>)
    ensures
        r@ == ascii_uppercase(v@),
{
    let mut out: Vec<char> = Vec::new();
    let mut i: usize = 0;
    while i < v.len()
        invariant
            i <= v.len(),
            out@ == ascii_uppercase(v@.take(i as int)),
        decreases v.len() - i,
    {
        out.push(to_ascii_upper(v[i]));
        i = i + 1;
        assert(out@ =~= ascii_uppercase(v@.take(i as int)));
    }
    assert(v@.take(i as int) =~= v@);
    out
}

/// Every character of `s` is an ASCII letter.
pub open spec fn all_ascii_alpha(s: Seq<char>) -> bool {
    forall|i: int| 0 <= i < s.len() ==> is_ascii_alpha(#[trigger] s[i])
}

/// Every character of `s` is an ASCII digit.
pub open spec fn all_ascii_digit(s: Seq<char>) -> bool {
    forall|i: int| 0 <= i < s.len() ==> is_ascii_digit(#[trigger] s[i])
}

/// Whether every character of `v` is an ASCII letter.
pub fn chars_all_alpha(v: &Vec<char>) -> (r: bool)
    ensures
        r == all_ascii_alpha(v@),
{
    let mut i: usize = 0;
    while i < v.len()
        invariant
            i <= v.len(),
            forall|k: int| 0 <= k < i ==> is_ascii_alpha(#[trigger] v@[k]),
        decreases v.len() - i,
    {
        let c = v[i];
        if !(('a' <= c && c <= 'z') || ('A' <= c && c <= 'Z')) {
            return false;
        }
        i = i + 1;
    }
    true
}

/// Whether every character of `v` is an ASCII digit.
pub fn chars_all_digit(v: &Vec<char>) -> (r: bool)
    ensures
        r == all_ascii_digit(v@),
{
    let mut i: usize = 0;
    while i < v.len()
        invariant
            i <= v.len(),
            forall|k: int| 0 <= k < i ==> is_ascii_digit(#[trigger] v@[k]),
        decreases v.len() - i,
    {
        let c = v[i];
        if !('0' <= c && c <= '9') {
            return false;
        }
        i = i + 1;
    }
    true
}

/// Whether `c` separates subtags: `-` always, `_` too when `underscore`.
pub open spec fn is_part_sep(c: char, underscore: bool) -> bool {
    c == '-' || (underscore && c == '_')
}

/// Scanning state after `s`: the non-empty pieces completed so far, and the
/// piece being read.
pub open spec fn part_scan(s: Seq<char>, underscore: bool) -> (Seq<Seq<char>>, Seq<char>)
    decreases s.len(),
{
    if s.len() == 0 {
        (Seq::empty(), Seq::empty())
    } else {
        let (done, cur) = part_scan(s.drop_last(), underscore);
        if is_part_sep(s.last(), underscore) {
            if cur.len() > 0 { (done.push(cur), Seq::empty()) } else { (done, Seq::empty()) }
        } else {
            (done, cur.push(s.last()))
        }
    }
}

/// The non-empty pieces of `s` between separators, as
/// `s.split(seps).filter(|p| !p.is_empty())`.
pub open spec fn parts(s: Seq<char>, underscore: bool) -> Seq<Seq<char>> {
    let (done, cur) = part_scan(s, underscore);
    if cur.len() > 0 { done.push(cur) } else { done }
}

/// The completed pieces of a scan are never empty.
pub proof fn lemma_part_scan_nonempty(s: Seq<char>, underscore: bool)
    ensures
        forall|i: int| 0 <= i < part_scan(s, underscore).0.len() ==> (#[trigger] part_scan(s, underscore).0[i]).len() > 0,
    decreases s.len(),
{
    if s.len() > 0 {
        lemma_part_scan_nonempty(s.drop_last(), underscore);
        let (done, cur) = part_scan(s.drop_last(), underscore);
        if is_part_sep(s.last(), underscore) && cur.len() > 0 {
            assert forall|i: int| 0 <= i < done.push(cur).len() implies (#[trigger] done.push(cur)[i]).len() > 0 by {
                if i < done.len() {
                    assert(done.push(cur)[i] == done[i]);
                }
            }
        }
    }
}

/// The pieces of a split are never empty.
pub proof fn lemma_parts_nonempty(s: Seq<char>, underscore: bool)
    ensures
        forall|i: int| 0 <= i < parts(s, underscore).len() ==> (#[trigger] parts(s, underscore)[i]).len() > 0,
{
    lemma_part_scan_nonempty(s, underscore);
}

/// The non-empty pieces of `cs` between separators.
pub fn split_parts(cs: &Vec<char>, underscore: bool) -> (r: Vec<Vec<char>>)
    ensures
        r@.map_values(|p: Vec<char>| p@) == parts(cs@, underscore),
{
    let mut done: Vec<Vec<char>> = Vec::new();
    let mut cur: Vec<char> = Vec::new();
    let mut i: usize = 0;
    while i < cs.len()
        invariant
            i <= cs.len(),
            (done@.map_values(|p: Vec<char>| p@), cur@) == part_scan(cs@.take(i as int), underscore),
        decreases cs.len() - i,
    {
        let c = cs[i];
        assert(cs@.take(i + 1).drop_last() =~= cs@.take(i as int));
        if c == '-' || (underscore && c == '_') {
            if cur.len() > 0 {
                let old_cur = cur;
                cur = Vec::new();
                done.push(old_cur);
            } else {
                cur = Vec::new();
            }
        } else {
            cur.push(c);
        }
        assert(done@.map_values(|p: Vec<char>| p@) =~= part_scan(cs@.take(i + 1), underscore).0);
        assert(cur@ =~= part_scan(cs@.take(i + 1), underscore).1);
        i = i + 1;
    }
    assert(cs@.take(i as int) =~= cs@);
    if cur.len() > 0 {
        done.push(cur);
    }
    assert(done@.map_values(|p: Vec<char>| p@) =~= parts(cs@, underscore));
    done
}

/// The pieces of `ps` joined with `d` between them.
pub open spec fn join(ps: Seq<Seq<char>>, d: char) -> Seq<char>
    decreases ps.len(),
{
    if ps.len() == 0 {
        Seq::empty()
    } else if ps.len() == 1 {
        ps[0]
    } else {
        join(ps.drop_last(), d).push(d) + ps.last()
    }
}

/// The first `n` pieces of `ps`, joined with `d`.
pub fn join_prefix(ps: &Vec<Vec<char>>, n: usize, d: char) -> (r: String)
    requires
        n <= ps.len(),
    ensures
        r@ == join(ps@.map_values(|p: Vec<char>| p@).take(n as int), d),
{
    let ghost vs = ps@.map_values(|p: Vec<char>| p@);
    let mut out = String::new();
    let mut i: usize = 0;
    assert(vs.take(0) =~= Seq::<Seq<char>>::empty());
    while i < n
        invariant
            i <= n <= ps.len(),
            vs == ps@.map_values(|p: Vec<char>| p@),
            out@ == join(vs.take(i as int), d),
        decreases n - i,
    {
        let ghost before = out@;
        if i > 0 {
            push_char(&mut out, d);
        }
        let piece = &ps[i];
        let mut k: usize = 0;
        while k < piece.len()
            invariant
                k <= piece.len(),
                out@ == (if i > 0 { before.push(d) } else { before }) + piece@.take(k as int),
            decreases piece.len() - k,
        {
            push_char(&mut out, piece[k]);
            k = k + 1;
            assert(out@ =~= (if i > 0 { before.push(d) } else { before }) + piece@.take(k as int));
        }
        proof {
            assert(piece@.take(k as int) =~= piece@);
            assert(vs.take(i + 1).drop_last() =~= vs.take(i as int));
            if i == 0 {
                assert(before =~= Seq::<char>::empty());
                assert(out@ =~= vs.take(1)[0]);
            }
        }
        i = i + 1;
    }
    out
}

/// Joining pieces whose first one is non-empty gives a non-empty text.
pub proof fn lemma_join_nonempty(ps: Seq<Seq<char>>, d: char)
    requires
        ps.len() > 0,
        ps[0].len() > 0,
    ensures
        join(ps, d).len() > 0,
    decreases ps.len(),
{
    if ps.len() > 1 {
        lemma_join_nonempty(ps.drop_last(), d);
    }
}

/// Whether `v` holds a string equal to `s`.
pub fn contains_string(v: &Vec<String>, s: &str) -> (r: bool)
    ensures
        r == v@.map_values(|x: String| x@).contains(s@),
{
    let ghost vs = v@.map_values(|x: String| x@);
    let mut i: usize = 0;
    while i < v.len()
        invariant
            i <= v.len(),
            vs == v@.map_values(|x: String| x@),
            forall|k: int| 0 <= k < i ==> vs[k] != s@,
        decreases v.len() - i,
    {
        if str_eq(v[i].as_str(), s) {
            assert(vs[i as int] == s@);
            return true;
        }
        i = i + 1;
    }
    false
}

} // verus!
