//! Resolving the catalog to install: every candidate tag is canonicalized
//! and its fallback chain walked, longest tag first; a code whose catalog is
//! bundled is taken from the library, any other is looked for on disk by
//! the caller; when nothing matches, English. Also the paths, in order,
//! under which a catalog is looked for on disk.

use vstd::prelude::*;
use crate::catalog::{Catalog, LOCALE_EN, bundled_text, bundled_locale, parse_catalog, english_catalog};
use crate::json::json_text_strings;
use crate::lang::opt_view;
use crate::locale_code::{
    canonical_code, fallback_spec, file_names_spec, normalize_code, fallback_chain, locale_filenames,
    law_chain_starts_at_the_code,
};

verus! {

/// The catalog codes tried for the candidate tags, in order: the fallback
/// chain of each candidate's canonical code, one candidate after another
/// (`zh-Hans-CN` -> `zh-hans-cn`, `zh-hans`, `zh`).
pub open spec fn try_codes(cands: Seq<Seq<char>>) -> Seq<Seq<char>>
    decreases cands.len(),
{
    if cands.len() == 0 {
        Seq::empty()
    } else {
        try_codes(cands.drop_last()) + fallback_spec(canonical_code(cands.last()))
    }
}

/// One step of the resolution.
pub enum ResolveStep {
    /// A catalog for the code at the step: the bundled one, or the one the
    /// caller found on disk.
    Found(Catalog),
    /// No catalog ships for the code at this position: look for it on disk.
    SearchDisk(usize),
    /// Nothing matched: the English catalog, and whether a language had been
    /// asked for (so that the user can be told it was not found).
    English(Catalog, bool),
    /// A bundled catalog text does not parse.
    Invalid(String),
}

/// The codes to try for a set of candidate tags, walked one step at a time.
pub struct Resolver {
    codes: Vec<String>,
}

impl Resolver {
    /// The codes to try, in order.
    pub closed spec fn codes(&self) -> Seq<Seq<char>> {
        self.codes@.map_values(|x: String| x@)
    }

    /// What the step at position `i` gives: the bundled catalog for a code
    /// that ships, a disk search for one that does not, and English past
    /// the last code.
    pub open spec fn step_ok(&self, i: int, r: ResolveStep) -> bool {
        match r {
            ResolveStep::Found(c) => 0 <= i < self.codes().len()
                && bundled_text(self.codes()[i]) is Some
                && json_text_strings(bundled_text(self.codes()[i])->0@) == Ok::<Map<Seq<Seq<char>>, Seq<char>>, Seq<char>>(c@),
            ResolveStep::SearchDisk(j) => j == i && 0 <= i < self.codes().len()
                && bundled_text(self.codes()[i]) is None,
            ResolveStep::English(c, asked) => i >= self.codes().len()
                && json_text_strings(LOCALE_EN@) == Ok::<Map<Seq<Seq<char>>, Seq<char>>, Seq<char>>(c@)
                && asked == (self.codes().len() > 0),
            ResolveStep::Invalid(e) => (0 <= i < self.codes().len()
                && bundled_text(self.codes()[i]) is Some
                && json_text_strings(bundled_text(self.codes()[i])->0@) == Err::<Map<Seq<Seq<char>>, Seq<char>>, Seq<char>>(e@))
                || (i >= self.codes().len() && json_text_strings(LOCALE_EN@) == Err::<Map<Seq<Seq<char>>, Seq<char>>, Seq<char>>(e@)),
        }
    }

    /// The resolution for `candidates`, the locale tags in priority order.
    pub fn new(candidates: &Vec<String>) -> (r: Self)
        ensures
            r.codes() == try_codes(candidates@.map_values(|x: String| x@)),
    {
        let ghost cv = candidates@.map_values(|x: String| x@);
        let mut codes: Vec<String> = Vec::new();
        let mut i: usize = 0;
        assert(cv.take(0) =~= Seq::<Seq<char>>::empty());
        assert(codes@.map_values(|x: String| x@) =~= Seq::<Seq<char>>::empty());
        while i < candidates.len()
            invariant
                i <= candidates.len(),
                cv == candidates@.map_values(|x: String| x@),
                codes@.map_values(|x: String| x@) == try_codes(cv.take(i as int)),
            decreases candidates.len() - i,
        {
            let canon = normalize_code(candidates[i].as_str());
            let chain = fallback_chain(canon.as_str());
            let ghost chv = chain@.map_values(|x: String| x@);
            let ghost base = codes@.map_values(|x: String| x@);
            let mut j: usize = 0;
            assert(chv.take(0) =~= Seq::<Seq<char>>::empty());
            assert(base + chv.take(0) =~= base);
            while j < chain.len()
                invariant
                    j <= chain.len(),
                    chv == chain@.map_values(|x: String| x@),
                    codes@.map_values(|x: String| x@) == base + chv.take(j as int),
                decreases chain.len() - j,
            {
                let ghost before = codes@.map_values(|x: String| x@);
                let item = chain[j].as_str().to_owned();
                assert(item@ == chv[j as int]);
                codes.push(item);
                assert(codes@.map_values(|x: String| x@) =~= before.push(chv[j as int]));
                assert(chv.take(j + 1) =~= chv.take(j as int).push(chv[j as int]));
                j = j + 1;
                assert(codes@.map_values(|x: String| x@) =~= base + chv.take(j as int));
            }
            assert(chv.take(chain.len() as int) =~= chv);
            assert(cv.take(i + 1).drop_last() =~= cv.take(i as int));
            assert(cv.take(i + 1).last() == cv[i as int]);
            i = i + 1;
        }
        assert(cv.take(candidates.len() as int) =~= cv);
        Resolver { codes }
    }

    /// The number of codes to try.
    pub fn len(&self) -> (r: usize)
        ensures
            r == self.codes().len(),
    {
        self.codes.len()
    }

    /// The code at position `i`.
    pub fn code(&self, i: usize) -> (r: &str)
        requires
            i < self.codes().len(),
        ensures
            r@ == self.codes()[i as int],
    {
        self.codes[i].as_str()
    }

    /// The step at position `i` (see `step_ok`).
    pub fn visit(&self, i: usize) -> (r: ResolveStep)
        ensures
            self.step_ok(i as int, r),
    {
        if i < self.codes.len() {
            match bundled_locale(self.codes[i].as_str()) {
                Some(text) => match parse_catalog(text) {
                    Ok(c) => ResolveStep::Found(c),
                    Err(e) => ResolveStep::Invalid(e),
                },
                None => ResolveStep::SearchDisk(i),
            }
        } else {
            match english_catalog() {
                Ok(c) => ResolveStep::English(c, self.codes.len() > 0),
                Err(e) => ResolveStep::Invalid(e),
            }
        }
    }

    /// The step after the disk search for the code at position `i`: the
    /// catalog found there, else the step at the next position.
    pub fn after_disk(&self, i: usize, disk: Option<Catalog>) -> (r: ResolveStep)
        requires
            i < self.codes().len(),
        ensures
            match disk {
                Some(d) => r == ResolveStep::Found(d),
                None => self.step_ok(i + 1, r),
            },
    {
        let n = self.codes.len();
        assert(i < n);
        match disk {
            Some(d) => ResolveStep::Found(d),
            None => self.visit(i + 1),
        }
    }
}

/// The codes tried for a list of candidates are those tried for a first
/// part of the list followed by those tried for the rest: no candidate is
/// dropped, and candidates keep their order.
pub proof fn law_try_codes_concatenate(a: Seq<Seq<char>>, b: Seq<Seq<char>>)
    ensures
        try_codes(a + b) == try_codes(a) + try_codes(b),
    decreases b.len(),
{
    if b.len() == 0 {
        assert(a + b =~= a);
        assert(try_codes(a) + try_codes(b) =~= try_codes(a));
    } else {
        law_try_codes_concatenate(a, b.drop_last());
        assert((a + b).drop_last() =~= a + b.drop_last());
        assert((a + b).last() == b.last());
        let f = fallback_spec(canonical_code(b.last()));
        assert(try_codes(a) + try_codes(b.drop_last()) + f =~= try_codes(a) + (try_codes(b.drop_last()) + f));
    }
}

/// Every candidate is tried, in order, starting with its own canonical code:
/// the codes tried for the candidates before it come first, and the very
/// next code is the candidate's canonical code. So a candidate whose code
/// ships is found before any later candidate is looked at.
pub proof fn law_every_candidate_is_tried_in_order(cs: Seq<Seq<char>>, k: int)
    requires
        0 <= k < cs.len(),
    ensures
        try_codes(cs.take(k)).len() < try_codes(cs).len(),
        try_codes(cs).take(try_codes(cs.take(k)).len() as int) == try_codes(cs.take(k)),
        try_codes(cs)[try_codes(cs.take(k)).len() as int] == canonical_code(cs[k]),
        try_codes(cs).subrange(try_codes(cs.take(k)).len() as int, try_codes(cs.take(k + 1)).len() as int)
            == fallback_spec(canonical_code(cs[k])),
{
    let head = cs.take(k);
    let one = seq![cs[k]];
    let tail = cs.skip(k + 1);
    assert(cs =~= head + (one + tail));
    law_try_codes_concatenate(head, one + tail);
    law_try_codes_concatenate(one, tail);
    let e = Seq::<Seq<char>>::empty();
    assert(one.drop_last() =~= e);
    assert(one.last() == cs[k]);
    assert(try_codes(e) == e);
    let f = fallback_spec(canonical_code(cs[k]));
    assert(try_codes(one) == try_codes(e) + f);
    assert(e + f =~= f);
    law_chain_starts_at_the_code(cs[k]);
    let n = try_codes(head).len() as int;
    let all = try_codes(head) + (try_codes(one) + try_codes(tail));
    assert(all.take(n) =~= try_codes(head));
    assert(all[n] == try_codes(one)[0]);
    assert(cs.take(k + 1) =~= head + one);
    law_try_codes_concatenate(head, one);
    assert(all.subrange(n, n + try_codes(one).len()) =~= try_codes(one));
}

/// The system-wide catalog directory: under `%PROGRAMDATA%` on Windows (when
/// the caller passes that directory), else `/usr/share/freemkv/locales`.
pub open spec fn system_dir(program_data: Option<Seq<char>>) -> Seq<char> {
    match program_data {
        Some(p) => p + "/freemkv/locales"@,
        None => "/usr/share/freemkv/locales"@,
    }
}

/// The directories searched for catalogs on disk, highest precedence
/// first: next to the binary, the user's configuration, the system-wide
/// directory, and last the working directory, so that launching from an
/// arbitrary directory cannot shadow an installed catalog.
pub open spec fn search_dirs(exe_dir: Option<Seq<char>>, home: Option<Seq<char>>, program_data: Option<Seq<char>>) -> Seq<Seq<char>> {
    let first = match exe_dir {
        Some(d) => seq![d + "/locales"@],
        None => Seq::empty(),
    };
    let second = match home {
        Some(h) => seq![h + "/.config/freemkv/locales"@],
        None => Seq::empty(),
    };
    first + second + seq![system_dir(program_data), "locales"@]
}

/// Every directory joined with every file name, directory by directory.
pub open spec fn paths_in(dirs: Seq<Seq<char>>, names: Seq<Seq<char>>) -> Seq<Seq<char>>
    decreases dirs.len(),
{
    if dirs.len() == 0 {
        Seq::empty()
    } else {
        paths_in(dirs.drop_last(), names) + names.map_values(|n: Seq<char>| dirs.last() + "/"@ + n)
    }
}

/// The paths under which the catalog for `code` is looked for, in order.
pub open spec fn candidate_paths_spec(
    exe_dir: Option<Seq<char>>,
    home: Option<Seq<char>>,
    program_data: Option<Seq<char>>,
    code: Seq<char>,
) -> Seq<Seq<char>> {
    paths_in(search_dirs(exe_dir, home, program_data), file_names_spec(code))
}

/// The search directories (see `search_dirs`).
fn locale_dirs(exe_dir: Option<&str>, home: Option<&str>, program_data: Option<&str>) -> (r: Vec<String>)
    ensures
        r@.map_values(|x: String| x@) == search_dirs(opt_view(exe_dir), opt_view(home), opt_view(program_data)),
{
    let mut dirs: Vec<String> = Vec::new();
    if let Some(d) = exe_dir {
        let mut p = d.to_owned();
        p.append("/locales");
        dirs.push(p);
    }
    if let Some(h) = home {
        let mut p = h.to_owned();
        p.append("/.config/freemkv/locales");
        dirs.push(p);
    }
    match program_data {
        Some(p) => {
            let mut d = p.to_owned();
            d.append("/freemkv/locales");
            dirs.push(d);
        },
        None => dirs.push("/usr/share/freemkv/locales".to_owned()),
    }
    dirs.push("locales".to_owned());
    assert(dirs@.map_values(|x: String| x@) =~= search_dirs(opt_view(exe_dir), opt_view(home), opt_view(program_data)));
    dirs
}

/// The paths, in the order to try them, under which the catalog for the
/// internal code `code` may be found on disk: each search directory (see
/// `search_dirs`) with each of the file names of `locale_filenames`.
/// `program_data` is the Windows `%PROGRAMDATA%` directory, `None` on other
/// systems.
pub fn locale_candidate_paths(
    exe_dir: Option<&str>,
    home: Option<&str>,
    program_data: Option<&str>,
    code: &str,
) -> (r: Vec<String>)
    ensures
        r@.map_values(|p: String| p@) == candidate_paths_spec(opt_view(exe_dir), opt_view(home), opt_view(program_data), code@),
{
    let dirs = locale_dirs(exe_dir, home, program_data);
    let names = locale_filenames(code);
    let ghost dv = dirs@.map_values(|x: String| x@);
    let ghost nv = names@.map_values(|x: String| x@);
    let mut out: Vec<String> = Vec::new();
    let mut i: usize = 0;
    assert(dv.take(0) =~= Seq::<Seq<char>>::empty());
    assert(out@.map_values(|x: String| x@) =~= Seq::<Seq<char>>::empty());
    while i < dirs.len()
        invariant
            i <= dirs.len(),
            dv == dirs@.map_values(|x: String| x@),
            nv == names@.map_values(|x: String| x@),
            out@.map_values(|x: String| x@) == paths_in(dv.take(i as int), nv),
        decreases dirs.len() - i,
    {
        let ghost base = out@.map_values(|x: String| x@);
        let ghost d = dv[i as int];
        let mut j: usize = 0;
        assert(nv.take(0).map_values(|n: Seq<char>| d + "/"@ + n) =~= Seq::<Seq<char>>::empty());
        assert(base + Seq::<Seq<char>>::empty() =~= base);
        while j < names.len()
            invariant
                j <= names.len(),
                i < dirs.len(),
                d == dv[i as int],
                dv == dirs@.map_values(|x: String| x@),
                nv == names@.map_values(|x: String| x@),
                out@.map_values(|x: String| x@) == base + nv.take(j as int).map_values(|n: Seq<char>| d + "/"@ + n),
            decreases names.len() - j,
        {
            let mut p = dirs[i].as_str().to_owned();
            p.append("/");
            p.append(names[j].as_str());
            let ghost before = out@.map_values(|x: String| x@);
            assert(p@ == d + "/"@ + nv[j as int]);
            out.push(p);
            assert(out@.map_values(|x: String| x@) =~= before.push(d + "/"@ + nv[j as int]));
            assert(nv.take(j + 1) =~= nv.take(j as int).push(nv[j as int]));
            j = j + 1;
            assert(nv.take(j as int).map_values(|n: Seq<char>| d + "/"@ + n)
                =~= nv.take(j - 1).map_values(|n: Seq<char>| d + "/"@ + n).push(d + "/"@ + nv[j - 1]));
            assert(out@.map_values(|x: String| x@) =~= base + nv.take(j as int).map_values(|n: Seq<char>| d + "/"@ + n));
        }
        assert(nv.take(names.len() as int) =~= nv);
        assert(dv.take(i + 1).drop_last() =~= dv.take(i as int));
        assert(dv.take(i + 1).last() == d);
        i = i + 1;
    }
    assert(dv.take(dirs.len() as int) =~= dv);
    out
}

} // verus!
