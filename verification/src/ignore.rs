//! Ignore rules: parsing the lines of an ignore file into global, local and
//! exception patterns, and deciding whether a path is ignored, with glob
//! patterns from the `glob` crate.

use vstd::prelude::*;
use crate::text::{chars_of, trim, trim_str, views};

verus! {

broadcast use vstd::string::group_string_axioms;

#[verifier::external_type_specification]
#[verifier::external_body]
pub struct ExGlobPattern(glob::Pattern);

/// Whether `glob::Pattern::new` accepts `pattern`.
pub uninterp spec fn glob_compiles(pattern: Seq<char>) -> bool;

/// Whether the compiled `pattern` matches `text` under `glob::Pattern::matches`.
pub uninterp spec fn glob_matches(pattern: Seq<char>, text: Seq<char>) -> bool;

/// `p` holds one of the characters that `glob::Pattern::new` treats as
/// special: `?`, `*` or `[`.
pub open spec fn has_glob_meta(p: Seq<char>) -> bool {
    exists|i: int| 0 <= i < p.len() && (p[i] == '?' || p[i] == '*' || p[i] == '[')
}

/// `p` has no special glob character and no backslash: a pattern that
/// `glob::Pattern::new` reads as literal characters only, with no character
/// that any target treats as a path separator besides `/`.
pub open spec fn literal_glob(p: Seq<char>) -> bool {
    !has_glob_meta(p) && !p.contains('\\')
}

/// A compiled glob pattern together with the text it was compiled from.
pub struct GlobPattern {
    compiled: glob::Pattern,
    source: Ghost<Seq<char>>,
}

impl GlobPattern {
    /// The text this pattern was compiled from.
    pub closed spec fn source(&self) -> Seq<char> {
        self.source@
    }
}

/// Calls `glob::Pattern::new(pattern)`. Trusted: the result is `Some` exactly
/// when the crate accepts the pattern (named `glob_compiles`) and then keeps
/// `pattern` as its source; the crate's source shows that a pattern without
/// `?`, `*` and `[` is always accepted, each character a literal token.
#[verifier::external_body]
fn compile_glob(pattern: &str) -> (r: Option<GlobPattern>)
    ensures
        r is Some <==> glob_compiles(pattern@),
        r matches Some(g) ==> g.source() == pattern@,
        !has_glob_meta(pattern@) ==> r is Some,
{
    match glob::Pattern::new(pattern) {
        Ok(p) => Some(GlobPattern { compiled: p, source: Ghost(pattern@) }),
        Err(_) => None,
    }
}

/// Calls `glob::Pattern::matches(text)` on `g`. Trusted: the result is the
/// crate's match of `g`'s source against `text` (named `glob_matches`); the
/// crate's source shows that a pattern of literal tokens only, under the
/// default options (case sensitive), matches exactly the equal text. The
/// crate treats `/` and `\` as the same character on Windows targets, so
/// that clause is stated only where neither the pattern nor the text holds
/// a backslash.
#[verifier::external_body]
fn glob_pattern_matches(g: &GlobPattern, text: &str) -> (b: bool)
    ensures
        b == glob_matches(g.source(), text@),
        literal_glob(g.source()) && !text@.contains('\\') ==> (b == (text@ == g.source())),
{
    g.compiled.matches(text)
}

/// Ignore rules: patterns that ignore everywhere, patterns that ignore
/// locally, and exception patterns that keep a path.
#[derive(Debug)]
pub struct IgnoreRules {
    pub global_ignore: Vec<String>,
    pub local_ignore: Vec<String>,
    pub exceptions: Vec<String>,
}

/// Some pattern of `patterns` compiles and matches `path`.
pub open spec fn any_match(patterns: Seq<Seq<char>>, path: Seq<char>) -> bool {
    exists|i: int|
        0 <= i < patterns.len() && glob_compiles(#[trigger] patterns[i]) && glob_matches(
            patterns[i],
            path,
        )
}

/// `path` is ignored under the rules: no exception matches it, and a global
/// or a local pattern does.
pub open spec fn ignored(
    global: Seq<Seq<char>>,
    local: Seq<Seq<char>>,
    exceptions: Seq<Seq<char>>,
    path: Seq<char>,
) -> bool {
    !any_match(exceptions, path) && (any_match(global, path) || any_match(local, path))
}

/// Whether the glob `pattern` compiles and matches `text`; a pattern of
/// literal characters matches exactly the equal text.
pub fn glob_match(pattern: &str, text: &str) -> (b: bool)
    ensures
        b == (glob_compiles(pattern@) && glob_matches(pattern@, text@)),
        literal_glob(pattern@) && !text@.contains('\\') ==> (b == (text@ == pattern@)),
{
    match compile_glob(pattern) {
        Some(g) => glob_pattern_matches(&g, text),
        None => false,
    }
}

/// Whether some pattern of `patterns` compiles and matches `path`.
fn matches_any(patterns: &Vec<String>, path: &str) -> (b: bool)
    ensures
        b == any_match(views(patterns@), path@),
{
    let n = patterns.len();
    let mut i: usize = 0;
    while i < n
        invariant
            n == patterns@.len(),
            i <= n,
            forall|j: int|
                0 <= j < i ==> !(glob_compiles(#[trigger] views(patterns@)[j]) && glob_matches(
                    views(patterns@)[j],
                    path@,
                )),
        decreases n - i,
    {
        if glob_match(patterns[i].as_str(), path) {
            assert(glob_compiles(views(patterns@)[i as int]));
            return true;
        }
        i = i + 1;
    }
    false
}

/// Whether `path` is ignored by `rules`: exceptions are checked first and
/// keep a matching path; otherwise a matching global or local pattern
/// ignores it.
pub fn is_ignored(path: &str, rules: &IgnoreRules) -> (b: bool)
    ensures
        b == ignored(
            views(rules.global_ignore@),
            views(rules.local_ignore@),
            views(rules.exceptions@),
            path@,
        ),
{
    if matches_any(&rules.exceptions, path) {
        return false;
    }
    if matches_any(&rules.global_ignore, path) {
        return true;
    }
    matches_any(&rules.local_ignore, path)
}

/// The rules read from `lines`: global patterns, local patterns, exceptions.
pub open spec fn parse_rules(lines: Seq<Seq<char>>) -> (
    Seq<Seq<char>>,
    Seq<Seq<char>>,
    Seq<Seq<char>>,
)
    decreases lines.len(),
{
    if lines.len() == 0 {
        (seq![], seq![], seq![])
    } else {
        let (g, l, e) = parse_rules(lines.drop_last());
        let t = trim(lines.last());
        if t.len() == 0 || t[0] == '#' {
            (g, l, e)
        } else if t[0] == '!' {
            (g, l, e.push(t.drop_first()))
        } else if t[0] == '/' || (t.len() >= 3 && t[0] == '*' && t[1] == '*' && t[2] == '/') {
            (g.push(t), l.push(t), e)
        } else {
            (g, l.push(t), e)
        }
    }
}

/// Reads the lines of an ignore file. Each line is trimmed; blank lines and
/// lines starting with `#` are skipped; `!pattern` is an exception; a pattern
/// starting with `/` or `**/` is global and also local; any other is local.
pub fn parse_gitignore(lines: &Vec<String>) -> (r: IgnoreRules)
    ensures
        views(r.global_ignore@) == parse_rules(views(lines@)).0,
        views(r.local_ignore@) == parse_rules(views(lines@)).1,
        views(r.exceptions@) == parse_rules(views(lines@)).2,
{
    let mut global_ignore: Vec<String> = Vec::new();
    let mut local_ignore: Vec<String> = Vec::new();
    let mut exceptions: Vec<String> = Vec::new();
    let n = lines.len();
    let mut i: usize = 0;
    let ghost all = views(lines@);
    assert(all.take(0) =~= seq![]);
    while i < n
        invariant
            n == lines@.len(),
            all == views(lines@),
            i <= n,
            views(global_ignore@) == parse_rules(all.take(i as int)).0,
            views(local_ignore@) == parse_rules(all.take(i as int)).1,
            views(exceptions@) == parse_rules(all.take(i as int)).2,
        decreases n - i,
    {
        assert(all.take(i + 1).drop_last() =~= all.take(i as int));
        assert(all.take(i + 1).last() == lines@[i as int]@);
        let line = trim_str(lines[i].as_str());
        let c = chars_of(line.as_str());
        let ghost g0 = global_ignore@;
        let ghost l0 = local_ignore@;
        let ghost e0 = exceptions@;
        if c.len() == 0 || c[0] == '#' {
        } else if c[0] == '!' {
            let rest = line.as_str().substring_char(1, c.len()).to_owned();
            assert(rest@ =~= line@.drop_first());
            exceptions.push(rest);
            assert(views(exceptions@) =~= views(e0).push(line@.drop_first()));
        } else if c[0] == '/' || (c.len() >= 3 && c[0] == '*' && c[1] == '*' && c[2] == '/') {
            let copy = line.clone();
            global_ignore.push(copy);
            local_ignore.push(line);
            assert(views(global_ignore@) =~= views(g0).push(c@));
            assert(views(local_ignore@) =~= views(l0).push(c@));
        } else {
            local_ignore.push(line);
            assert(views(local_ignore@) =~= views(l0).push(c@));
        }
        i = i + 1;
    }
    assert(all.take(n as int) =~= all);
    IgnoreRules { global_ignore, local_ignore, exceptions }
}

/// A path that an exception matches is never ignored, whatever the global
/// and local patterns say.
pub proof fn law_exception_keeps_path(
    global: Seq<Seq<char>>,
    local: Seq<Seq<char>>,
    exceptions: Seq<Seq<char>>,
    path: Seq<char>,
)
    requires
        any_match(exceptions, path),
    ensures
        !ignored(global, local, exceptions, path),
{
}

/// Every global pattern read from an ignore file is also a local pattern,
/// and every global or local pattern is non-empty, trimmed, and starts with
/// neither `#` nor `!`.
pub proof fn law_parsed_patterns(lines: Seq<Seq<char>>)
    ensures
        forall|i: int|
            0 <= i < parse_rules(lines).0.len() ==> parse_rules(lines).1.contains(
                #[trigger] parse_rules(lines).0[i],
            ),
        forall|i: int|
            0 <= i < parse_rules(lines).1.len() ==> {
                let p = #[trigger] parse_rules(lines).1[i];
                &&& p.len() > 0
                &&& trim(p) == p
                &&& p[0] != '#'
                &&& p[0] != '!'
            },
    decreases lines.len(),
{
    if lines.len() > 0 {
        let prev = lines.drop_last();
        law_parsed_patterns(prev);
        let (g, l, e) = parse_rules(prev);
        let t = trim(lines.last());
        crate::text::law_trim_idempotent(lines.last());
        let (g2, l2, e2) = parse_rules(lines);
        assert forall|i: int| 0 <= i < g2.len() implies l2.contains(#[trigger] g2[i]) by {
            if i < g.len() {
                assert(l.contains(g[i]));
                let k = choose|k: int| 0 <= k < l.len() && l[k] == g[i];
                assert(l2[k] == l[k]);
            } else {
                assert(l2[l2.len() - 1] == t);
            }
        }
        assert forall|i: int| 0 <= i < l2.len() implies {
            let p = #[trigger] l2[i];
            &&& p.len() > 0
            &&& trim(p) == p
            &&& p[0] != '#'
            &&& p[0] != '!'
        } by {
            if i < l.len() {
                assert(l2[i] == l[i]);
            }
        }
    }
}

/// The line `l`, trimmed, is an exception: it starts with `!`.
pub open spec fn is_exception_line(l: Seq<char>) -> bool {
    trim(l).len() > 0 && trim(l)[0] == '!'
}

/// The line `l`, trimmed, is a pattern: not blank, not a `#` comment, not an
/// exception.
pub open spec fn is_pattern_line(l: Seq<char>) -> bool {
    trim(l).len() > 0 && trim(l)[0] != '#' && trim(l)[0] != '!'
}

/// The line `l`, trimmed, is a pattern anchored at the top: it starts with
/// `/` or `**/`.
pub open spec fn is_global_line(l: Seq<char>) -> bool {
    let t = trim(l);
    is_pattern_line(l) && (t[0] == '/' || (t.len() >= 3 && t[0] == '*' && t[1] == '*' && t[2]
        == '/'))
}

/// Reading an ignore file keeps every line of each kind, in file order: the
/// global patterns are the trimmed anchored pattern lines, the local
/// patterns are all trimmed pattern lines, and the exceptions are the trimmed
/// `!` lines without their `!`; so there are as many exceptions as `!` lines.
pub proof fn law_parse_rules_by_kind(lines: Seq<Seq<char>>)
    ensures
        parse_rules(lines).0 == lines.filter(|l: Seq<char>| is_global_line(l)).map_values(
            |l: Seq<char>| trim(l),
        ),
        parse_rules(lines).1 == lines.filter(|l: Seq<char>| is_pattern_line(l)).map_values(
            |l: Seq<char>| trim(l),
        ),
        parse_rules(lines).2 == lines.filter(|l: Seq<char>| is_exception_line(l)).map_values(
            |l: Seq<char>| trim(l).drop_first(),
        ),
        parse_rules(lines).2.len() == lines.filter(|l: Seq<char>| is_exception_line(l)).len(),
    decreases lines.len(),
{
    reveal(Seq::filter);
    let fg = |l: Seq<char>| is_global_line(l);
    let fl = |l: Seq<char>| is_pattern_line(l);
    let fe = |l: Seq<char>| is_exception_line(l);
    let mt = |l: Seq<char>| trim(l);
    let md = |l: Seq<char>| trim(l).drop_first();
    if lines.len() == 0 {
        assert(lines.filter(fg) =~= Seq::<Seq<char>>::empty());
        assert(lines.filter(fl) =~= Seq::<Seq<char>>::empty());
        assert(lines.filter(fe) =~= Seq::<Seq<char>>::empty());
        assert(lines.filter(fg).map_values(mt) =~= Seq::<Seq<char>>::empty());
        assert(lines.filter(fl).map_values(mt) =~= Seq::<Seq<char>>::empty());
        assert(lines.filter(fe).map_values(md) =~= Seq::<Seq<char>>::empty());
    } else {
        let prev = lines.drop_last();
        let l = lines.last();
        law_parse_rules_by_kind(prev);
        let pg = prev.filter(fg);
        let pl = prev.filter(fl);
        let pe = prev.filter(fe);
        assert(pg.push(l).map_values(mt) =~= pg.map_values(mt).push(trim(l)));
        assert(pl.push(l).map_values(mt) =~= pl.map_values(mt).push(trim(l)));
        assert(pe.push(l).map_values(md) =~= pe.map_values(md).push(trim(l).drop_first()));
        assert(lines.filter(fg) == if fg(l) { pg.push(l) } else { pg });
        assert(lines.filter(fl) == if fl(l) { pl.push(l) } else { pl });
        assert(lines.filter(fe) == if fe(l) { pe.push(l) } else { pe });
    }
}

/// Patterns are tried one by one: a list with one more pattern matches a
/// path exactly when the shorter list does or the new pattern compiles and
/// matches it; an empty list matches nothing.
pub proof fn law_any_match_step(patterns: Seq<Seq<char>>, q: Seq<char>, path: Seq<char>)
    ensures
        !any_match(Seq::<Seq<char>>::empty(), path),
        any_match(patterns.push(q), path) == (any_match(patterns, path) || (glob_compiles(q)
            && glob_matches(q, path))),
{
    let ps = patterns.push(q);
    if any_match(ps, path) {
        let i = choose|i: int|
            0 <= i < ps.len() && glob_compiles(#[trigger] ps[i]) && glob_matches(ps[i], path);
        if i < patterns.len() {
            assert(ps[i] == patterns[i]);
        }
    }
    if any_match(patterns, path) {
        let i = choose|i: int|
            0 <= i < patterns.len() && glob_compiles(#[trigger] patterns[i]) && glob_matches(
                patterns[i],
                path,
            );
        assert(ps[i] == patterns[i]);
    }
    if glob_compiles(q) && glob_matches(q, path) {
        assert(ps[patterns.len() as int] == q);
    }
}

/// How a path is decided: an exception that matches keeps it; otherwise a
/// matching local pattern ignores it whatever the global patterns are, and
/// so does a matching global pattern whatever the local ones are; a path
/// that no global and no local pattern matches is never ignored.
pub proof fn law_ignore_decision(
    global: Seq<Seq<char>>,
    local: Seq<Seq<char>>,
    exceptions: Seq<Seq<char>>,
    path: Seq<char>,
)
    ensures
        any_match(exceptions, path) ==> !ignored(global, local, exceptions, path),
        !any_match(exceptions, path) && any_match(local, path) ==> ignored(
            global,
            local,
            exceptions,
            path,
        ),
        !any_match(exceptions, path) && any_match(global, path) ==> ignored(
            global,
            local,
            exceptions,
            path,
        ),
        !any_match(global, path) && !any_match(local, path) ==> !ignored(
            global,
            local,
            exceptions,
            path,
        ),
{
}

} // verus!
