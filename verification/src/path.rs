//! Unix paths as text: their components (as `std::path::Path::components`
//! yields them on Unix), joining, rendering, resolving `.` and `..`, and
//! stripping a base path.

use vstd::prelude::*;
use crate::text::chars_of;

verus! {

broadcast use vstd::string::group_string_axioms;

/// A component of a path, as a value.
pub enum Comp {
    RootDir,
    CurDir,
    ParentDir,
    Normal(Seq<char>),
}

/// A component of a path.
#[derive(Debug, Clone)]
pub enum Component {
    /// The leading `/` of an absolute path.
    RootDir,
    /// A leading `.`.
    CurDir,
    /// `..`.
    ParentDir,
    /// Any other name.
    Normal(String),
}

impl View for Component {
    type V = Comp;

    open spec fn view(&self) -> Comp {
        match self {
            Component::RootDir => Comp::RootDir,
            Component::CurDir => Comp::CurDir,
            Component::ParentDir => Comp::ParentDir,
            Component::Normal(n) => Comp::Normal(n@),
        }
    }
}

/// The values of a sequence of components.
pub open spec fn comps_view(v: Seq<Component>) -> Seq<Comp> {
    v.map_values(|c: Component| c@)
}

/// The component that a segment between separators contributes; `first`
/// tells whether it is the first segment of a relative path.
pub open spec fn emit(seg: Seq<char>, first: bool) -> Seq<Comp> {
    if seg.len() == 0 {
        seq![]
    } else if seg == seq!['.'] {
        if first {
            seq![Comp::CurDir]
        } else {
            seq![]
        }
    } else if seg == seq!['.', '.'] {
        seq![Comp::ParentDir]
    } else {
        seq![Comp::Normal(seg)]
    }
}

/// The state of reading a path from the left: the components of the
/// segments already closed by a `/`, the open segment, and whether no `/`
/// has been read yet.
pub type ScanState = (Seq<Comp>, Seq<char>, bool);

/// Reads `s` from the state `st`.
pub open spec fn scan_from(st: ScanState, s: Seq<char>) -> ScanState
    decreases s.len(),
{
    if s.len() == 0 {
        st
    } else {
        let p = scan_from(st, s.drop_last());
        if s.last() == '/' {
            (p.0 + emit(p.1, p.2), seq![], false)
        } else {
            (p.0, p.1.push(s.last()), p.2)
        }
    }
}

/// The state before reading anything.
pub open spec fn scan_start() -> ScanState {
    (seq![], seq![], true)
}

/// `[RootDir]` for a path that starts with `/`, else nothing.
pub open spec fn root_prefix(s: Seq<char>) -> Seq<Comp> {
    if s.len() > 0 && s[0] == '/' {
        seq![Comp::RootDir]
    } else {
        seq![]
    }
}

/// The components of the path `s`: a `RootDir` for a leading `/`, a
/// `CurDir` for a leading `.` segment of a relative path, then one component
/// per segment between `/`s, where empty segments and other `.` segments are
/// dropped and `..` is `ParentDir`.
pub open spec fn components(s: Seq<char>) -> Seq<Comp> {
    let st = scan_from(scan_start(), s);
    root_prefix(s) + st.0 + emit(st.1, st.2)
}

/// `s` contains no `/`.
pub open spec fn no_slash(s: Seq<char>) -> bool {
    forall|i: int| 0 <= i < s.len() ==> s[i] != '/'
}

/// A name that can stand as a `Normal` component.
pub open spec fn normal_name(n: Seq<char>) -> bool {
    n.len() > 0 && no_slash(n) && n != seq!['.'] && n != seq!['.', '.']
}

/// The component at `i` may stand there: `RootDir` and `CurDir` only first,
/// `Normal` only with a proper name.
pub open spec fn comp_fits(cs: Seq<Comp>, i: int) -> bool {
    match cs[i] {
        Comp::RootDir => i == 0,
        Comp::CurDir => i == 0,
        Comp::ParentDir => true,
        Comp::Normal(n) => normal_name(n),
    }
}

/// A sequence of components that some path has.
pub open spec fn valid_comps(cs: Seq<Comp>) -> bool {
    forall|i: int| 0 <= i < cs.len() ==> #[trigger] comp_fits(cs, i)
}

/// The text of one component.
pub open spec fn comp_text(c: Comp) -> Seq<char> {
    match c {
        Comp::RootDir => seq!['/'],
        Comp::CurDir => seq!['.'],
        Comp::ParentDir => seq!['.', '.'],
        Comp::Normal(n) => n,
    }
}

/// The path that collecting `cs` into a `PathBuf` gives: the texts joined by
/// `/`, with no extra `/` after a leading `RootDir`.
pub open spec fn render(cs: Seq<Comp>) -> Seq<char>
    decreases cs.len(),
{
    if cs.len() == 0 {
        seq![]
    } else if cs.len() == 1 {
        comp_text(cs[0])
    } else if cs.drop_last() == seq![Comp::RootDir] {
        render(cs.drop_last()) + comp_text(cs.last())
    } else {
        render(cs.drop_last()) + seq!['/'] + comp_text(cs.last())
    }
}

/// `PathBuf::push` on Unix: an absolute `p` replaces `base`; otherwise `p` is
/// appended, after a `/` when `base` is not empty and does not end with one.
pub open spec fn join(base: Seq<char>, p: Seq<char>) -> Seq<char> {
    if p.len() > 0 && p[0] == '/' {
        p
    } else if base.len() > 0 && base.last() != '/' {
        base + seq!['/'] + p
    } else {
        base + p
    }
}

/// Reading `a` then `b` is reading `a + b`.
pub proof fn lemma_scan_concat(st: ScanState, a: Seq<char>, b: Seq<char>)
    ensures
        scan_from(st, a + b) == scan_from(scan_from(st, a), b),
    decreases b.len(),
{
    if b.len() == 0 {
        assert(a + b =~= a);
    } else {
        lemma_scan_concat(st, a, b.drop_last());
        assert((a + b).drop_last() =~= a + b.drop_last());
        assert((a + b).last() == b.last());
    }
}

/// Reading text without `/` only extends the open segment.
pub proof fn lemma_scan_no_slash(st: ScanState, t: Seq<char>)
    requires
        no_slash(t),
    ensures
        scan_from(st, t) == (st.0, st.1 + t, st.2),
    decreases t.len(),
{
    if t.len() == 0 {
        assert(st.1 + t =~= st.1);
    } else {
        lemma_scan_no_slash(st, t.drop_last());
        assert(st.1 + t =~= (st.1 + t.drop_last()).push(t.last()));
    }
}

/// A path without `/` has the single component of its text, if any.
pub proof fn lemma_components_no_slash(t: Seq<char>)
    requires
        no_slash(t),
    ensures
        components(t) == emit(t, true),
{
    lemma_scan_no_slash(scan_start(), t);
    assert(seq![] + t =~= t);
    if t.len() > 0 {
        assert(t[0] != '/');
    }
    assert(components(t) =~= emit(t, true));
}

/// Appending `/` and then a text without `/` to a non-empty path adds that
/// text's component, read as a later segment.
pub proof fn lemma_components_append(p: Seq<char>, t: Seq<char>)
    requires
        p.len() > 0,
        no_slash(t),
    ensures
        components(p + seq!['/'] + t) == components(p) + emit(t, false),
{
    let st = scan_from(scan_start(), p);
    lemma_scan_concat(scan_start(), p, seq!['/']);
    assert((p + seq!['/']).drop_last() =~= p);
    assert(scan_from(scan_start(), p + seq!['/']) == (st.0 + emit(st.1, st.2), Seq::<char>::empty(), false));
    lemma_scan_concat(scan_start(), p + seq!['/'], t);
    lemma_scan_no_slash((st.0 + emit(st.1, st.2), Seq::<char>::empty(), false), t);
    assert(seq![] + t =~= t);
    assert((p + seq!['/'] + t)[0] == p[0]);
    assert(root_prefix(p + seq!['/'] + t) == root_prefix(p));
    assert(components(p + seq!['/'] + t) =~= components(p) + emit(t, false));
}

/// The text of a component that fits at `i` has no `/` unless it is the root.
proof fn lemma_text_no_slash(cs: Seq<Comp>, i: int)
    requires
        0 <= i < cs.len(),
        comp_fits(cs, i),
        cs[i] != Comp::RootDir,
    ensures
        no_slash(comp_text(cs[i])),
{
}

/// Rendering a valid sequence of components and reading the components of
/// the result gives the sequence back.
pub proof fn lemma_components_render(cs: Seq<Comp>)
    requires
        valid_comps(cs),
    ensures
        components(render(cs)) == cs,
        cs.len() > 0 ==> render(cs).len() > 0,
        cs.len() > 0 ==> (render(cs)[0] == '/' <==> cs[0] == Comp::RootDir),
    decreases cs.len(),
{
    if cs.len() == 0 {
        assert(components(seq![]) =~= seq![]);
    } else if cs.len() == 1 {
        assert(comp_fits(cs, 0));
        if cs[0] == Comp::RootDir {
            let s = seq!['/'];
            assert(s.drop_last() =~= seq![]);
            assert(s.last() == '/');
            assert(scan_from(scan_start(), s.drop_last()) == scan_start());
            assert(emit(Seq::<char>::empty(), true) =~= Seq::<Comp>::empty());
            assert(scan_from(scan_start(), s) == (
                Seq::<Comp>::empty(),
                Seq::<char>::empty(),
                false,
            ));
            assert(root_prefix(s) == seq![Comp::RootDir]);
            assert(render(cs) == s);
            assert(components(s) =~= cs);
        } else {
            lemma_text_no_slash(cs, 0);
            lemma_components_no_slash(comp_text(cs[0]));
            assert(components(render(cs)) =~= cs);
        }
    } else {
        let prev = cs.drop_last();
        let c = cs.last();
        assert(valid_comps(prev)) by {
            assert forall|i: int| 0 <= i < prev.len() implies #[trigger] comp_fits(prev, i) by {
                assert(comp_fits(cs, i));
            }
        }
        lemma_components_render(prev);
        assert(comp_fits(cs, cs.len() - 1));
        lemma_text_no_slash(cs, cs.len() - 1);
        let t = comp_text(c);
        if prev == seq![Comp::RootDir] {
            let s = seq!['/'] + t;
            lemma_scan_concat(scan_start(), seq!['/'], t);
            assert(seq!['/'].drop_last() =~= seq![]);
            lemma_scan_no_slash((Seq::<Comp>::empty(), Seq::<char>::empty(), false), t);
            assert(seq![] + t =~= t);
            assert(components(s) =~= seq![Comp::RootDir] + emit(t, false));
        } else {
            lemma_components_append(render(prev), t);
        }
        assert(emit(t, false) =~= seq![c]);
        assert(components(render(cs)) =~= cs);
    }
}

/// Components that may stand anywhere after the first place.
pub open spec fn later_comps(cs: Seq<Comp>) -> bool {
    forall|i: int|
        0 <= i < cs.len() ==> (#[trigger] cs[i] == Comp::ParentDir || (cs[i] is Normal
            && normal_name(cs[i]->Normal_0)))
}

/// A valid sequence followed by later components is valid.
proof fn lemma_valid_append(a: Seq<Comp>, b: Seq<Comp>)
    requires
        valid_comps(a),
        later_comps(b),
    ensures
        valid_comps(a + b),
{
    assert forall|i: int| 0 <= i < (a + b).len() implies #[trigger] comp_fits(a + b, i) by {
        if i < a.len() {
            assert(comp_fits(a, i));
            assert((a + b)[i] == a[i]);
        } else {
            assert((a + b)[i] == b[i - a.len()]);
        }
    }
}

/// What reading a path from the left keeps: the open segment has no `/`,
/// the first-segment flag holds exactly while no `/` was read, and the
/// components so far form a valid sequence.
proof fn lemma_scan_inv(s: Seq<char>)
    ensures
        no_slash(scan_from(scan_start(), s).1),
        scan_from(scan_start(), s).2 <==> no_slash(s),
        scan_from(scan_start(), s).2 ==> scan_from(scan_start(), s).0.len() == 0
            && scan_from(scan_start(), s).1 == s,
        valid_comps(root_prefix(s) + scan_from(scan_start(), s).0),
    decreases s.len(),
{
    let st = scan_from(scan_start(), s);
    if s.len() == 0 {
        assert(root_prefix(s) + st.0 =~= seq![]);
    } else {
        let prev = s.drop_last();
        lemma_scan_inv(prev);
        let p = scan_from(scan_start(), prev);
        assert(forall|i: int| 0 <= i < prev.len() ==> prev[i] == s[i]);
        if prev.len() > 0 {
            assert(root_prefix(s) == root_prefix(prev));
        }
        if s.last() == '/' {
            assert(!no_slash(s)) by {
                assert(s[s.len() - 1] == '/');
            }
            if p.2 {
                if prev.len() == 0 {
                    assert(root_prefix(s) + st.0 =~= seq![Comp::RootDir]);
                    assert(comp_fits(seq![Comp::RootDir], 0));
                } else {
                    assert(prev[0] != '/');
                    assert(root_prefix(s) =~= seq![]);
                    assert(root_prefix(s) + st.0 =~= emit(p.1, true));
                    if emit(p.1, true).len() > 0 {
                        assert(comp_fits(emit(p.1, true), 0));
                    }
                }
            } else {
                assert(later_comps(emit(p.1, p.2)));
                lemma_valid_append(root_prefix(s) + p.0, emit(p.1, p.2));
                assert(root_prefix(s) + st.0 =~= root_prefix(s) + p.0 + emit(p.1, p.2));
            }
        } else {
            assert(no_slash(s) <==> no_slash(prev)) by {
                if no_slash(prev) {
                    assert forall|i: int| 0 <= i < s.len() implies s[i] != '/' by {
                        if i < prev.len() {
                            assert(s[i] == prev[i]);
                        }
                    }
                }
            }
            if prev.len() == 0 {
                assert(root_prefix(s) =~= seq![]);
                assert(root_prefix(s) + st.0 =~= seq![]);
            }
            assert(st.1 == p.1.push(s.last()));
            if p.2 {
                assert(st.1 =~= s);
            }
        }
    }
}

/// The components of every path form a valid sequence.
pub proof fn lemma_components_valid(s: Seq<char>)
    ensures
        valid_comps(components(s)),
{
    lemma_scan_inv(s);
    let st = scan_from(scan_start(), s);
    if st.2 {
        if emit(st.1, true).len() > 0 {
            if s.len() > 0 {
                assert(s[0] != '/');
            }
            assert(components(s) =~= emit(st.1, true));
            assert(comp_fits(components(s), 0));
        } else {
            assert(components(s) =~= root_prefix(s) + st.0);
        }
    } else {
        assert(later_comps(emit(st.1, st.2)));
        lemma_valid_append(root_prefix(s) + st.0, emit(st.1, st.2));
    }
}

/// Appends the component of the segment `path[start..end]`.
fn push_segment(
    path: &str,
    v: &Vec<char>,
    start: usize,
    end: usize,
    first: bool,
    out: &mut Vec<Component>,
)
    requires
        v@ == path@,
        start <= end <= v@.len(),
    ensures
        comps_view(final(out)@) == comps_view(old(out)@) + emit(
            path@.subrange(start as int, end as int),
            first,
        ),
{
    let ghost seg = path@.subrange(start as int, end as int);
    let len = end - start;
    if len == 0 {
        assert(comps_view(out@) =~= comps_view(out@) + emit(seg, first));
    } else if len == 1 && v[start] == '.' {
        assert(seg =~= seq!['.']);
        if first {
            out.push(Component::CurDir);
        }
        assert(comps_view(out@) =~= comps_view(old(out)@) + emit(seg, first));
    } else if len == 2 && v[start] == '.' && v[start + 1] == '.' {
        assert(seg =~= seq!['.', '.']);
        out.push(Component::ParentDir);
        assert(comps_view(out@) =~= comps_view(old(out)@) + emit(seg, first));
    } else {
        assert(seg != seq!['.']) by {
            if seg == seq!['.'] {
                assert(seg.len() == 1 && seg[0] == '.');
            }
        }
        assert(seg != seq!['.', '.']) by {
            if seg == seq!['.', '.'] {
                assert(seg.len() == 2 && seg[0] == '.' && seg[1] == '.');
            }
        }
        let name = path.substring_char(start, end).to_owned();
        out.push(Component::Normal(name));
        assert(comps_view(out@) =~= comps_view(old(out)@) + emit(seg, first));
    }
}

/// The components of the path `path`, as `Path::components` yields them on Unix.
pub fn path_components(path: &str) -> (r: Vec<Component>)
    ensures
        comps_view(r@) == components(path@),
{
    let v = chars_of(path);
    let n = v.len();
    let mut out: Vec<Component> = Vec::new();
    if n > 0 && v[0] == '/' {
        out.push(Component::RootDir);
    }
    let mut start: usize = 0;
    let mut first = true;
    let mut i: usize = 0;
    assert(path@.take(0) =~= seq![]);
    assert(comps_view(out@) =~= root_prefix(path@) + scan_from(scan_start(), path@.take(0)).0);
    while i < n
        invariant
            n == v@.len(),
            v@ == path@,
            start <= i <= n,
            comps_view(out@) == root_prefix(path@) + scan_from(scan_start(), path@.take(i as int)).0,
            scan_from(scan_start(), path@.take(i as int)).1 == path@.subrange(start as int, i as int),
            scan_from(scan_start(), path@.take(i as int)).2 == first,
        decreases n - i,
    {
        assert(path@.take(i + 1).drop_last() =~= path@.take(i as int));
        if v[i] == '/' {
            push_segment(path, &v, start, i, first, &mut out);
            start = i + 1;
            first = false;
            assert(path@.subrange(start as int, start as int) =~= seq![]);
        } else {
            assert(path@.subrange(start as int, i + 1) =~= path@.subrange(start as int, i as int).push(
                v@[i as int],
            ));
        }
        i = i + 1;
    }
    assert(path@.take(n as int) =~= path@);
    push_segment(path, &v, start, n, first, &mut out);
    out
}

/// The text of the component `c`.
fn comp_string(c: &Component) -> (r: String)
    ensures
        r@ == comp_text(c@),
{
    match c {
        Component::RootDir => {
            proof {
                reveal_strlit("/");
            }
            "/".to_owned()
        },
        Component::CurDir => {
            proof {
                reveal_strlit(".");
            }
            ".".to_owned()
        },
        Component::ParentDir => {
            proof {
                reveal_strlit("..");
            }
            "..".to_owned()
        },
        Component::Normal(n) => n.clone(),
    }
}

/// The path that collecting `cs` into a `PathBuf` gives.
pub fn render_components(cs: &[Component]) -> (r: String)
    ensures
        r@ == render(comps_view(cs@)),
{
    let ghost all = comps_view(cs@);
    let mut r = String::new();
    let n = cs.len();
    let mut i: usize = 0;
    assert(all.take(0) =~= seq![]);
    while i < n
        invariant
            n == cs@.len(),
            all == comps_view(cs@),
            i <= n,
            r@ == render(all.take(i as int)),
        decreases n - i,
    {
        let t = comp_string(&cs[i]);
        let ghost pre = all.take(i as int);
        assert(all.take(i + 1).drop_last() =~= pre);
        assert(all.take(i + 1).last() == cs@[i as int]@);
        if i == 0 {
            r = t;
            assert(all.take(1) =~= seq![cs@[0]@]);
        } else {
            let root_first = match &cs[0] {
                Component::RootDir => true,
                _ => false,
            };
            if i == 1 && root_first {
                assert(pre =~= seq![Comp::RootDir]);
                r.append(t.as_str());
            } else {
                assert(pre != seq![Comp::RootDir]) by {
                    if pre == seq![Comp::RootDir] {
                        assert(pre.len() == 1 && pre[0] == Comp::RootDir);
                        assert(pre[0] == cs@[0]@);
                    }
                }
                r.append("/");
                proof {
                    reveal_strlit("/");
                }
                r.append(t.as_str());
            }
        }
        i = i + 1;
    }
    assert(all.take(n as int) =~= all);
    r
}

/// `base` with `p` pushed onto it, as `PathBuf::push` does on Unix.
pub fn join_path(base: &str, p: &str) -> (r: String)
    ensures
        r@ == join(base@, p@),
{
    let pv = chars_of(p);
    let bv = chars_of(base);
    if pv.len() > 0 && pv[0] == '/' {
        return p.to_owned();
    }
    let mut r = base.to_owned();
    if bv.len() > 0 && bv[bv.len() - 1] != '/' {
        r.append("/");
        proof {
            reveal_strlit("/");
        }
    }
    r.append(p);
    r
}

/// A copy of the component `c`.
pub fn copy_component(c: &Component) -> (r: Component)
    ensures
        r@ == c@,
{
    match c {
        Component::RootDir => Component::RootDir,
        Component::CurDir => Component::CurDir,
        Component::ParentDir => Component::ParentDir,
        Component::Normal(n) => Component::Normal(n.clone()),
    }
}

/// Whether the components `a` and `b` are equal.
pub fn comp_eq(a: &Component, b: &Component) -> (r: bool)
    ensures
        r == (a@ == b@),
{
    match (a, b) {
        (Component::RootDir, Component::RootDir) => true,
        (Component::CurDir, Component::CurDir) => true,
        (Component::ParentDir, Component::ParentDir) => true,
        (Component::Normal(x), Component::Normal(y)) => x.eq(y),
        _ => false,
    }
}

/// Whether `a` and `b` are the same path, as `Path`'s `==` decides it: by
/// their components.
pub fn path_eq(a: &str, b: &str) -> (r: bool)
    ensures
        r == (components(a@) == components(b@)),
{
    let ca = path_components(a);
    let cb = path_components(b);
    if ca.len() != cb.len() {
        assert(components(a@).len() != components(b@).len());
        return false;
    }
    let n = ca.len();
    let mut i: usize = 0;
    while i < n
        invariant
            n == ca@.len(),
            n == cb@.len(),
            comps_view(ca@) == components(a@),
            comps_view(cb@) == components(b@),
            i <= n,
            forall|j: int| 0 <= j < i ==> ca@[j]@ == cb@[j]@,
        decreases n - i,
    {
        if !comp_eq(&ca[i], &cb[i]) {
            assert(comps_view(ca@)[i as int] != comps_view(cb@)[i as int]);
            return false;
        }
        i = i + 1;
    }
    assert(comps_view(ca@) =~= comps_view(cb@));
    true
}

/// `pre` is a prefix of `cs`.
pub open spec fn comps_prefix(pre: Seq<Comp>, cs: Seq<Comp>) -> bool {
    pre.len() <= cs.len() && cs.take(pre.len() as int) == pre
}

/// Whether the components of `pre` start the components `cs`.
fn starts_with_comps(cs: &Vec<Component>, pre: &Vec<Component>) -> (r: bool)
    ensures
        r == comps_prefix(comps_view(pre@), comps_view(cs@)),
{
    if pre.len() > cs.len() {
        return false;
    }
    let n = pre.len();
    let mut i: usize = 0;
    while i < n
        invariant
            n == pre@.len(),
            n <= cs@.len(),
            i <= n,
            forall|j: int| 0 <= j < i ==> pre@[j]@ == cs@[j]@,
        decreases n - i,
    {
        if !comp_eq(&cs[i], &pre[i]) {
            assert(comps_view(cs@).take(n as int)[i as int] != comps_view(pre@)[i as int]);
            return false;
        }
        i = i + 1;
    }
    assert(comps_view(cs@).take(n as int) =~= comps_view(pre@));
    true
}

/// `s` starts with `/`.
pub open spec fn is_absolute(s: Seq<char>) -> bool {
    s.len() > 0 && s[0] == '/'
}

/// What `get_relative_path` gives for `path` and `base`.
pub open spec fn relative_path(path: Seq<char>, base: Seq<char>) -> Option<Seq<char>> {
    if !is_absolute(path) {
        Some(path)
    } else if comps_prefix(components(base), components(path)) {
        Some(render(components(path).skip(components(base).len() as int)))
    } else {
        None
    }
}

/// A relative `path` as it is; an absolute one with the components of `base`
/// stripped from its front, or `None` when they do not start it.
pub fn get_relative_path(path: &str, base: &str) -> (r: Option<String>)
    ensures
        r is Some <==> relative_path(path@, base@) is Some,
        r matches Some(x) ==> x@ == relative_path(path@, base@)->0,
{
    let pv = chars_of(path);
    if !(pv.len() > 0 && pv[0] == '/') {
        return Some(path.to_owned());
    }
    let pc = path_components(path);
    let bc = path_components(base);
    if !starts_with_comps(&pc, &bc) {
        return None;
    }
    let mut rest: Vec<Component> = Vec::new();
    let mut i: usize = bc.len();
    let n = pc.len();
    let ghost k = bc@.len();
    while i < n
        invariant
            n == pc@.len(),
            k == bc@.len(),
            k <= i <= n,
            comps_view(rest@) == comps_view(pc@).subrange(k as int, i as int),
        decreases n - i,
    {
        let ghost before = rest@;
        rest.push(copy_component(&pc[i]));
        assert(rest@ == before.push(rest@.last()));
        assert(comps_view(rest@) =~= comps_view(before).push(pc@[i as int]@));
        assert(comps_view(rest@) =~= comps_view(pc@).subrange(k as int, i + 1));
        i = i + 1;
    }
    assert(comps_view(pc@).subrange(k as int, n as int) =~= comps_view(pc@).skip(k as int));
    Some(render_components(rest.as_slice()))
}

/// The names left after reading `cs` with a stack: `.` is skipped, `..` pops
/// (nothing on an empty stack), a name is pushed, and the root empties it.
pub open spec fn resolve_stack(cs: Seq<Comp>) -> Seq<Seq<char>>
    decreases cs.len(),
{
    if cs.len() == 0 {
        seq![]
    } else {
        let st = resolve_stack(cs.drop_last());
        match cs.last() {
            Comp::CurDir => st,
            Comp::ParentDir => if st.len() > 0 {
                st.drop_last()
            } else {
                st
            },
            Comp::Normal(n) => st.push(n),
            Comp::RootDir => seq![],
        }
    }
}

/// `Normal` components of the given names.
pub open spec fn normals(names: Seq<Seq<char>>) -> Seq<Comp> {
    names.map_values(|n: Seq<char>| Comp::Normal(n))
}

/// What `resolve_path` gives for `path`: the names left on the stack, joined
/// by `/`, after `/` for an absolute path and after `./` for a relative one.
pub open spec fn resolved(path: Seq<char>) -> Seq<char> {
    (if is_absolute(path) {
        seq!['/']
    } else {
        seq!['.', '/']
    }) + render(normals(resolve_stack(components(path))))
}

/// The path `path` with `.` and `..` worked out: an absolute path stays
/// absolute (`..` at the root stays at the root); a relative path, which has
/// no root to resolve against, comes out starting with `./`.
pub fn resolve_path(path: &str) -> (r: String)
    ensures
        r@ == resolved(path@),
{
    let cs = path_components(path);
    let ghost all = comps_view(cs@);
    let mut stack: Vec<Component> = Vec::new();
    let n = cs.len();
    let mut i: usize = 0;
    assert(all.take(0) =~= seq![]);
    assert(comps_view(stack@) =~= normals(resolve_stack(all.take(0))));
    while i < n
        invariant
            n == cs@.len(),
            all == comps_view(cs@),
            i <= n,
            comps_view(stack@) == normals(resolve_stack(all.take(i as int))),
        decreases n - i,
    {
        assert(all.take(i + 1).drop_last() =~= all.take(i as int));
        assert(all.take(i + 1).last() == cs@[i as int]@);
        let ghost before = stack@;
        match &cs[i] {
            Component::CurDir => {},
            Component::ParentDir => {
                if stack.len() > 0 {
                    stack.pop();
                    assert(stack@ =~= before.drop_last());
                    assert(comps_view(stack@) =~= comps_view(before).drop_last());
                }
            },
            Component::Normal(name) => {
                stack.push(Component::Normal(name.clone()));
                assert(comps_view(stack@) =~= comps_view(before).push(Comp::Normal(name@)));
            },
            Component::RootDir => {
                stack = Vec::new();
            },
        }
        assert(comps_view(stack@) =~= normals(resolve_stack(all.take(i + 1))));
        i = i + 1;
    }
    assert(all.take(n as int) =~= all);
    let pv = chars_of(path);
    let mut r = if pv.len() > 0 && pv[0] == '/' {
        proof {
            reveal_strlit("/");
        }
        "/".to_owned()
    } else {
        proof {
            reveal_strlit("./");
        }
        "./".to_owned()
    };
    let tail = render_components(stack.as_slice());
    r.append(tail.as_str());
    r
}

/// The path `path` resolved against the directory `working_root`: `path`
/// pushed onto `working_root`, then `.` and `..` worked out. Against an
/// absolute working root the result is absolute.
pub fn resolve_path_from(path: &str, working_root: &str) -> (r: String)
    ensures
        r@ == resolved(join(working_root@, path@)),
        is_absolute(working_root@) ==> is_absolute(r@),
{
    let joined = join_path(working_root, path);
    resolve_path(joined.as_str())
}

/// The number of components of the path `p`.
pub open spec fn comp_count(p: Seq<char>) -> nat {
    components(p).len()
}

/// `paths` ordered by their number of components, fewest first.
pub fn sort_by_component_count(paths: &Vec<String>) -> (r: Vec<String>)
    ensures
        r@.to_multiset() == paths@.to_multiset(),
        forall|i: int, j: int|
            0 <= i < j < r@.len() ==> comp_count(r@[i]@) <= comp_count(r@[j]@),
{
    broadcast use vstd::seq_lib::group_to_multiset_ensures;

    let mut res: Vec<String> = Vec::new();
    let mut keys: Vec<usize> = Vec::new();
    let n = paths.len();
    let mut i: usize = 0;
    assert(paths@.take(0) =~= seq![]);
    while i < n
        invariant
            n == paths@.len(),
            i <= n,
            res@.len() == keys@.len(),
            forall|t: int| 0 <= t < keys@.len() ==> keys@[t] == comp_count(#[trigger] res@[t]@),
            forall|a: int, b: int| 0 <= a < b < keys@.len() ==> keys@[a] <= keys@[b],
            res@.to_multiset() == paths@.take(i as int).to_multiset(),
        decreases n - i,
    {
        let key = path_components(paths[i].as_str()).len();
        let mut j: usize = 0;
        while j < keys.len() && keys[j] <= key
            invariant
                res@.len() == keys@.len(),
                j <= keys@.len(),
                forall|t: int| 0 <= t < j ==> keys@[t] <= key,
            decreases keys@.len() - j,
        {
            j = j + 1;
        }
        let ghost old_res = res@;
        let ghost old_keys = keys@;
        let item = paths[i].clone();
        res.insert(j, item);
        keys.insert(j, key);
        proof {
            assert(res@ == old_res.insert(j as int, paths@[i as int]));
            vstd::seq_lib::to_multiset_insert(old_res, j as int, paths@[i as int]);
            assert(paths@.take(i + 1) =~= paths@.take(i as int).push(paths@[i as int]));
            vstd::seq_lib::to_multiset_build(paths@.take(i as int), paths@[i as int]);
            assert(res@.to_multiset() =~= paths@.take(i + 1).to_multiset());
            assert forall|t: int| 0 <= t < keys@.len() implies keys@[t] == comp_count(
                #[trigger] res@[t]@,
            ) by {
                if t < j {
                    assert(res@[t] == old_res[t]);
                } else if t > j {
                    assert(res@[t] == old_res[t - 1]);
                }
            }
            assert forall|a: int, b: int| 0 <= a < b < keys@.len() implies keys@[a] <= keys@[b] by {
                if j < old_keys.len() {
                    assert(old_keys[j as int] > key);
                }
                if a < j && b > j {
                    assert(keys@[b] == old_keys[b - 1]);
                }
            }
        }
        i = i + 1;
    }
    assert(paths@.take(n as int) =~= paths@);
    res
}

/// After its first place, a valid sequence holds only `..` and names.
proof fn lemma_valid_skip(cs: Seq<Comp>, k: int)
    requires
        valid_comps(cs),
        0 <= k <= cs.len(),
    ensures
        valid_comps(cs.skip(k)),
{
    assert forall|i: int| 0 <= i < cs.skip(k).len() implies #[trigger] comp_fits(cs.skip(k), i) by {
        assert(comp_fits(cs, i + k));
        assert(cs.skip(k)[i] == cs[i + k]);
    }
}

/// For an absolute path that `get_relative_path` strips, the components of
/// the base followed by those of the result are the components of the path.
pub proof fn law_relative_path_rejoins(path: Seq<char>, base: Seq<char>)
    ensures
        is_absolute(path) ==> (relative_path(path, base) matches Some(r) ==> components(base)
            + components(r) == components(path)),
{
    if is_absolute(path) && comps_prefix(components(base), components(path)) {
        let cs = components(path);
        let k = components(base).len() as int;
        lemma_components_valid(path);
        lemma_valid_skip(cs, k);
        lemma_components_render(cs.skip(k));
        assert(cs.take(k) + cs.skip(k) =~= cs);
    }
}

/// Every name left by `resolve_stack` on a valid sequence is a proper name.
proof fn lemma_resolve_stack_names(cs: Seq<Comp>)
    requires
        valid_comps(cs),
    ensures
        forall|i: int|
            0 <= i < resolve_stack(cs).len() ==> normal_name(#[trigger] resolve_stack(cs)[i]),
    decreases cs.len(),
{
    if cs.len() > 0 {
        let prev = cs.drop_last();
        assert(valid_comps(prev)) by {
            assert forall|i: int| 0 <= i < prev.len() implies #[trigger] comp_fits(prev, i) by {
                assert(comp_fits(cs, i));
            }
        }
        lemma_resolve_stack_names(prev);
        assert(comp_fits(cs, cs.len() - 1));
        let st = resolve_stack(prev);
        if cs.last() is ParentDir && st.len() > 0 {
            assert forall|i: int| 0 <= i < st.drop_last().len() implies normal_name(
                #[trigger] st.drop_last()[i],
            ) by {
                assert(st.drop_last()[i] == st[i]);
            }
        }
        if cs.last() is Normal {
            let st2 = st.push(cs.last()->Normal_0);
            assert forall|i: int| 0 <= i < st2.len() implies normal_name(#[trigger] st2[i]) by {
                if i < st.len() {
                    assert(st2[i] == st[i]);
                }
            }
        }
    }
}

/// A leading `.` rendered before names: `.` alone, else `./` and the names.
proof fn lemma_render_curdir(names: Seq<Seq<char>>)
    ensures
        names.len() == 0 ==> render(seq![Comp::CurDir] + normals(names)) == seq!['.'],
        names.len() > 0 ==> render(seq![Comp::CurDir] + normals(names)) == seq!['.', '/']
            + render(normals(names)),
    decreases names.len(),
{
    let cs = seq![Comp::CurDir] + normals(names);
    if names.len() == 0 {
        assert(cs =~= seq![Comp::CurDir]);
    } else {
        let prev = names.drop_last();
        lemma_render_curdir(prev);
        assert(cs.drop_last() =~= seq![Comp::CurDir] + normals(prev));
        assert(cs.drop_last() != seq![Comp::RootDir]) by {
            assert(cs.drop_last()[0] == Comp::CurDir);
        }
        assert(normals(names).drop_last() =~= normals(prev));
        if prev.len() == 0 {
            assert(normals(names) =~= seq![Comp::Normal(names[0])]);
            assert(render(cs) =~= seq!['.', '/'] + render(normals(names)));
        } else {
            assert(normals(names).drop_last() != seq![Comp::RootDir]) by {
                assert(normals(names).drop_last()[0] == Comp::Normal(prev[0]));
            }
            assert(render(cs) =~= seq!['.', '/'] + render(normals(names)));
        }
    }
}

/// The root rendered before names: `/` and the names.
proof fn lemma_render_root(names: Seq<Seq<char>>)
    ensures
        render(seq![Comp::RootDir] + normals(names)) == seq!['/'] + render(normals(names)),
    decreases names.len(),
{
    let cs = seq![Comp::RootDir] + normals(names);
    if names.len() == 0 {
        assert(cs =~= seq![Comp::RootDir]);
        assert(normals(names) =~= Seq::<Comp>::empty());
        assert(seq!['/'] + render(normals(names)) =~= seq!['/']);
    } else {
        let prev = names.drop_last();
        lemma_render_root(prev);
        assert(cs.drop_last() =~= seq![Comp::RootDir] + normals(prev));
        assert(normals(names).drop_last() =~= normals(prev));
        assert(cs.last() == Comp::Normal(names.last()));
        if prev.len() == 0 {
            assert(normals(prev) =~= Seq::<Comp>::empty());
            assert(cs.drop_last() =~= seq![Comp::RootDir]);
            assert(normals(names) =~= seq![Comp::Normal(names[0])]);
            assert(render(cs) =~= seq!['/'] + render(normals(names)));
        } else {
            assert(cs.drop_last() != seq![Comp::RootDir]) by {
                assert(cs.drop_last().len() >= 2);
            }
            assert(normals(names).drop_last() != seq![Comp::RootDir]) by {
                assert(normals(names).drop_last()[0] == Comp::Normal(prev[0]));
            }
            assert(render(cs) =~= seq!['/'] + render(normals(names)));
        }
    }
}

/// The components of what `resolve_path` gives: the root for an absolute
/// path, a leading `.` for a relative one, and then only names, no `..`.
pub proof fn law_resolved_components(path: Seq<char>)
    ensures
        components(resolved(path)) == (if is_absolute(path) {
            seq![Comp::RootDir]
        } else {
            seq![Comp::CurDir]
        }) + normals(resolve_stack(components(path))),
{
    let names = resolve_stack(components(path));
    lemma_components_valid(path);
    lemma_resolve_stack_names(components(path));
    if is_absolute(path) {
        let cs = seq![Comp::RootDir] + normals(names);
        lemma_render_root(names);
        assert(valid_comps(cs)) by {
            assert forall|i: int| 0 <= i < cs.len() implies #[trigger] comp_fits(cs, i) by {
                if i > 0 {
                    assert(cs[i] == Comp::Normal(names[i - 1]));
                }
            }
        }
        lemma_components_render(cs);
    } else {
        lemma_resolved_relative_components(path);
    }
}

/// `law_resolved_components` for a relative path.
proof fn lemma_resolved_relative_components(path: Seq<char>)
    requires
        !is_absolute(path),
    ensures
        components(resolved(path)) == seq![Comp::CurDir] + normals(
            resolve_stack(components(path)),
        ),
{
    let names = resolve_stack(components(path));
    lemma_components_valid(path);
    lemma_resolve_stack_names(components(path));
    lemma_render_curdir(names);
    if names.len() == 0 {
        assert(normals(names) =~= seq![]);
        assert(render(normals(names)) =~= seq![]);
        assert(resolved(path) =~= seq!['.'] + seq!['/'] + seq![]);
        lemma_components_no_slash(seq!['.']);
        lemma_components_append(seq!['.'], seq![]);
        assert(emit(seq!['.'], true) =~= seq![Comp::CurDir]);
        assert(components(resolved(path)) =~= seq![Comp::CurDir] + normals(names));
    } else {
        let cs = seq![Comp::CurDir] + normals(names);
        assert(valid_comps(cs)) by {
            assert forall|i: int| 0 <= i < cs.len() implies #[trigger] comp_fits(cs, i) by {
                if i > 0 {
                    assert(cs[i] == Comp::Normal(names[i - 1]));
                }
            }
        }
        lemma_components_render(cs);
    }
}

/// Reading `.` or the root followed by names with a stack leaves exactly
/// those names.
proof fn lemma_resolve_curdir_names(first: Comp, names: Seq<Seq<char>>)
    requires
        first == Comp::CurDir || first == Comp::RootDir,
    ensures
        resolve_stack(seq![first] + normals(names)) == names,
    decreases names.len(),
{
    let cs = seq![first] + normals(names);
    if names.len() == 0 {
        assert(cs.drop_last() =~= seq![]);
        assert(cs.last() == first);
        assert(resolve_stack(cs.drop_last()) =~= seq![]);
        assert(resolve_stack(cs) =~= seq![]);
        assert(names =~= seq![]);
    } else {
        lemma_resolve_curdir_names(first, names.drop_last());
        assert(cs.drop_last() =~= seq![first] + normals(names.drop_last()));
        assert(cs.last() == Comp::Normal(names.last()));
        assert(resolve_stack(cs) == resolve_stack(cs.drop_last()).push(names.last()));
        assert(names.drop_last().push(names.last()) =~= names);
    }
}

/// Resolving a resolved path changes nothing.
pub proof fn law_resolve_idempotent(path: Seq<char>)
    ensures
        resolved(resolved(path)) == resolved(path),
{
    law_resolved_components(path);
    let names = resolve_stack(components(path));
    let r = resolved(path);
    if is_absolute(path) {
        assert(r[0] == '/');
        lemma_resolve_curdir_names(Comp::RootDir, names);
    } else {
        assert(r[0] == '.');
        lemma_resolve_curdir_names(Comp::CurDir, names);
    }
}

/// The stack after one more name holds that name on top; after `..` the
/// top name, if any, is gone.
proof fn lemma_resolve_stack_name_parent(cs: Seq<Comp>, n: Seq<char>)
    ensures
        resolve_stack(cs.push(Comp::Normal(n))) == resolve_stack(cs).push(n),
        resolve_stack(cs.push(Comp::Normal(n)).push(Comp::ParentDir)) == resolve_stack(cs),
{
    let c1 = cs.push(Comp::Normal(n));
    let c2 = c1.push(Comp::ParentDir);
    assert(c1.drop_last() =~= cs);
    assert(c2.drop_last() =~= c1);
    assert(resolve_stack(cs).push(n).drop_last() =~= resolve_stack(cs));
}

/// Every `..` takes back the name just before it: resolving `p/n/..` gives
/// what resolving `p` gives, for any non-empty path `p` and proper name `n`,
/// however many names `p` holds.
pub proof fn law_resolve_parent_cancels_name(p: Seq<char>, n: Seq<char>)
    requires
        p.len() > 0,
        normal_name(n),
    ensures
        resolved(p + seq!['/'] + n + seq!['/', '.', '.']) == resolved(p),
{
    let q = p + seq!['/'] + n;
    let dots = seq!['.', '.'];
    lemma_components_append(p, n);
    assert(emit(n, false) == seq![Comp::Normal(n)]);
    lemma_components_append(q, dots);
    assert(emit(dots, false) == seq![Comp::ParentDir]);
    let full = p + seq!['/'] + n + seq!['/', '.', '.'];
    assert(full =~= q + seq!['/'] + dots);
    let cs = components(p);
    assert(components(full) =~= cs.push(Comp::Normal(n)).push(Comp::ParentDir));
    lemma_resolve_stack_name_parent(cs, n);
    assert(full[0] == p[0]);
}

/// A `..` with no name left to take back changes nothing: when resolving
/// the non-empty path `p` leaves no names, resolving `p/..` gives the same
/// (for an absolute path, `..` at the root stays at the root).
pub proof fn law_resolve_parent_at_top(p: Seq<char>)
    requires
        p.len() > 0,
        resolve_stack(components(p)).len() == 0,
    ensures
        resolved(p + seq!['/', '.', '.']) == resolved(p),
{
    let dots = seq!['.', '.'];
    lemma_components_append(p, dots);
    assert(emit(dots, false) == seq![Comp::ParentDir]);
    assert(p + seq!['/', '.', '.'] =~= p + seq!['/'] + dots);
    let cs = components(p);
    assert(components(p + seq!['/', '.', '.']) =~= cs.push(Comp::ParentDir));
    assert(cs.push(Comp::ParentDir).drop_last() =~= cs);
    assert((p + seq!['/', '.', '.'])[0] == p[0]);
}

/// A `.` after a non-empty path changes nothing: resolving `p/.` gives what
/// resolving `p` gives.
pub proof fn law_resolve_curdir_ignored(p: Seq<char>)
    requires
        p.len() > 0,
    ensures
        resolved(p + seq!['/', '.']) == resolved(p),
{
    lemma_components_append(p, seq!['.']);
    assert(emit(seq!['.'], false) =~= Seq::<Comp>::empty());
    assert(p + seq!['/', '.'] =~= p + seq!['/'] + seq!['.']);
    assert(components(p + seq!['/', '.']) =~= components(p));
    assert((p + seq!['/', '.'])[0] == p[0]);
}

/// Rendering one more name: the name alone after nothing, else after `/`.
proof fn lemma_render_names_push(names: Seq<Seq<char>>, n: Seq<char>)
    ensures
        render(normals(names.push(n))) == if names.len() == 0 {
            n
        } else {
            render(normals(names)) + seq!['/'] + n
        },
{
    let cs = normals(names.push(n));
    assert(cs =~= normals(names).push(Comp::Normal(n)));
    assert(cs.drop_last() =~= normals(names));
    if names.len() > 0 {
        assert(cs.drop_last() != seq![Comp::RootDir]) by {
            assert(cs.drop_last()[0] == Comp::Normal(names[0]));
        }
    }
}

/// Rendered names end with the last name.
proof fn lemma_render_names_last(names: Seq<Seq<char>>)
    requires
        names.len() > 0,
    ensures
        render(normals(names)) == render(normals(names.drop_last())) + (if names.len() == 1 {
            Seq::<char>::empty()
        } else {
            seq!['/']
        }) + names.last(),
{
    lemma_render_names_push(names.drop_last(), names.last());
    assert(names.drop_last().push(names.last()) =~= names);
    if names.len() == 1 {
        assert(normals(names.drop_last()) =~= Seq::<Comp>::empty());
        assert(render(normals(names.drop_last())) =~= Seq::<char>::empty());
        assert(Seq::<char>::empty() + Seq::<char>::empty() + names.last() =~= names.last());
    }
}

/// A name after a non-empty path is pushed onto the resolved path:
/// resolving `p/n` gives the resolved `p` with `n` pushed onto it.
pub proof fn law_resolve_name_appends(p: Seq<char>, n: Seq<char>)
    requires
        p.len() > 0,
        normal_name(n),
    ensures
        resolved(p + seq!['/'] + n) == join(resolved(p), n),
{
    let cs = components(p);
    let names = resolve_stack(cs);
    lemma_components_append(p, n);
    assert(emit(n, false) == seq![Comp::Normal(n)]);
    assert(components(p + seq!['/'] + n) =~= cs.push(Comp::Normal(n)));
    lemma_resolve_stack_name_parent(cs, n);
    lemma_render_names_push(names, n);
    assert((p + seq!['/'] + n)[0] == p[0]);
    let pre = if is_absolute(p) {
        seq!['/']
    } else {
        seq!['.', '/']
    };
    let r = resolved(p);
    assert(n[0] != '/');
    if names.len() == 0 {
        assert(render(normals(names)) =~= Seq::<char>::empty());
        assert(r =~= pre);
        assert(r.last() == '/');
        assert(resolved(p + seq!['/'] + n) =~= r + n);
    } else {
        lemma_components_valid(p);
        lemma_resolve_stack_names(cs);
        assert(normal_name(names[names.len() - 1]));
        let last = names.last();
        lemma_render_names_last(names);
        assert(r.last() == last.last());
        assert(last.last() != '/') by {
            assert(last[last.len() - 1] != '/');
        }
        assert(resolved(p + seq!['/'] + n) =~= r + seq!['/'] + n);
    }
}

/// Pushing a single name onto a non-empty path adds its component.
pub proof fn law_join_name(base: Seq<char>, name: Seq<char>)
    requires
        base.len() > 0,
        no_slash(name),
    ensures
        components(join(base, name)) == components(base) + emit(name, false),
{
    if name.len() > 0 {
        assert(name[0] != '/');
    }
    if base.last() != '/' {
        lemma_components_append(base, name);
    } else {
        let prev = base.drop_last();
        assert(prev + seq!['/'] =~= base);
        if prev.len() == 0 {
            assert(base =~= seq!['/']);
            lemma_scan_concat(scan_start(), base, name);
            assert(base.drop_last() =~= seq![]);
            assert(scan_from(scan_start(), base.drop_last()) == scan_start());
            assert(emit(Seq::<char>::empty(), true) =~= Seq::<Comp>::empty());
            assert(scan_from(scan_start(), base) == (
                Seq::<Comp>::empty(),
                Seq::<char>::empty(),
                false,
            ));
            lemma_scan_no_slash((Seq::<Comp>::empty(), Seq::<char>::empty(), false), name);
            assert(seq![] + name =~= name);
            assert((base + name)[0] == '/');
            assert(components(base + name) =~= components(base) + emit(name, false));
        } else {
            lemma_components_append(prev, name);
            lemma_components_append(prev, seq![]);
            assert(prev + seq!['/'] + seq![] =~= base);
            assert(emit(seq![], false) =~= seq![]);
            assert(components(base) =~= components(prev));
            assert(join(base, name) =~= prev + seq!['/'] + name);
        }
    }
}

/// `cs` without a leading `CurDir`.
pub open spec fn drop_cur_dir(cs: Seq<Comp>) -> Seq<Comp> {
    if cs.len() > 0 && cs[0] == Comp::CurDir {
        cs.drop_first()
    } else {
        cs
    }
}

/// A later segment never yields `CurDir`.
proof fn lemma_emit_later(seg: Seq<char>)
    ensures
        emit(seg, false).len() > 0 ==> emit(seg, false)[0] != Comp::CurDir,
        drop_cur_dir(emit(seg, true)) == emit(seg, false),
{
    if seg == seq!['.'] {
        assert(drop_cur_dir(seq![Comp::CurDir]) =~= seq![]);
    }
}

/// Dropping a leading `CurDir` before components of a later segment.
proof fn lemma_drop_cur_dir_append(p: Seq<Comp>, seg: Seq<char>)
    ensures
        drop_cur_dir(p + emit(seg, false)) == drop_cur_dir(p) + emit(seg, false),
{
    lemma_emit_later(seg);
    let e = emit(seg, false);
    if p.len() > 0 {
        assert((p + e)[0] == p[0]);
        if p[0] == Comp::CurDir {
            assert((p + e).drop_first() =~= p.drop_first() + e);
        }
    } else {
        assert(p + e =~= e);
        assert(drop_cur_dir(p) =~= seq![]);
        assert(seq![] + e =~= e);
    }
}

/// Reading text after a `/` differs from reading it alone only in a leading
/// `CurDir`, which a later segment never yields.
proof fn lemma_scan_after_slash(y: Seq<Comp>, b: Seq<char>)
    ensures
        scan_from((y, Seq::<char>::empty(), false), b).1 == scan_from(scan_start(), b).1,
        !scan_from((y, Seq::<char>::empty(), false), b).2,
        scan_from((y, Seq::<char>::empty(), false), b).0 == y + drop_cur_dir(
            scan_from(scan_start(), b).0,
        ),
        scan_from(scan_start(), b).2 ==> scan_from(scan_start(), b).0.len() == 0,
    decreases b.len(),
{
    let st0 = (y, Seq::<char>::empty(), false);
    if b.len() == 0 {
        assert(drop_cur_dir(Seq::<Comp>::empty()) =~= Seq::<Comp>::empty());
        assert(y + Seq::<Comp>::empty() =~= y);
    } else {
        lemma_scan_after_slash(y, b.drop_last());
        let p1 = scan_from(st0, b.drop_last());
        let p2 = scan_from(scan_start(), b.drop_last());
        if b.last() == '/' {
            if p2.2 {
                assert(p2.0 =~= Seq::<Comp>::empty());
                lemma_emit_later(p2.1);
                assert(p2.0 + emit(p2.1, true) =~= emit(p2.1, true));
                assert(drop_cur_dir(Seq::<Comp>::empty()) =~= Seq::<Comp>::empty());
                assert(p1.0 + emit(p1.1, p1.2) =~= y + drop_cur_dir(p2.0 + emit(p2.1, p2.2)));
            } else {
                lemma_drop_cur_dir_append(p2.0, p2.1);
                assert(p1.0 + emit(p1.1, p1.2) =~= y + drop_cur_dir(p2.0 + emit(p2.1, p2.2)));
            }
        }
    }
}

/// `PathBuf::push` of a relative path onto a non-empty path: the components
/// of the result are those of the base followed by those of the pushed path
/// without its leading `.`; pushing an absolute path gives its components.
pub proof fn law_join_components(base: Seq<char>, p: Seq<char>)
    requires
        base.len() > 0,
    ensures
        is_absolute(p) ==> components(join(base, p)) == components(p),
        !is_absolute(p) ==> components(join(base, p)) == components(base) + drop_cur_dir(
            components(p),
        ),
{
    if !is_absolute(p) {
        let a2 = if base.last() != '/' {
            base + seq!['/']
        } else {
            base
        };
        assert(join(base, p) =~= a2 + p);
        assert(a2.len() > 0 && a2.last() == '/');
        assert(components(a2) == components(base)) by {
            if base.last() != '/' {
                lemma_components_append(base, seq![]);
                assert(base + seq!['/'] + seq![] =~= a2);
                assert(emit(Seq::<char>::empty(), false) =~= Seq::<Comp>::empty());
                assert(components(base) + emit(Seq::<char>::empty(), false) =~= components(base));
            }
        }
        let sa = scan_from(scan_start(), a2);
        let prev = scan_from(scan_start(), a2.drop_last());
        assert(sa == (prev.0 + emit(prev.1, prev.2), Seq::<char>::empty(), false));
        lemma_scan_concat(scan_start(), a2, p);
        lemma_scan_after_slash(sa.0, p);
        let sb = scan_from(scan_start(), p);
        let sj = scan_from(sa, p);
        assert((a2 + p)[0] == a2[0]);
        assert(root_prefix(a2 + p) == root_prefix(a2));
        assert(emit(Seq::<char>::empty(), false) =~= Seq::<Comp>::empty());
        assert(components(a2) =~= root_prefix(a2) + sa.0);
        assert(root_prefix(p) =~= Seq::<Comp>::empty()) by {
            if p.len() > 0 {
                assert(p[0] != '/');
            }
        }
        lemma_emit_later(sb.1);
        if sb.2 {
            assert(sb.0 =~= Seq::<Comp>::empty());
            assert(components(p) =~= emit(sb.1, true));
            assert(drop_cur_dir(Seq::<Comp>::empty()) =~= Seq::<Comp>::empty());
            assert(components(join(base, p)) =~= components(base) + drop_cur_dir(components(p)));
        } else {
            assert(components(p) =~= sb.0 + emit(sb.1, false));
            lemma_drop_cur_dir_append(sb.0, sb.1);
            assert(components(join(base, p)) =~= components(base) + drop_cur_dir(components(p)));
        }
    }
}

/// For an absolute path that `get_relative_path` strips against a non-empty
/// base, pushing the result back onto the base gives the same path (equal
/// components).
pub proof fn law_relative_path_join_back(path: Seq<char>, base: Seq<char>)
    requires
        is_absolute(path),
        base.len() > 0,
    ensures
        relative_path(path, base) matches Some(r) ==> components(join(base, r)) == components(
            path,
        ),
{
    if comps_prefix(components(base), components(path)) {
        let cs = components(path);
        let k = components(base).len() as int;
        let r = render(cs.skip(k));
        law_relative_path_rejoins(path, base);
        lemma_components_valid(path);
        lemma_valid_skip(cs, k);
        lemma_components_render(cs.skip(k));
        law_join_components(base, r);
        assert(cs.take(k) + cs.skip(k) =~= cs);
        if k == 0 {
            assert(cs.skip(0) =~= cs);
            assert(cs.len() > 0 && cs[0] == Comp::RootDir) by {
                assert(root_prefix(path) == seq![Comp::RootDir]);
                assert(cs[0] == (root_prefix(path) + scan_from(scan_start(), path).0 + emit(
                    scan_from(scan_start(), path).1,
                    scan_from(scan_start(), path).2,
                ))[0]);
            }
            assert(is_absolute(r));
        } else {
            if cs.skip(k).len() > 0 {
                assert(comp_fits(cs, k));
                assert(cs.skip(k)[0] == cs[k]);
                assert(!is_absolute(r));
                assert(drop_cur_dir(cs.skip(k)) == cs.skip(k));
            } else {
                assert(r =~= Seq::<char>::empty());
                assert(drop_cur_dir(cs.skip(k)) == cs.skip(k));
            }
        }
    }
}

/// What `get_relative_path` answers: a relative path comes back as it is;
/// an absolute path gets a result exactly when the base's components start
/// its components, and then the base's components followed by the result's
/// are the path's.
pub proof fn law_relative_path_cases(path: Seq<char>, base: Seq<char>)
    ensures
        !is_absolute(path) ==> relative_path(path, base) == Some(path),
        is_absolute(path) ==> (relative_path(path, base) is Some <==> comps_prefix(
            components(base),
            components(path),
        )),
        is_absolute(path) && comps_prefix(components(base), components(path)) ==> (relative_path(
            path,
            base,
        ) matches Some(r) && components(base) + components(r) == components(path)),
{
    law_relative_path_rejoins(path, base);
}

} // verus!
