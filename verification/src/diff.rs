//! Snapshots (path to content hash) and the changes between two of them.

use vstd::prelude::*;
use crate::path::{components, path_eq};

verus! {

broadcast use vstd::string::group_string_axioms;

/// How `{:?}` writes the path `path` (a `std::path::Path`), quotes included.
pub uninterp spec fn path_debug(path: Seq<char>) -> Seq<char>;

/// Printable ASCII other than `"`, `'` and `\`: the characters that `{:?}`
/// writes as they are.
pub open spec fn plain_text(s: Seq<char>) -> bool {
    forall|i: int|
        0 <= i < s.len() ==> 0x20 <= (#[trigger] s[i] as u32) <= 0x7e && s[i] != '"' && s[i]
            != '\\' && s[i] != '\''
}

/// Formats `std::path::Path::new(path)` with `{:?}`. Trusted: the result is
/// that text (named `path_debug`); by the documentation of `Debug` for paths
/// and `char::escape_debug`, a path of plain characters is written between
/// double quotes and otherwise unchanged.
#[verifier::external_body]
fn debug_path(path: &str) -> (r: String)
    ensures
        r@ == path_debug(path@),
        plain_text(path@) ==> r@ == seq!['"'] + path@ + seq!['"'],
{
    format!("{:?}", std::path::Path::new(path))
}

/// One entry of a snapshot: a path and the hash of its content.
pub type Entry = (Seq<char>, Seq<char>);

/// The values of snapshot entries.
pub open spec fn entries_view(v: Seq<(String, String)>) -> Seq<Entry> {
    v.map_values(|e: (String, String)| (e.0@, e.1@))
}

/// No two entries name the same path (paths are the same when their
/// components are).
pub open spec fn distinct_paths(es: Seq<Entry>) -> bool {
    forall|i: int, j: int|
        0 <= i < es.len() && 0 <= j < es.len() && i != j ==> components(#[trigger] es[i].0)
            != components(#[trigger] es[j].0)
}

/// Some entry names the path `key`.
pub open spec fn has_path(es: Seq<Entry>, key: Seq<char>) -> bool {
    exists|i: int| 0 <= i < es.len() && components(#[trigger] es[i].0) == components(key)
}

/// The position of an entry for the path `key`, when `has_path(es, key)`.
pub open spec fn path_index(es: Seq<Entry>, key: Seq<char>) -> int {
    choose|i: int| 0 <= i < es.len() && components(#[trigger] es[i].0) == components(key)
}

/// The hash stored for the path `key`, when `has_path(es, key)`.
pub open spec fn hash_of(es: Seq<Entry>, key: Seq<char>) -> Seq<char> {
    es[path_index(es, key)].1
}

/// The entries after storing `hash` for `path`: the entry of the same path
/// keeps its place and path text and gets the new hash; a new path is
/// appended.
pub open spec fn insert_entry(es: Seq<Entry>, path: Seq<char>, hash: Seq<char>) -> Seq<Entry> {
    if has_path(es, path) {
        es.update(path_index(es, path), (es[path_index(es, path)].0, hash))
    } else {
        es.push((path, hash))
    }
}

/// In entries with distinct paths, the entry for a path is the only one.
pub proof fn lemma_path_index_unique(es: Seq<Entry>, key: Seq<char>, i: int)
    requires
        distinct_paths(es),
        0 <= i < es.len(),
        components(es[i].0) == components(key),
    ensures
        path_index(es, key) == i,
{
    let c = path_index(es, key);
    if c != i {
        assert(components(es[c].0) != components(es[i].0));
    }
}

/// A map from paths to content hashes, each path at most once.
pub struct Snapshot {
    entries: Vec<(String, String)>,
}

impl View for Snapshot {
    type V = Seq<Entry>;

    closed spec fn view(&self) -> Seq<Entry> {
        entries_view(self.entries@)
    }
}

/// The position of the entry for `key`, if any.
fn find_path(es: &Vec<(String, String)>, key: &str) -> (r: Option<usize>)
    requires
        distinct_paths(entries_view(es@)),
    ensures
        r is None <==> !has_path(entries_view(es@), key@),
        r matches Some(k) ==> k < es@.len() && components(entries_view(es@)[k as int].0)
            == components(key@) && path_index(entries_view(es@), key@) == k,
{
    let ghost ev = entries_view(es@);
    let n = es.len();
    let mut i: usize = 0;
    while i < n
        invariant
            n == es@.len(),
            ev == entries_view(es@),
            distinct_paths(ev),
            i <= n,
            forall|j: int| 0 <= j < i ==> components(#[trigger] ev[j].0) != components(key@),
        decreases n - i,
    {
        if path_eq(es[i].0.as_str(), key) {
            proof {
                assert(components(ev[i as int].0) == components(key@));
                lemma_path_index_unique(ev, key@, i as int);
            }
            return Some(i);
        }
        i = i + 1;
    }
    None
}

impl Snapshot {
    #[verifier::type_invariant]
    spec fn paths_distinct(&self) -> bool {
        distinct_paths(entries_view(self.entries@))
    }

    /// An empty snapshot.
    pub fn new() -> (r: Self)
        ensures
            r@ == Seq::<Entry>::empty(),
            distinct_paths(r@),
    {
        let r = Snapshot { entries: Vec::new() };
        assert(entries_view(r.entries@) =~= seq![]);
        r
    }

    /// The hash stored for `path`, if any.
    pub fn get(&self, path: &str) -> (r: Option<String>)
        ensures
            distinct_paths(self@),
            r is Some <==> has_path(self@, path@),
            r matches Some(h) ==> h@ == hash_of(self@, path@),
    {
        proof {
            use_type_invariant(self);
        }
        match find_path(&self.entries, path) {
            Some(k) => Some(self.entries[k].1.clone()),
            None => None,
        }
    }

    /// The number of paths.
    pub fn len(&self) -> (n: usize)
        ensures
            n == self@.len(),
            distinct_paths(self@),
    {
        proof {
            use_type_invariant(self);
        }
        self.entries.len()
    }

    /// Stores `hash` for `path`, as `HashMap::insert` does: an entry for the
    /// same path keeps its position and its path text and gets the new hash,
    /// and the old hash is returned; otherwise the pair is appended.
    pub fn insert(&mut self, path: String, hash: String) -> (r: Option<String>)
        ensures
            r is Some <==> has_path(old(self)@, path@),
            r matches Some(h) ==> h@ == hash_of(old(self)@, path@),
            final(self)@ == insert_entry(old(self)@, path@, hash@),
            distinct_paths(final(self)@),
    {
        proof {
            use_type_invariant(&*self);
            law_insert_then_read(self@, path@, hash@, path@);
        }
        let mut es: Vec<(String, String)> = Vec::new();
        std::mem::swap(&mut es, &mut self.entries);
        let ghost ev = entries_view(es@);
        match find_path(&es, path.as_str()) {
            Some(k) => {
                let key = es[k].0.clone();
                let previous = es[k].1.clone();
                es.set(k, (key, hash));
                proof {
                    assert(entries_view(es@) =~= ev.update(k as int, (ev[k as int].0, hash@)));
                    assert(distinct_paths(entries_view(es@))) by {
                        assert forall|i: int, j: int|
                            0 <= i < entries_view(es@).len() && 0 <= j < entries_view(es@).len()
                                && i != j implies components(#[trigger] entries_view(es@)[i].0)
                            != components(#[trigger] entries_view(es@)[j].0) by {
                            assert(entries_view(es@)[i].0 == ev[i].0);
                            assert(entries_view(es@)[j].0 == ev[j].0);
                        }
                    }
                }
                self.entries = es;
                Some(previous)
            },
            None => {
                es.push((path, hash));
                proof {
                    assert(entries_view(es@) =~= ev.push((path@, hash@)));
                    assert(distinct_paths(entries_view(es@))) by {
                        assert forall|i: int, j: int|
                            0 <= i < entries_view(es@).len() && 0 <= j < entries_view(es@).len()
                                && i != j implies components(#[trigger] entries_view(es@)[i].0)
                            != components(#[trigger] entries_view(es@)[j].0) by {
                            if i < ev.len() && j < ev.len() {
                                assert(entries_view(es@)[i] == ev[i]);
                                assert(entries_view(es@)[j] == ev[j]);
                            } else if i < ev.len() {
                                assert(entries_view(es@)[i] == ev[i]);
                            } else {
                                assert(entries_view(es@)[j] == ev[j]);
                            }
                        }
                    }
                }
                self.entries = es;
                None
            },
        }
    }
}

/// The change that the new entry `e` makes against the old entries.
pub open spec fn new_entry_change(old_es: Seq<Entry>, e: Entry) -> Seq<Seq<char>> {
    if has_path(old_es, e.0) {
        if hash_of(old_es, e.0) == e.1 {
            seq![]
        } else {
            seq!["Modified: "@ + path_debug(e.0)]
        }
    } else {
        seq!["Added: "@ + path_debug(e.0)]
    }
}

/// The change that the old entry `e` makes against the new entries.
pub open spec fn old_entry_change(new_es: Seq<Entry>, e: Entry) -> Seq<Seq<char>> {
    if has_path(new_es, e.0) {
        seq![]
    } else {
        seq!["Deleted: "@ + path_debug(e.0)]
    }
}

/// The additions and modifications, in the order of the new entries.
pub open spec fn new_side(old_es: Seq<Entry>, new_es: Seq<Entry>) -> Seq<Seq<char>>
    decreases new_es.len(),
{
    if new_es.len() == 0 {
        seq![]
    } else {
        new_side(old_es, new_es.drop_last()) + new_entry_change(old_es, new_es.last())
    }
}

/// The deletions, in the order of the old entries.
pub open spec fn old_side(old_es: Seq<Entry>, new_es: Seq<Entry>) -> Seq<Seq<char>>
    decreases old_es.len(),
{
    if old_es.len() == 0 {
        seq![]
    } else {
        old_side(old_es.drop_last(), new_es) + old_entry_change(new_es, old_es.last())
    }
}

/// The changes from `old_es` to `new_es`: added and modified paths in the
/// order of the new snapshot, then deleted paths in the order of the old.
pub open spec fn snapshot_changes(old_es: Seq<Entry>, new_es: Seq<Entry>) -> Seq<Seq<char>> {
    new_side(old_es, new_es) + old_side(old_es, new_es)
}

/// `prefix` followed by `tail`.
fn concat_str(prefix: &str, tail: &str) -> (r: String)
    ensures
        r@ == prefix@ + tail@,
{
    let mut r = prefix.to_owned();
    r.append(tail);
    r
}

/// The changes from `old` to `new`: `Modified: "path"` for a path whose hash
/// differs, `Added: "path"` for a path only in `new`, `Deleted: "path"` for
/// a path only in `old`, each path written as `{:?}` writes it.
pub fn diff_snapshots(old: &Snapshot, new: &Snapshot) -> (r: Vec<String>)
    ensures
        crate::text::views(r@) == snapshot_changes(old@, new@),
        old@ == new@ ==> r.len() == 0,
{
    proof {
        use_type_invariant(old);
        use_type_invariant(new);
        if old@ == new@ {
            law_no_changes_against_itself(old@);
        }
    }
    let ghost ov = old@;
    let ghost nv = new@;
    let mut changes: Vec<String> = Vec::new();
    let n = new.entries.len();
    let mut i: usize = 0;
    assert(nv.take(0) =~= seq![]);
    while i < n
        invariant
            n == nv.len(),
            ov == old@,
            nv == new@,
            ov == entries_view(old.entries@),
            nv == entries_view(new.entries@),
            distinct_paths(ov),
            i <= n,
            crate::text::views(changes@) == new_side(ov, nv.take(i as int)),
        decreases n - i,
    {
        assert(nv.take(i + 1).drop_last() =~= nv.take(i as int));
        assert(nv.take(i + 1).last() == nv[i as int]);
        let ghost before = changes@;
        let path = new.entries[i].0.as_str();
        match find_path(&old.entries, path) {
            Some(k) => {
                if old.entries[k].1 != new.entries[i].1 {
                    let shown = debug_path(path);
                    changes.push(concat_str("Modified: ", shown.as_str()));
                }
            },
            None => {
                let shown = debug_path(path);
                changes.push(concat_str("Added: ", shown.as_str()));
            },
        }
        assert(crate::text::views(changes@) =~= crate::text::views(before) + new_entry_change(
            ov,
            nv[i as int],
        ));
        i = i + 1;
    }
    assert(nv.take(n as int) =~= nv);
    let m = old.entries.len();
    let mut j: usize = 0;
    let ghost first_part = changes@;
    assert(ov.take(0) =~= seq![]);
    assert(crate::text::views(changes@) =~= new_side(ov, nv) + old_side(ov.take(0), nv));
    while j < m
        invariant
            m == ov.len(),
            ov == entries_view(old.entries@),
            nv == entries_view(new.entries@),
            distinct_paths(nv),
            j <= m,
            crate::text::views(changes@) == new_side(ov, nv) + old_side(ov.take(j as int), nv),
        decreases m - j,
    {
        assert(ov.take(j + 1).drop_last() =~= ov.take(j as int));
        assert(ov.take(j + 1).last() == ov[j as int]);
        let ghost before = changes@;
        let path = old.entries[j].0.as_str();
        if find_path(&new.entries, path).is_none() {
            let shown = debug_path(path);
            changes.push(concat_str("Deleted: ", shown.as_str()));
        }
        assert(crate::text::views(changes@) =~= crate::text::views(before) + old_entry_change(
            nv,
            ov[j as int],
        ));
        j = j + 1;
    }
    assert(ov.take(m as int) =~= ov);
    changes
}

/// Both snapshots map the same paths to the same hashes.
pub open spec fn same_content(old_es: Seq<Entry>, new_es: Seq<Entry>) -> bool {
    &&& forall|i: int|
        0 <= i < new_es.len() ==> has_path(old_es, #[trigger] new_es[i].0) && hash_of(
            old_es,
            new_es[i].0,
        ) == new_es[i].1
    &&& forall|j: int| 0 <= j < old_es.len() ==> has_path(new_es, #[trigger] old_es[j].0)
}

/// The new side is empty exactly when no new entry makes a change.
proof fn lemma_new_side_empty(old_es: Seq<Entry>, new_es: Seq<Entry>)
    ensures
        new_side(old_es, new_es).len() == 0 <==> forall|i: int|
            0 <= i < new_es.len() ==> #[trigger] new_entry_change(old_es, new_es[i]).len() == 0,
    decreases new_es.len(),
{
    if new_es.len() > 0 {
        let prev = new_es.drop_last();
        lemma_new_side_empty(old_es, prev);
        if new_side(old_es, new_es).len() == 0 {
            assert forall|i: int| 0 <= i < new_es.len() implies #[trigger] new_entry_change(
                old_es,
                new_es[i],
            ).len() == 0 by {
                if i < prev.len() {
                    assert(new_es[i] == prev[i]);
                }
            }
        } else {
            if new_entry_change(old_es, new_es.last()).len() == 0 {
                let k = choose|k: int|
                    0 <= k < prev.len() && #[trigger] new_entry_change(old_es, prev[k]).len() != 0;
                assert(new_es[k] == prev[k]);
            }
        }
    }
}

/// The old side is empty exactly when no old entry makes a change.
proof fn lemma_old_side_empty(old_es: Seq<Entry>, new_es: Seq<Entry>)
    ensures
        old_side(old_es, new_es).len() == 0 <==> forall|j: int|
            0 <= j < old_es.len() ==> #[trigger] old_entry_change(new_es, old_es[j]).len() == 0,
    decreases old_es.len(),
{
    if old_es.len() > 0 {
        let prev = old_es.drop_last();
        lemma_old_side_empty(prev, new_es);
        if old_side(old_es, new_es).len() == 0 {
            assert forall|j: int| 0 <= j < old_es.len() implies #[trigger] old_entry_change(
                new_es,
                old_es[j],
            ).len() == 0 by {
                if j < prev.len() {
                    assert(old_es[j] == prev[j]);
                }
            }
        } else {
            if old_entry_change(new_es, old_es.last()).len() == 0 {
                let k = choose|k: int|
                    0 <= k < prev.len() && #[trigger] old_entry_change(new_es, prev[k]).len() != 0;
                assert(old_es[k] == prev[k]);
            }
        }
    }
}

/// No change is reported exactly when both snapshots map the same paths to
/// the same hashes.
#[verifier::rlimit(40)]
pub proof fn law_no_changes_iff_same_content(old_es: Seq<Entry>, new_es: Seq<Entry>)
    ensures
        snapshot_changes(old_es, new_es).len() == 0 <==> same_content(old_es, new_es),
{
    lemma_new_side_empty(old_es, new_es);
    lemma_old_side_empty(old_es, new_es);
    if same_content(old_es, new_es) {
        assert forall|i: int| 0 <= i < new_es.len() implies #[trigger] new_entry_change(
            old_es,
            new_es[i],
        ).len() == 0 by {
            assert(has_path(old_es, new_es[i].0));
        }
        assert forall|j: int| 0 <= j < old_es.len() implies #[trigger] old_entry_change(
            new_es,
            old_es[j],
        ).len() == 0 by {
            assert(has_path(new_es, old_es[j].0));
        }
    }
    if snapshot_changes(old_es, new_es).len() == 0 {
        assert forall|i: int| 0 <= i < new_es.len() implies has_path(
            old_es,
            #[trigger] new_es[i].0,
        ) && hash_of(old_es, new_es[i].0) == new_es[i].1 by {
            assert(new_entry_change(old_es, new_es[i]).len() == 0);
        }
        assert forall|j: int| 0 <= j < old_es.len() implies has_path(
            new_es,
            #[trigger] old_es[j].0,
        ) by {
            assert(old_entry_change(new_es, old_es[j]).len() == 0);
        }
    }
}

/// A snapshot compared with itself shows no change.
pub proof fn law_no_changes_against_itself(es: Seq<Entry>)
    requires
        distinct_paths(es),
    ensures
        snapshot_changes(es, es).len() == 0,
{
    assert forall|i: int| 0 <= i < es.len() implies has_path(es, #[trigger] es[i].0) && hash_of(
        es,
        es[i].0,
    ) == es[i].1 by {
        let c = choose|c: int| 0 <= c < es.len() && components(#[trigger] es[c].0) == components(
            es[i].0,
        );
        if c != i {
            assert(components(es[c].0) != components(es[i].0));
        }
    }
    assert forall|j: int| 0 <= j < es.len() implies has_path(es, #[trigger] es[j].0) by {
        assert(components(es[j].0) == components(es[j].0));
    }
    law_no_changes_iff_same_content(es, es);
}

/// Against an empty old snapshot every new path is reported added, in order.
pub proof fn law_all_added_from_empty(new_es: Seq<Entry>)
    ensures
        snapshot_changes(seq![], new_es).len() == new_es.len(),
        forall|i: int|
            0 <= i < new_es.len() ==> #[trigger] snapshot_changes(seq![], new_es)[i] == "Added: "@
                + path_debug(new_es[i].0),
    decreases new_es.len(),
{
    assert(old_side(seq![], new_es) =~= seq![]);
    if new_es.len() > 0 {
        law_all_added_from_empty(new_es.drop_last());
        assert(!has_path(seq![], new_es.last().0));
        assert(snapshot_changes(seq![], new_es) =~= snapshot_changes(seq![], new_es.drop_last())
            + seq!["Added: "@ + path_debug(new_es.last().0)]);
        assert forall|i: int| 0 <= i < new_es.len() implies #[trigger] snapshot_changes(
            seq![],
            new_es,
        )[i] == "Added: "@ + path_debug(new_es[i].0) by {
            if i < new_es.len() - 1 {
                assert(new_es[i] == new_es.drop_last()[i]);
                assert(snapshot_changes(seq![], new_es)[i] == snapshot_changes(
                    seq![],
                    new_es.drop_last(),
                )[i]);
            }
        }
    } else {
        assert(snapshot_changes(seq![], new_es) =~= seq![]);
    }
}

/// Storing a hash for a path and then reading that path gives the stored
/// hash; every other path keeps its presence and its hash; paths stay
/// distinct.
pub proof fn law_insert_then_read(es: Seq<Entry>, p: Seq<char>, h: Seq<char>, q: Seq<char>)
    requires
        distinct_paths(es),
    ensures
        distinct_paths(insert_entry(es, p, h)),
        has_path(insert_entry(es, p, h), p),
        hash_of(insert_entry(es, p, h), p) == h,
        components(q) != components(p) ==> has_path(insert_entry(es, p, h), q) == has_path(es, q),
        components(q) != components(p) && has_path(es, q) ==> hash_of(insert_entry(es, p, h), q)
            == hash_of(es, q),
{
    let es2 = insert_entry(es, p, h);
    if has_path(es, p) {
        let k = path_index(es, p);
        assert(forall|i: int| 0 <= i < es.len() ==> #[trigger] es2[i].0 == es[i].0);
        assert(distinct_paths(es2)) by {
            assert forall|i: int, j: int|
                0 <= i < es2.len() && 0 <= j < es2.len() && i != j implies components(
                #[trigger] es2[i].0,
            ) != components(#[trigger] es2[j].0) by {
                assert(es2[i].0 == es[i].0 && es2[j].0 == es[j].0);
            }
        }
        assert(components(es[k].0) == components(p));
        assert(components(es2[k].0) == components(p));
        lemma_path_index_unique(es2, p, k);
        if components(q) != components(p) {
            if has_path(es2, q) {
                let j = path_index(es2, q);
                assert(es2[j].0 == es[j].0);
            }
            if has_path(es, q) {
                let j = path_index(es, q);
                assert(es2[j].0 == es[j].0);
                lemma_path_index_unique(es2, q, j);
                assert(j != k);
            }
        }
    } else {
        assert(distinct_paths(es2)) by {
            assert forall|i: int, j: int|
                0 <= i < es2.len() && 0 <= j < es2.len() && i != j implies components(
                #[trigger] es2[i].0,
            ) != components(#[trigger] es2[j].0) by {
                if i < es.len() {
                    assert(es2[i] == es[i]);
                }
                if j < es.len() {
                    assert(es2[j] == es[j]);
                }
            }
        }
        let last = es.len() as int;
        assert(es2[last] == (p, h));
        assert(components(es2[last].0) == components(p));
        lemma_path_index_unique(es2, p, last);
        if components(q) != components(p) {
            if has_path(es2, q) {
                let j = path_index(es2, q);
                assert(j != last);
                assert(es2[j] == es[j]);
            }
            if has_path(es, q) {
                let j = path_index(es, q);
                assert(es2[j] == es[j]);
                lemma_path_index_unique(es2, q, j);
            }
        }
    }
}

/// The three kinds of change line are told apart by their first character,
/// and a kind's prefix followed by two texts is equal only for equal texts.
proof fn lemma_change_kinds(s: Seq<char>, t: Seq<char>)
    ensures
        "Added: "@ + s != "Modified: "@ + t,
        "Added: "@ + s != "Deleted: "@ + t,
        "Modified: "@ + s != "Deleted: "@ + t,
        "Added: "@ + s == "Added: "@ + t ==> s == t,
        "Modified: "@ + s == "Modified: "@ + t ==> s == t,
        "Deleted: "@ + s == "Deleted: "@ + t ==> s == t,
{
    reveal_strlit("Added: ");
    reveal_strlit("Modified: ");
    reveal_strlit("Deleted: ");
    assert(("Added: "@ + s)[0] == 'A');
    assert(("Added: "@ + t)[0] == 'A');
    assert(("Modified: "@ + s)[0] == 'M');
    assert(("Modified: "@ + t)[0] == 'M');
    assert(("Deleted: "@ + t)[0] == 'D');
    assert(("Added: "@ + s).skip(7) =~= s);
    assert(("Added: "@ + t).skip(7) =~= t);
    assert(("Modified: "@ + s).skip(10) =~= s);
    assert(("Modified: "@ + t).skip(10) =~= t);
    assert(("Deleted: "@ + s).skip(9) =~= s);
    assert(("Deleted: "@ + t).skip(9) =~= t);
}

/// A concatenation holds `x` exactly when one of its parts does.
proof fn lemma_concat_contains(s1: Seq<Seq<char>>, s2: Seq<Seq<char>>, x: Seq<char>)
    ensures
        (s1 + s2).contains(x) <==> s1.contains(x) || s2.contains(x),
{
    let s = s1 + s2;
    if s.contains(x) {
        let k = choose|k: int| 0 <= k < s.len() && s[k] == x;
        if k < s1.len() {
            assert(s1[k] == x);
        } else {
            assert(s2[k - s1.len()] == x);
        }
    }
    if s1.contains(x) {
        let k = choose|k: int| 0 <= k < s1.len() && s1[k] == x;
        assert(s[k] == x);
    }
    if s2.contains(x) {
        let k = choose|k: int| 0 <= k < s2.len() && s2[k] == x;
        assert(s[s1.len() + k] == x);
    }
}

/// The new side holds `x` exactly when some new entry's change does.
proof fn lemma_new_side_contains(old_es: Seq<Entry>, new_es: Seq<Entry>, x: Seq<char>)
    ensures
        new_side(old_es, new_es).contains(x) <==> exists|i: int|
            0 <= i < new_es.len() && #[trigger] new_entry_change(old_es, new_es[i]).contains(x),
    decreases new_es.len(),
{
    if new_es.len() > 0 {
        let prev = new_es.drop_last();
        let last = new_es.len() - 1;
        lemma_new_side_contains(old_es, prev, x);
        lemma_concat_contains(
            new_side(old_es, prev),
            new_entry_change(old_es, new_es.last()),
            x,
        );
        assert(new_es[last] == new_es.last());
        if new_side(old_es, prev).contains(x) {
            let i = choose|i: int|
                0 <= i < prev.len() && #[trigger] new_entry_change(old_es, prev[i]).contains(x);
            assert(new_es[i] == prev[i]);
        }
        if exists|i: int|
            0 <= i < new_es.len() && #[trigger] new_entry_change(old_es, new_es[i]).contains(x) {
            let i = choose|i: int|
                0 <= i < new_es.len() && #[trigger] new_entry_change(old_es, new_es[i]).contains(
                    x,
                );
            if i < last {
                assert(new_es[i] == prev[i]);
            }
        }
    }
}

/// The old side holds `x` exactly when some old entry's change does.
proof fn lemma_old_side_contains(old_es: Seq<Entry>, new_es: Seq<Entry>, x: Seq<char>)
    ensures
        old_side(old_es, new_es).contains(x) <==> exists|j: int|
            0 <= j < old_es.len() && #[trigger] old_entry_change(new_es, old_es[j]).contains(x),
    decreases old_es.len(),
{
    if old_es.len() > 0 {
        let prev = old_es.drop_last();
        let last = old_es.len() - 1;
        lemma_old_side_contains(prev, new_es, x);
        lemma_concat_contains(
            old_side(prev, new_es),
            old_entry_change(new_es, old_es.last()),
            x,
        );
        assert(old_es[last] == old_es.last());
        if old_side(prev, new_es).contains(x) {
            let j = choose|j: int|
                0 <= j < prev.len() && #[trigger] old_entry_change(new_es, prev[j]).contains(x);
            assert(old_es[j] == prev[j]);
        }
        if exists|j: int|
            0 <= j < old_es.len() && #[trigger] old_entry_change(new_es, old_es[j]).contains(x) {
            let j = choose|j: int|
                0 <= j < old_es.len() && #[trigger] old_entry_change(new_es, old_es[j]).contains(
                    x,
                );
            if j < last {
                assert(old_es[j] == prev[j]);
            }
        }
    }
}

/// A path reported added from `a` to `b` is reported deleted from `b` to
/// `a`, and the other way round.
pub proof fn law_added_mirrors_deleted(a: Seq<Entry>, b: Seq<Entry>, p: Seq<char>)
    ensures
        snapshot_changes(a, b).contains("Added: "@ + path_debug(p)) <==> snapshot_changes(
            b,
            a,
        ).contains("Deleted: "@ + path_debug(p)),
{
    let added = "Added: "@ + path_debug(p);
    let deleted = "Deleted: "@ + path_debug(p);
    lemma_concat_contains(new_side(a, b), old_side(a, b), added);
    lemma_concat_contains(new_side(b, a), old_side(b, a), deleted);
    lemma_new_side_contains(a, b, added);
    lemma_old_side_contains(a, b, added);
    lemma_new_side_contains(b, a, deleted);
    lemma_old_side_contains(b, a, deleted);
    assert forall|j: int| 0 <= j < a.len() implies !#[trigger] old_entry_change(b, a[j]).contains(
        added,
    ) by {
        lemma_change_kinds(path_debug(p), path_debug(a[j].0));
        if old_entry_change(b, a[j]).contains(added) {
            assert(old_entry_change(b, a[j])[0] == added);
        }
    }
    assert forall|i: int| 0 <= i < a.len() implies !#[trigger] new_entry_change(b, a[i]).contains(
        deleted,
    ) by {
        lemma_change_kinds(path_debug(a[i].0), path_debug(p));
        if new_entry_change(b, a[i]).contains(deleted) {
            assert(new_entry_change(b, a[i])[0] == deleted);
        }
    }
    if snapshot_changes(a, b).contains(added) {
        let i = choose|i: int| 0 <= i < b.len() && #[trigger] new_entry_change(a, b[i]).contains(
            added,
        );
        lemma_change_kinds(path_debug(p), path_debug(b[i].0));
        assert(new_entry_change(a, b[i])[0] == added);
        assert(path_debug(b[i].0) == path_debug(p));
        assert(old_entry_change(a, b[i])[0] == deleted);
        assert(old_entry_change(a, b[i]).contains(deleted));
    }
    if snapshot_changes(b, a).contains(deleted) {
        let j = choose|j: int| 0 <= j < b.len() && #[trigger] old_entry_change(a, b[j]).contains(
            deleted,
        );
        lemma_change_kinds(path_debug(b[j].0), path_debug(p));
        assert(old_entry_change(a, b[j])[0] == deleted);
        assert(path_debug(b[j].0) == path_debug(p));
        assert(new_entry_change(a, b[j])[0] == added);
        assert(new_entry_change(a, b[j]).contains(added));
    }
}

/// Entries of `a` and `b` that name the same path with different hashes
/// spell the path the same way.
pub open spec fn changed_paths_spelled_alike(a: Seq<Entry>, b: Seq<Entry>) -> bool {
    forall|i: int, j: int|
        0 <= i < a.len() && 0 <= j < b.len() && components(#[trigger] a[i].0) == components(
            #[trigger] b[j].0,
        ) && a[i].1 != b[j].1 ==> a[i].0 == b[j].0
}

/// One direction of `law_modified_symmetric`.
proof fn lemma_modified_one_way(a: Seq<Entry>, b: Seq<Entry>, p: Seq<char>)
    requires
        distinct_paths(b),
        changed_paths_spelled_alike(a, b),
    ensures
        snapshot_changes(a, b).contains("Modified: "@ + path_debug(p)) ==> snapshot_changes(
            b,
            a,
        ).contains("Modified: "@ + path_debug(p)),
{
    let m = "Modified: "@ + path_debug(p);
    lemma_concat_contains(new_side(a, b), old_side(a, b), m);
    lemma_concat_contains(new_side(b, a), old_side(b, a), m);
    lemma_new_side_contains(a, b, m);
    lemma_old_side_contains(a, b, m);
    lemma_new_side_contains(b, a, m);
    if snapshot_changes(a, b).contains(m) {
        if old_side(a, b).contains(m) {
            let j = choose|j: int|
                0 <= j < a.len() && #[trigger] old_entry_change(b, a[j]).contains(m);
            lemma_change_kinds(path_debug(p), path_debug(a[j].0));
            assert(old_entry_change(b, a[j])[0] == m);
        }
        let i = choose|i: int| 0 <= i < b.len() && #[trigger] new_entry_change(a, b[i]).contains(
            m,
        );
        lemma_change_kinds(path_debug(b[i].0), path_debug(p));
        assert(new_entry_change(a, b[i])[0] == m);
        assert(has_path(a, b[i].0));
        assert(hash_of(a, b[i].0) != b[i].1);
        assert(path_debug(b[i].0) == path_debug(p));
        let k = path_index(a, b[i].0);
        assert(components(a[k].0) == components(b[i].0));
        assert(a[k].0 == b[i].0);
        assert(has_path(b, a[k].0));
        lemma_path_index_unique(b, a[k].0, i);
        assert(hash_of(b, a[k].0) == b[i].1);
        assert(new_entry_change(b, a[k]) == seq![m]);
        assert(new_entry_change(b, a[k])[0] == m);
        assert(new_entry_change(b, a[k]).contains(m));
    }
}

/// For snapshots that spell each shared path whose hash differs the same
/// way, a path is reported modified from `a` to `b` exactly when it is from
/// `b` to `a`.
pub proof fn law_modified_symmetric(a: Seq<Entry>, b: Seq<Entry>, p: Seq<char>)
    requires
        distinct_paths(a),
        distinct_paths(b),
        changed_paths_spelled_alike(a, b),
    ensures
        snapshot_changes(a, b).contains("Modified: "@ + path_debug(p)) <==> snapshot_changes(
            b,
            a,
        ).contains("Modified: "@ + path_debug(p)),
{
    assert(changed_paths_spelled_alike(b, a)) by {
        assert forall|i: int, j: int|
            0 <= i < b.len() && 0 <= j < a.len() && components(#[trigger] b[i].0) == components(
                #[trigger] a[j].0,
            ) && b[i].1 != a[j].1 implies b[i].0 == a[j].0 by {
            assert(components(a[j].0) == components(b[i].0));
        }
    }
    lemma_modified_one_way(a, b, p);
    lemma_modified_one_way(b, a, p);
}

} // verus!
