//! The object store's files: where a blob goes, the text of a line file,
//! and content hashes.

use vstd::prelude::*;
use crate::hash_pointer::{HashPointer, content_hash};
use crate::path::{join, join_path, components, Comp, emit, law_join_name, no_slash};
use crate::text::{hex_lower, line_scan, lines, strip_cr};
use crate::text::views;

verus! {

broadcast use vstd::string::group_string_axioms;

/// The lowercase hex SHA-256 of `data`.
pub fn sha256_hex(data: &[u8]) -> (r: String)
    ensures
        r@ == content_hash(data@),
{
    let p = HashPointer::from_content_bytes(data);
    let mut r = p.fold_name;
    r.append(p.file_name.as_str());
    r
}

/// Where a blob is stored: its hash, the folder named by the first two
/// characters of the hash inside the blob folder, and the file named by the
/// rest inside that folder.
#[derive(Debug)]
pub struct BlobPlan {
    pub hash: String,
    pub subdir: String,
    pub blob_path: String,
}

/// Where the content `data` is stored under `blob_dir`: the hash is the
/// lowercase hex SHA-256 of `data`.
pub fn create_blob(data: &[u8], blob_dir: &str) -> (r: BlobPlan)
    ensures
        r.hash@ == content_hash(data@),
        r.hash@.len() == 64,
        r.subdir@ == join(blob_dir@, content_hash(data@).take(2)),
        r.blob_path@ == join(r.subdir@, content_hash(data@).skip(2)),
{
    let p = HashPointer::from_content_bytes(data);
    let subdir = join_path(blob_dir, p.fold_name.as_str());
    let blob_path = join_path(subdir.as_str(), p.file_name.as_str());
    let mut hash = p.fold_name;
    hash.append(p.file_name.as_str());
    BlobPlan { hash, subdir, blob_path }
}

/// The concatenation of the given lines, each followed by a line break.
pub open spec fn lines_with_breaks(ls: Seq<Seq<char>>) -> Seq<char>
    decreases ls.len(),
{
    if ls.len() == 0 {
        seq![]
    } else {
        lines_with_breaks(ls.drop_last()) + ls.last() + seq!['\n']
    }
}

/// The text that writing `content` line by line produces: each line and a
/// line break.
pub fn lines_text(content: &Vec<String>) -> (r: String)
    ensures
        r@ == lines_with_breaks(views(content@)),
{
    let mut r = String::new();
    let n = content.len();
    let mut i: usize = 0;
    let ghost all = views(content@);
    assert(all.take(0) =~= seq![]);
    while i < n
        invariant
            n == content@.len(),
            all == views(content@),
            i <= n,
            r@ == lines_with_breaks(all.take(i as int)),
        decreases n - i,
    {
        assert(all.take(i + 1).drop_last() =~= all.take(i as int));
        assert(all.take(i + 1).last() == content@[i as int]@);
        r.append(content[i].as_str());
        r.append("\n");
        proof {
            reveal_strlit("\n");
        }
        i = i + 1;
    }
    assert(all.take(n as int) =~= all);
    r
}

/// A blob of a 32-byte digest is stored two levels below a non-empty blob
/// folder: in the folder named by the first two hex characters, under the
/// name of the remaining ones.
pub proof fn law_blob_location(blob_dir: Seq<char>, digest: Seq<u8>)
    requires
        blob_dir.len() > 0,
        digest.len() == 32,
    ensures
        components(join(join(blob_dir, hex_lower(digest).take(2)), hex_lower(digest).skip(2)))
            == components(blob_dir) + seq![
            Comp::Normal(hex_lower(digest).take(2)),
            Comp::Normal(hex_lower(digest).skip(2)),
        ],
{
    let h = hex_lower(digest);
    crate::hash_pointer::lemma_digest_hex_shape(digest);
    crate::hash_pointer::lemma_hex_no_dot_slash(digest);
    let a = h.take(2);
    let b = h.skip(2);
    assert(no_slash(a) && no_slash(b)) by {
        assert forall|i: int| 0 <= i < a.len() implies a[i] != '/' by {
            assert(a[i] == h[i]);
        }
        assert forall|i: int| 0 <= i < b.len() implies b[i] != '/' by {
            assert(b[i] == h[i + 2]);
        }
    }
    assert(a[0] == h[0] && b[0] == h[2]);
    assert(a != seq!['.'] && a != seq!['.', '.']) by {
        assert(a[0] != '.');
    }
    assert(b != seq!['.'] && b != seq!['.', '.']) by {
        assert(b[0] != '.');
    }
    law_join_name(blob_dir, a);
    let sub = join(blob_dir, a);
    assert(sub.len() > 0);
    law_join_name(sub, b);
    assert(emit(a, false) == seq![Comp::Normal(a)]);
    assert(emit(b, false) == seq![Comp::Normal(b)]);
    assert(components(join(sub, b)) =~= components(blob_dir) + seq![
        Comp::Normal(a),
        Comp::Normal(b),
    ]);
}

/// `t` holds no line break.
pub open spec fn no_newline(t: Seq<char>) -> bool {
    forall|i: int| 0 <= i < t.len() ==> t[i] != '\n'
}

/// Reading text without a line break only extends the open line.
pub proof fn lemma_line_scan_no_newline(x: Seq<char>, t: Seq<char>)
    requires
        no_newline(t),
    ensures
        line_scan(x + t) == (line_scan(x).0, line_scan(x).1 + t),
    decreases t.len(),
{
    if t.len() == 0 {
        assert(x + t =~= x);
        assert(line_scan(x).1 + t =~= line_scan(x).1);
    } else {
        lemma_line_scan_no_newline(x, t.drop_last());
        assert((x + t).drop_last() =~= x + t.drop_last());
        assert((x + t).last() == t.last());
        assert(t.last() != '\n');
        assert(line_scan(x).1 + t =~= (line_scan(x).1 + t.drop_last()).push(t.last()));
    }
}

/// Writing lines, each without a line break and not ending with a carriage
/// return, each followed by a line break, and reading the lines of that
/// text gives the same lines.
pub proof fn law_lines_roundtrip(ls: Seq<Seq<char>>)
    requires
        forall|i: int|
            0 <= i < ls.len() ==> no_newline(#[trigger] ls[i]) && !(ls[i].len() > 0
                && ls[i].last() == '\r'),
    ensures
        line_scan(lines_with_breaks(ls)) == (ls, Seq::<char>::empty()),
        lines(lines_with_breaks(ls)) == ls,
    decreases ls.len(),
{
    if ls.len() > 0 {
        let prev = ls.drop_last();
        assert forall|i: int| 0 <= i < prev.len() implies no_newline(#[trigger] prev[i]) && !(
        prev[i].len() > 0 && prev[i].last() == '\r') by {
            assert(prev[i] == ls[i]);
        }
        law_lines_roundtrip(prev);
        let w = lines_with_breaks(prev);
        let l = ls.last();
        assert(no_newline(l) && !(l.len() > 0 && l.last() == '\r')) by {
            assert(l == ls[ls.len() - 1]);
        }
        lemma_line_scan_no_newline(w, l);
        assert(Seq::<char>::empty() + l =~= l);
        let s = lines_with_breaks(ls);
        assert(s.drop_last() =~= w + l);
        assert(s.last() == '\n');
        assert(strip_cr(l) == l);
        assert(prev.push(l) =~= ls);
    } else {
        assert(lines_with_breaks(ls) =~= Seq::<char>::empty());
    }
}

} // verus!
