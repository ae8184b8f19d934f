//! Hash pointers: a content hash split into a two-character folder name and
//! the rest as file name, the layout of the object store.

use vstd::prelude::*;
use vstd::utf8::*;
use crate::digest::{sha256, sha256_digest};
use crate::error::{ChakError, IoKind, is_custom_error, is_io_error, custom_error, io_error};
use crate::path::{join, join_path};
use crate::text::{hex_lower, hex_encode, decimal, decimal_string};

verus! {

broadcast use vstd::string::group_string_axioms;

/// The shortest string, in bytes, that `from_hash_pointer_string` accepts.
pub const MIN_HASH_LENGTH: usize = 3;

/// Length in bytes of the UTF-8 encoding of `s`.
pub open spec fn byte_len(s: Seq<char>) -> nat {
    encode_utf8(s).len()
}

/// Byte offset 2 of `s` starts a character (or ends `s`), so `s` can be cut there.
pub open spec fn cuttable_at_two(s: Seq<char>) -> bool {
    is_char_boundary(encode_utf8(s), 2)
}

/// The characters of the first two bytes of `s`.
pub open spec fn head_two(s: Seq<char>) -> Seq<char> {
    decode_utf8(encode_utf8(s).take(2))
}

/// The characters after the first two bytes of `s`.
pub open spec fn after_two(s: Seq<char>) -> Seq<char> {
    decode_utf8(encode_utf8(s).skip(2))
}

/// What `from_hash_pointer_string` accepts without panicking: a string that
/// is too short, or one that can be cut after its second byte.
pub open spec fn pointer_string_ok(s: Seq<char>) -> bool {
    byte_len(s) >= MIN_HASH_LENGTH ==> cuttable_at_two(s)
}

/// The message of the error for a hash string `h` that is too short.
pub open spec fn short_hash_message(h: Seq<char>) -> Seq<char> {
    h + " Hash length "@ + decimal(byte_len(h)) + " is too short, length at least "@ + decimal(
        MIN_HASH_LENGTH as nat,
    )
}

/// The hash of the bytes `bytes`: the lowercase hex of their SHA-256 digest.
pub open spec fn content_hash(bytes: Seq<u8>) -> Seq<char> {
    hex_lower(sha256(bytes))
}

/// The hash of the text `text`.
pub open spec fn text_hash(text: Seq<char>) -> Seq<char> {
    content_hash(encode_utf8(text))
}

/// UTF-8 encoding distributes over concatenation.
pub proof fn lemma_encode_concat(a: Seq<char>, b: Seq<char>)
    ensures
        encode_utf8(a + b) == encode_utf8(a) + encode_utf8(b),
    decreases a.len(),
{
    if a.len() == 0 {
        assert(a + b =~= b);
        assert(encode_utf8(a) =~= Seq::<u8>::empty());
        assert(encode_utf8(a) + encode_utf8(b) =~= encode_utf8(b));
    } else {
        lemma_encode_concat(a.drop_first(), b);
        assert((a + b).drop_first() =~= a.drop_first() + b);
        assert((a + b)[0] == a[0]);
        assert(encode_utf8(a + b) =~= encode_utf8(a) + encode_utf8(b));
    }
}

/// The two parts of a string cut after its second byte give the string back.
pub proof fn lemma_cut_rejoins(s: Seq<char>)
    requires
        cuttable_at_two(s),
    ensures
        head_two(s) + after_two(s) == s,
        encode_utf8(head_two(s)) == encode_utf8(s).take(2),
        encode_utf8(after_two(s)) == encode_utf8(s).skip(2),
{
    broadcast use group_utf8_lib;

    let bytes = encode_utf8(s);
    assert(bytes.len() >= 2) by {
        if bytes.len() < 2 {
            assert(!is_char_boundary(bytes, 2));
        }
    }
    valid_utf8_split(bytes, 2);
    decode_utf8_encode_utf8(bytes.take(2));
    decode_utf8_encode_utf8(bytes.skip(2));
    lemma_encode_concat(head_two(s), after_two(s));
    assert(bytes.take(2) + bytes.skip(2) =~= bytes);
    encode_utf8_decode_utf8(head_two(s) + after_two(s));
    encode_utf8_decode_utf8(s);
}

/// An ASCII string of at least two characters is cut after its second character.
pub proof fn lemma_ascii_cut(s: Seq<char>)
    requires
        is_ascii_chars(s),
        s.len() >= 2,
    ensures
        cuttable_at_two(s),
        byte_len(s) == s.len(),
        head_two(s) == s.take(2),
        after_two(s) == s.skip(2),
{
    broadcast use group_utf8_lib;

    let bytes = encode_utf8(s);
    is_ascii_chars_encode_utf8(s);
    if s.len() > 2 {
        assert(s[2] as u8 == bytes[2]);
        assert(is_leading_byte_width_1(bytes[2]));
        is_char_boundary_iff_is_leading_byte(bytes, 2);
    } else {
        is_char_boundary_start_end_of_seq(bytes);
    }
    lemma_encode_concat(s.take(2), s.skip(2));
    assert(s.take(2) + s.skip(2) =~= s);
    assert(is_ascii_chars(s.take(2)));
    is_ascii_chars_encode_utf8(s.take(2));
    assert(encode_utf8(s.take(2)) =~= bytes.take(2));
    assert(encode_utf8(s.skip(2)) =~= bytes.skip(2));
    encode_utf8_decode_utf8(s.take(2));
    encode_utf8_decode_utf8(s.skip(2));
}

/// Lowercase hex is ASCII, two characters per byte.
pub proof fn lemma_hex_ascii(data: Seq<u8>)
    ensures
        is_ascii_chars(hex_lower(data)),
        hex_lower(data).len() == 2 * data.len(),
    decreases data.len(),
{
    if data.len() > 0 {
        lemma_hex_ascii(data.drop_last());
        let h = hex_lower(data);
        let prev = hex_lower(data.drop_last());
        assert forall|i| 0 <= i < h.len() implies '\0' <= #[trigger] h[i] <= '\u{7f}' by {
            if i < prev.len() {
                assert(h[i] == prev[i]);
            }
        }
    }
}

/// Lowercase hex holds neither `/` nor `.`.
pub proof fn lemma_hex_no_dot_slash(data: Seq<u8>)
    ensures
        forall|i: int|
            0 <= i < hex_lower(data).len() ==> #[trigger] hex_lower(data)[i] != '/'
                && hex_lower(data)[i] != '.',
    decreases data.len(),
{
    if data.len() > 0 {
        lemma_hex_no_dot_slash(data.drop_last());
        lemma_hex_ascii(data.drop_last());
        let h = hex_lower(data);
        let prev = hex_lower(data.drop_last());
        assert forall|i: int| 0 <= i < h.len() implies #[trigger] h[i] != '/' && h[i] != '.' by {
            if i < prev.len() {
                assert(h[i] == prev[i]);
            }
        }
    }
}

/// The hex of a 32-byte digest is 64 lowercase hex characters, cut after two.
pub proof fn lemma_digest_hex_shape(digest: Seq<u8>)
    requires
        digest.len() == 32,
    ensures
        hex_lower(digest).len() == 64,
        is_ascii_chars(hex_lower(digest)),
        byte_len(hex_lower(digest)) == 64,
        cuttable_at_two(hex_lower(digest)),
        head_two(hex_lower(digest)) == hex_lower(digest).take(2),
        after_two(hex_lower(digest)) == hex_lower(digest).skip(2),
{
    lemma_hex_ascii(digest);
    lemma_ascii_cut(hex_lower(digest));
}

/// What every pointer kind offers: its folder and file names, the whole hash,
/// and its path inside a store.
pub trait HashPointerTraits {
    /// The folder name: the first two bytes of the hash.
    spec fn fold_view(&self) -> Seq<char>;

    /// The file name: the rest of the hash.
    spec fn file_view(&self) -> Seq<char>;

    /// The whole hash, folder name then file name.
    fn get_one_hash(&self) -> (r: String)
        ensures
            r@ == self.fold_view() + self.file_view(),
    ;

    /// The relative path `folder/file` of the object in a store.
    fn get_path(&self) -> (r: String)
        ensures
            r@ == self.fold_view() + seq!['/'] + self.file_view(),
    ;
}

/// `fold` followed by `file`.
pub fn join_hash(fold: &String, file: &String) -> (r: String)
    ensures
        r@ == fold@ + file@,
{
    let mut r = fold.clone();
    r.append(file.as_str());
    r
}

/// `fold/file`.
pub fn join_hash_path(fold: &String, file: &String) -> (r: String)
    ensures
        r@ == fold@ + seq!['/'] + file@,
{
    let mut r = fold.clone();
    r.append("/");
    proof {
        reveal_strlit("/");
    }
    r.append(file.as_str());
    r
}

/// A pointer to a stored object: the hash of its content, split after the
/// second byte into a folder name and a file name.
#[derive(Debug, Clone)]
pub struct HashPointer {
    pub fold_name: String,
    pub file_name: String,
}

impl HashPointerTraits for HashPointer {
    open spec fn fold_view(&self) -> Seq<char> {
        self.fold_name@
    }

    open spec fn file_view(&self) -> Seq<char> {
        self.file_name@
    }

    fn get_one_hash(&self) -> (r: String) {
        join_hash(&self.fold_name, &self.file_name)
    }

    fn get_path(&self) -> (r: String) {
        join_hash_path(&self.fold_name, &self.file_name)
    }
}

/// The concatenated hashes of a sequence of pointers.
pub open spec fn concat_hashes<T: HashPointerTraits>(ps: Seq<T>) -> Seq<char>
    decreases ps.len(),
{
    if ps.len() == 0 {
        seq![]
    } else {
        concat_hashes(ps.drop_last()) + ps.last().fold_view() + ps.last().file_view()
    }
}

/// The concatenation of a sequence of strings.
pub open spec fn concat_all(ss: Seq<Seq<char>>) -> Seq<char>
    decreases ss.len(),
{
    if ss.len() == 0 {
        seq![]
    } else {
        concat_all(ss.drop_last()) + ss.last()
    }
}

impl HashPointer {
    /// A pointer with the given folder and file names.
    fn new(fold_name: String, file_name: String) -> (r: Self)
        ensures
            r.fold_name == fold_name,
            r.file_name == file_name,
    {
        Self { fold_name, file_name }
    }

    /// Splits `hash` after its second byte.
    fn _from_hash_string(hash: String) -> (r: Self)
        requires
            cuttable_at_two(hash@),
        ensures
            r.fold_name@ == head_two(hash@),
            r.file_name@ == after_two(hash@),
    {
        broadcast use group_utf8_lib;

        proof {
            lemma_cut_rejoins(hash@);
        }
        let (fold, file) = hash.as_str().split_at(2);
        proof {
            encode_utf8_decode_utf8(fold@);
            encode_utf8_decode_utf8(file@);
        }
        Self::new(fold.to_owned(), file.to_owned())
    }

    /// The pointer of a hash string read back, or `InvalidHashLength` when it
    /// has fewer than `MIN_HASH_LENGTH` bytes.
    pub fn from_hash_pointer_string(hash: String) -> (r: Result<Self, ChakError>)
        requires
            pointer_string_ok(hash@),
        ensures
            r is Err <==> byte_len(hash@) < MIN_HASH_LENGTH,
            r matches Err(e) ==> e matches ChakError::InvalidHashLength(m) && m@
                == short_hash_message(hash@),
            r matches Ok(p) ==> p.fold_name@ == head_two(hash@) && p.file_name@ == after_two(
                hash@,
            ) && p.fold_name@ + p.file_name@ == hash@,
    {
        let len = hash.as_str().as_bytes().len();
        if len < MIN_HASH_LENGTH {
            let mut msg = hash.clone();
            msg.append(" Hash length ");
            msg.append(decimal_string(len).as_str());
            msg.append(" is too short, length at least ");
            msg.append(decimal_string(MIN_HASH_LENGTH).as_str());
            return Err(ChakError::InvalidHashLength(msg));
        }
        proof {
            lemma_cut_rejoins(hash@);
        }
        Ok(Self::_from_hash_string(hash))
    }

    /// The pointer of the bytes `data`: the hex SHA-256 of `data`, cut after two.
    pub fn from_content_bytes(data: &[u8]) -> (r: Self)
        ensures
            r.fold_name@ == content_hash(data@).take(2),
            r.file_name@ == content_hash(data@).skip(2),
            r.fold_name@ + r.file_name@ == content_hash(data@),
            content_hash(data@).len() == 64,
    {
        let digest = sha256_digest(data);
        let hex = hex_encode(digest.as_slice());
        proof {
            lemma_digest_hex_shape(digest@);
            assert(hex@.take(2) + hex@.skip(2) =~= hex@);
        }
        Self::_from_hash_string(hex)
    }

    /// The pointer of the text `content`: the hash of its UTF-8 bytes.
    pub fn from_string(content: &str) -> (r: Self)
        ensures
            r.fold_name@ == text_hash(content@).take(2),
            r.file_name@ == text_hash(content@).skip(2),
            r.fold_name@ + r.file_name@ == text_hash(content@),
            text_hash(content@).len() == 64,
    {
        Self::from_content_bytes(content.as_bytes())
    }

    /// The pointer of the concatenated hashes of `first` and `second`.
    pub fn combine(first: &Self, second: &Self) -> (r: Self)
        ensures
            r.fold_name@ == text_hash(
                first.fold_name@ + first.file_name@ + second.fold_name@ + second.file_name@,
            ).take(2),
            r.file_name@ == text_hash(
                first.fold_name@ + first.file_name@ + second.fold_name@ + second.file_name@,
            ).skip(2),
            r.fold_name@ + r.file_name@ == text_hash(
                first.fold_name@ + first.file_name@ + second.fold_name@ + second.file_name@,
            ),
    {
        let mut joined = first.get_one_hash();
        let second_hash = second.get_one_hash();
        joined.append(second_hash.as_str());
        assert(joined@ =~= first.fold_name@ + first.file_name@ + second.fold_name@
            + second.file_name@);
        Self::from_string(joined.as_str())
    }

    /// The pointer of the concatenated hashes of `pointers`, or a
    /// `CustomError` when there are none.
    pub fn from_pointers<T: HashPointerTraits>(pointers: Vec<T>) -> (r: Result<Self, ChakError>)
        ensures
            r is Err <==> pointers@.len() == 0,
            r matches Err(e) ==> is_custom_error(e, "Empty hash pointer vector"@),
            r matches Ok(p) ==> p.fold_name@ == text_hash(concat_hashes(pointers@)).take(2)
                && p.file_name@ == text_hash(concat_hashes(pointers@)).skip(2)
                && p.fold_name@ + p.file_name@ == text_hash(concat_hashes(pointers@)),
    {
        if pointers.len() == 0 {
            return Err(custom_error("Empty hash pointer vector"));
        }
        let mut joined = String::new();
        let n = pointers.len();
        let mut i: usize = 0;
        while i < n
            invariant
                n == pointers@.len(),
                i <= n,
                joined@ == concat_hashes(pointers@.take(i as int)),
            decreases n - i,
        {
            let h = pointers[i].get_one_hash();
            joined.append(h.as_str());
            assert(pointers@.take(i + 1).drop_last() =~= pointers@.take(i as int));
            i = i + 1;
        }
        assert(pointers@.take(n as int) =~= pointers@);
        Ok(Self::from_string(joined.as_str()))
    }

    /// The pointer of the concatenation of `strings`.
    pub fn from_string_vec(strings: &[String]) -> (r: Self)
        ensures
            r.fold_name@ == text_hash(concat_all(strings@.map_values(|x: String| x@))).take(2),
            r.file_name@ == text_hash(concat_all(strings@.map_values(|x: String| x@))).skip(2),
            r.fold_name@ + r.file_name@ == text_hash(
                concat_all(strings@.map_values(|x: String| x@)),
            ),
    {
        let mut joined = String::new();
        let n = strings.len();
        let mut i: usize = 0;
        while i < n
            invariant
                n == strings@.len(),
                i <= n,
                joined@ == concat_all(strings@.take(i as int).map_values(|x: String| x@)),
            decreases n - i,
        {
            joined.append(strings[i].as_str());
            assert(strings@.take(i + 1).map_values(|x: String| x@).drop_last()
                =~= strings@.take(i as int).map_values(|x: String| x@));
            i = i + 1;
        }
        assert(strings@.take(n as int) =~= strings@);
        Self::from_string(joined.as_str())
    }
}

/// The joined hashes of two runs of pointers, one after the other, are the
/// joined hashes of the first run followed by those of the second: every
/// pointer's hash is joined, in order, none left out.
pub proof fn law_concat_hashes_append<T: HashPointerTraits>(ps: Seq<T>, qs: Seq<T>)
    ensures
        concat_hashes(ps + qs) == concat_hashes(ps) + concat_hashes(qs),
    decreases qs.len(),
{
    if qs.len() == 0 {
        assert(ps + qs =~= ps);
        assert(concat_hashes(ps) + concat_hashes(qs) =~= concat_hashes(ps));
    } else {
        law_concat_hashes_append(ps, qs.drop_last());
        assert((ps + qs).drop_last() =~= ps + qs.drop_last());
        assert((ps + qs).last() == qs.last());
        assert(concat_hashes(ps + qs) =~= concat_hashes(ps) + concat_hashes(qs));
    }
}

/// One more pointer adds its folder name and file name after the hashes
/// joined so far.
pub proof fn law_concat_hashes_push<T: HashPointerTraits>(ps: Seq<T>, q: T)
    ensures
        concat_hashes(ps.push(q)) == concat_hashes(ps) + q.fold_view() + q.file_view(),
{
    law_concat_hashes_append(ps, seq![q]);
    assert(ps + seq![q] =~= ps.push(q));
    assert(seq![q].drop_last() =~= Seq::<T>::empty());
    assert(seq![q].last() == q);
    assert(concat_hashes(Seq::<T>::empty()) =~= Seq::<char>::empty());
    assert(concat_hashes(seq![q]) == concat_hashes(Seq::<T>::empty()) + q.fold_view()
        + q.file_view());
    assert(concat_hashes(seq![q]) =~= q.fold_view() + q.file_view());
    assert(concat_hashes(ps) + concat_hashes(seq![q]) =~= concat_hashes(ps) + q.fold_view()
        + q.file_view());
}

/// The hash of the pointer at every position `i` stands in the joined text
/// between the hashes of the pointers before it and those after it.
pub proof fn law_concat_hashes_at<T: HashPointerTraits>(ps: Seq<T>, i: int)
    requires
        0 <= i < ps.len(),
    ensures
        concat_hashes(ps) == concat_hashes(ps.take(i)) + ps[i].fold_view() + ps[i].file_view()
            + concat_hashes(ps.skip(i + 1)),
{
    law_concat_hashes_push(ps.take(i), ps[i]);
    law_concat_hashes_append(ps.take(i).push(ps[i]), ps.skip(i + 1));
    assert(ps.take(i).push(ps[i]) + ps.skip(i + 1) =~= ps);
}

/// The concatenation of two runs of strings is the concatenation of the
/// first run followed by that of the second.
pub proof fn law_concat_all_append(ss: Seq<Seq<char>>, tt: Seq<Seq<char>>)
    ensures
        concat_all(ss + tt) == concat_all(ss) + concat_all(tt),
    decreases tt.len(),
{
    if tt.len() == 0 {
        assert(ss + tt =~= ss);
        assert(concat_all(ss) + concat_all(tt) =~= concat_all(ss));
    } else {
        law_concat_all_append(ss, tt.drop_last());
        assert((ss + tt).drop_last() =~= ss + tt.drop_last());
        assert((ss + tt).last() == tt.last());
        assert(concat_all(ss + tt) =~= concat_all(ss) + concat_all(tt));
    }
}

/// The string at every position `i` stands in the concatenation between
/// the strings before it and those after it.
pub proof fn law_concat_all_at(ss: Seq<Seq<char>>, i: int)
    requires
        0 <= i < ss.len(),
    ensures
        concat_all(ss) == concat_all(ss.take(i)) + ss[i] + concat_all(ss.skip(i + 1)),
{
    law_concat_all_append(ss.take(i), seq![ss[i]]);
    law_concat_all_append(ss.take(i) + seq![ss[i]], ss.skip(i + 1));
    assert(ss.take(i) + seq![ss[i]] + ss.skip(i + 1) =~= ss);
    assert(seq![ss[i]].drop_last() =~= Seq::<Seq<char>>::empty());
    assert(concat_all(Seq::<Seq<char>>::empty()) =~= Seq::<char>::empty());
    assert(concat_all(seq![ss[i]]) == concat_all(Seq::<Seq<char>>::empty()) + ss[i]);
    assert(concat_all(seq![ss[i]]) =~= ss[i]);
}

/// The joined hashes of the two pointers `a` and `b` are the text that
/// `combine(a, b)` hashes, so `from_pointers` on `[a, b]` gives the pointer
/// that `combine` gives.
pub proof fn law_pointers_of_pair_is_combine(a: HashPointer, b: HashPointer)
    ensures
        concat_hashes(seq![a, b]) == a.fold_name@ + a.file_name@ + b.fold_name@ + b.file_name@,
{
    let ps = seq![a, b];
    assert(ps.drop_last() =~= seq![a]);
    assert(seq![a].drop_last() =~= Seq::<HashPointer>::empty());
    assert(concat_hashes(Seq::<HashPointer>::empty()) =~= Seq::<char>::empty());
    assert(seq![a].last() == a);
    assert(ps.last() == b);
    assert(a.fold_view() == a.fold_name@ && a.file_view() == a.file_name@);
    assert(b.fold_view() == b.fold_name@ && b.file_view() == b.file_name@);
    assert(concat_hashes(seq![a]) =~= a.fold_name@ + a.file_name@);
    assert(concat_hashes(ps) =~= a.fold_name@ + a.file_name@ + b.fold_name@ + b.file_name@);
}

/// Every line is one that `from_hash_pointer_string` takes without panicking.
pub open spec fn lines_ok(lines: Seq<Seq<char>>) -> bool {
    forall|i: int| 0 <= i < lines.len() ==> pointer_string_ok(#[trigger] lines[i])
}

/// The (folder, file) names of the pointers read from `lines`: each line of
/// at least `MIN_HASH_LENGTH` bytes, cut after its second byte; shorter lines
/// are skipped.
pub open spec fn pointers_of_lines(lines: Seq<Seq<char>>) -> Seq<(Seq<char>, Seq<char>)>
    decreases lines.len(),
{
    if lines.len() == 0 {
        seq![]
    } else {
        let prev = pointers_of_lines(lines.drop_last());
        let l = lines.last();
        if byte_len(l) >= MIN_HASH_LENGTH {
            prev.push((head_two(l), after_two(l)))
        } else {
            prev
        }
    }
}

/// The (folder, file) names of hash pointers.
pub open spec fn pointer_names(v: Seq<HashPointer>) -> Seq<(Seq<char>, Seq<char>)> {
    v.map_values(|p: HashPointer| (p.fold_name@, p.file_name@))
}

impl HashPointer {
    /// The pointers that the lines of a pointer file hold, in order; lines
    /// too short to be a pointer are skipped.
    pub fn get_pointer_lines_from_file(lines: &Vec<String>) -> (r: Vec<HashPointer>)
        requires
            lines_ok(crate::text::views(lines@)),
        ensures
            pointer_names(r@) == pointers_of_lines(crate::text::views(lines@)),
    {
        let ghost all = crate::text::views(lines@);
        let mut out: Vec<HashPointer> = Vec::new();
        let n = lines.len();
        let mut i: usize = 0;
        assert(all.take(0) =~= seq![]);
        while i < n
            invariant
                n == lines@.len(),
                all == crate::text::views(lines@),
                lines_ok(all),
                i <= n,
                pointer_names(out@) == pointers_of_lines(all.take(i as int)),
            decreases n - i,
        {
            assert(all.take(i + 1).drop_last() =~= all.take(i as int));
            assert(all.take(i + 1).last() == lines@[i as int]@);
            assert(pointer_string_ok(all[i as int]));
            let ghost before = out@;
            match Self::from_hash_pointer_string(lines[i].clone()) {
                Ok(p) => {
                    out.push(p);
                    assert(pointer_names(out@) =~= pointer_names(before).push(
                        (head_two(all[i as int]), after_two(all[i as int])),
                    ));
                },
                Err(_) => {},
            }
            assert(pointer_names(out@) =~= pointers_of_lines(all.take(i + 1)));
            i = i + 1;
        }
        assert(all.take(n as int) =~= all);
        out
    }

    /// The last pointer of the file's lines (`from_bottom`) or the first, or
    /// a `NotFound` error when the lines hold none.
    pub fn get_latest_pointer_line_from_file(lines: &Vec<String>, from_bottom: bool) -> (r: Result<
        HashPointer,
        ChakError,
    >)
        requires
            lines_ok(crate::text::views(lines@)),
        ensures
            r is Err <==> pointers_of_lines(crate::text::views(lines@)).len() == 0,
            r matches Err(e) ==> is_io_error(
                e,
                IoKind::NotFound,
                if from_bottom {
                    "last hash pointer line not found in file"@
                } else {
                    "first hash pointer line not found in file"@
                },
            ),
            r matches Ok(p) ==> (p.fold_name@, p.file_name@) == (if from_bottom {
                pointers_of_lines(crate::text::views(lines@)).last()
            } else {
                pointers_of_lines(crate::text::views(lines@))[0]
            }),
    {
        let mut pointers = Self::get_pointer_lines_from_file(lines);
        let ghost names = pointer_names(pointers@);
        if pointers.len() == 0 {
            if from_bottom {
                return Err(io_error(IoKind::NotFound, "last hash pointer line not found in file"));
            } else {
                return Err(io_error(IoKind::NotFound, "first hash pointer line not found in file"));
            }
        }
        if from_bottom {
            let last = pointers.pop().unwrap();
            assert(names.last() == (last.fold_name@, last.file_name@));
            Ok(last)
        } else {
            let first = pointers.remove(0);
            assert(names[0] == (first.fold_name@, first.file_name@));
            Ok(first)
        }
    }
}

/// Reading a pointer from a hash string and joining its folder and file
/// names gives the string back.
pub proof fn law_pointer_hash_roundtrip(h: Seq<char>)
    requires
        pointer_string_ok(h),
        byte_len(h) >= MIN_HASH_LENGTH,
    ensures
        head_two(h) + after_two(h) == h,
{
    lemma_cut_rejoins(h);
}

/// The hash of any content (the hex of its 32-byte digest) is accepted as a
/// pointer string and read back into the same folder and file names that
/// the pointer of the content has.
pub proof fn law_content_pointer_reparses(digest: Seq<u8>)
    requires
        digest.len() == 32,
    ensures
        pointer_string_ok(hex_lower(digest)),
        byte_len(hex_lower(digest)) >= MIN_HASH_LENGTH,
        head_two(hex_lower(digest)) == hex_lower(digest).take(2),
        after_two(hex_lower(digest)) == hex_lower(digest).skip(2),
{
    lemma_digest_hex_shape(digest);
}

impl HashPointer {
    /// The pointer of the text `content` and the file it is saved to: its
    /// path `folder/file` inside `save_dir`.
    pub fn from_save_string(content: &str, save_dir: &str) -> (r: (HashPointer, String))
        ensures
            r.0.fold_name@ == text_hash(content@).take(2),
            r.0.file_name@ == text_hash(content@).skip(2),
            r.1@ == join(save_dir@, r.0.fold_name@ + seq!['/'] + r.0.file_name@),
    {
        let p = Self::from_string(content);
        let rel = p.get_path();
        let target = join_path(save_dir, rel.as_str());
        (p, target)
    }
}

} // verus!
