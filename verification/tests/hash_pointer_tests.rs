use chak::error::ChakError;
use chak::error::IoKind;
use chak::files::create_blob;
use chak::files::lines_text;
use chak::files::sha256_hex;
use chak::hash_pointer::HashPointer;
use chak::hash_pointer::HashPointerTraits;
use chak::text::decimal_string;
use chak::text::hex_encode;

const EMPTY_HASH: &str = "e3b0c44298fc1c149afbf4c8996fb92427ae41e4649b934ca495991b7852b855";
const ABC_HASH: &str = "ba7816bf8f01cfea414140de5dae2223b00361a396177a9cb410ff61f20015ad";
const ABCD_HASH: &str = "88d4266fd4e6338d13b845fcf289579d209c897823b9217da3e161936f031589";

#[test]
fn hex_encode_writes_two_lowercase_digits_per_byte() {
    assert_eq!(hex_encode(&[0x00, 0x0f, 0xa0, 0xff]), "000fa0ff");
    assert_eq!(hex_encode(&[]), "");
}

#[test]
fn decimal_string_writes_numerals() {
    assert_eq!(decimal_string(0), "0");
    assert_eq!(decimal_string(7), "7");
    assert_eq!(decimal_string(1024), "1024");
}

#[test]
fn from_string_hashes_the_text() {
    let p = HashPointer::from_string("");
    assert_eq!(p.fold_name, "e3");
    assert_eq!(p.file_name, &EMPTY_HASH[2..]);
    assert_eq!(p.get_one_hash(), EMPTY_HASH);
    assert_eq!(p.get_path(), format!("e3/{}", &EMPTY_HASH[2..]));
    let q = HashPointer::from_string("abc");
    assert_eq!(q.get_one_hash(), ABC_HASH);
}

#[test]
fn same_content_gives_same_pointer() {
    let a = HashPointer::from_string("hello");
    let b = HashPointer::from_string("hello");
    assert_eq!(a.get_one_hash(), b.get_one_hash());
    assert_ne!(a.get_one_hash(), HashPointer::from_string("hello ").get_one_hash());
}

#[test]
fn pointer_string_too_short_is_refused() {
    match HashPointer::from_hash_pointer_string("ab".to_string()) {
        Err(ChakError::InvalidHashLength(m)) => {
            assert_eq!(m, "ab Hash length 2 is too short, length at least 3")
        }
        other => panic!("unexpected {:?}", other),
    }
}

#[test]
fn pointer_string_is_cut_after_two_bytes() {
    let p = HashPointer::from_hash_pointer_string("abcdef".to_string()).unwrap();
    assert_eq!(p.fold_name, "ab");
    assert_eq!(p.file_name, "cdef");
    let q = HashPointer::from_hash_pointer_string("abc".to_string()).unwrap();
    assert_eq!(q.fold_name, "ab");
    assert_eq!(q.file_name, "c");
}

#[test]
fn pointer_of_content_reparses_to_itself() {
    let p = HashPointer::from_string("some file content");
    let q = HashPointer::from_hash_pointer_string(p.get_one_hash()).unwrap();
    assert_eq!(p.fold_name, q.fold_name);
    assert_eq!(p.file_name, q.file_name);
}

#[test]
fn combine_hashes_the_joined_hashes() {
    let a = HashPointer::from_hash_pointer_string("abc".to_string()).unwrap();
    let b = HashPointer::from_hash_pointer_string("d".repeat(3)).unwrap();
    let c = HashPointer::combine(&a, &b);
    assert_eq!(c.get_one_hash(), HashPointer::from_string("abcddd").get_one_hash());
}

#[test]
fn from_pointers_of_nothing_is_an_error() {
    let none: Vec<HashPointer> = Vec::new();
    match HashPointer::from_pointers(none) {
        Err(ChakError::CustomError(m)) => assert_eq!(m, "Empty hash pointer vector"),
        other => panic!("unexpected {:?}", other),
    }
}

#[test]
fn from_pointers_hashes_the_joined_hashes() {
    let a = HashPointer::from_hash_pointer_string("abc".to_string()).unwrap();
    let b = HashPointer::from_hash_pointer_string("abd".to_string()).unwrap();
    let p = HashPointer::from_pointers(vec![a, b]).unwrap();
    assert_eq!(p.get_one_hash(), HashPointer::from_string("abcabd").get_one_hash());
}

#[test]
fn from_string_vec_hashes_the_concatenation() {
    let p = HashPointer::from_string_vec(&["ab".to_string(), "cd".to_string()]);
    assert_eq!(p.get_one_hash(), ABCD_HASH);
    let e = HashPointer::from_string_vec(&[]);
    assert_eq!(e.get_one_hash(), EMPTY_HASH);
}

#[test]
fn pointer_lines_skip_short_lines() {
    let lines = vec![
        "".to_string(),
        "x".to_string(),
        "abc123".to_string(),
        "ff".to_string(),
        "ffee".to_string(),
    ];
    let ps = HashPointer::get_pointer_lines_from_file(&lines);
    assert_eq!(ps.len(), 2);
    assert_eq!(ps[0].get_one_hash(), "abc123");
    assert_eq!(ps[1].get_one_hash(), "ffee");
    let last = HashPointer::get_latest_pointer_line_from_file(&lines, true).unwrap();
    assert_eq!(last.get_one_hash(), "ffee");
    let first = HashPointer::get_latest_pointer_line_from_file(&lines, false).unwrap();
    assert_eq!(first.get_one_hash(), "abc123");
}

#[test]
fn no_pointer_line_is_not_found() {
    let lines = vec!["a".to_string()];
    match HashPointer::get_latest_pointer_line_from_file(&lines, true) {
        Err(ChakError::IoError(f)) => {
            assert_eq!(f.kind, IoKind::NotFound);
            assert_eq!(f.message, "last hash pointer line not found in file");
        }
        other => panic!("unexpected {:?}", other),
    }
    match HashPointer::get_latest_pointer_line_from_file(&Vec::new(), false) {
        Err(ChakError::IoError(f)) => {
            assert_eq!(f.message, "first hash pointer line not found in file")
        }
        other => panic!("unexpected {:?}", other),
    }
}

#[test]
fn blob_goes_under_its_hash() {
    let plan = create_blob(b"test content", "/tmp/store/blobs");
    let h = "6ae8a75555209fd6c44157c0aed8016e763ff435a19cf186f76863140143ff72";
    assert_eq!(plan.hash, h);
    assert_eq!(plan.subdir, "/tmp/store/blobs/6a");
    assert_eq!(plan.blob_path, format!("/tmp/store/blobs/6a/{}", &h[2..]));
    let trailing = create_blob(b"test content", "blobs/");
    assert_eq!(trailing.subdir, "blobs/6a");
}

#[test]
fn sha256_hex_of_bytes() {
    assert_eq!(sha256_hex(b"abc"), ABC_HASH);
}

#[test]
fn lines_text_ends_each_line() {
    assert_eq!(lines_text(&vec!["a".to_string(), "".to_string(), "b c".to_string()]), "a\n\nb c\n");
    assert_eq!(lines_text(&Vec::new()), "");
}

#[test]
fn saved_string_goes_to_its_pointer_path() {
    let (p, target) = HashPointer::from_save_string("abc", "/s/commits");
    assert_eq!(p.get_one_hash(), ABC_HASH);
    assert_eq!(target, format!("/s/commits/ba/{}", &ABC_HASH[2..]));
}

#[test]
fn written_lines_read_back() {
    let lines = vec!["one".to_string(), "".to_string(), "two  three".to_string()];
    let written = lines_text(&lines);
    assert_eq!(chak::text::split_lines(&written), lines);
}

#[test]
fn combined_pointer_is_cut_after_two_characters() {
    let a = HashPointer::from_string("left");
    let b = HashPointer::from_string("right");
    let c = HashPointer::combine(&a, &b);
    assert_eq!(c.fold_name.len(), 2);
    assert_eq!(c.file_name.len(), 62);
    let joined = format!("{}{}", a.get_one_hash(), b.get_one_hash());
    let expected = HashPointer::from_string(&joined);
    assert_eq!(c.fold_name, expected.fold_name);
    assert_eq!(c.file_name, expected.file_name);
}

#[test]
fn from_pointers_of_two_is_combine() {
    let a = HashPointer::from_string("one");
    let b = HashPointer::from_string("two");
    let c = HashPointer::combine(&a, &b);
    let p = HashPointer::from_pointers(vec![a, b]).unwrap();
    assert_eq!(p.fold_name, c.fold_name);
    assert_eq!(p.file_name, c.file_name);
}

#[test]
fn from_string_vec_of_nothing_is_the_empty_hash_cut() {
    let e = HashPointer::from_string_vec(&[]);
    assert_eq!(e.fold_name, "e3");
    assert_eq!(e.file_name, "b0c44298fc1c149afbf4c8996fb92427ae41e4649b934ca495991b7852b855");
}
