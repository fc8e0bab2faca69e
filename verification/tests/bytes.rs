use git_subset::bytes::{blank, bytes_eq, bytes_lt, split_bytes, trim_bytes};
use git_subset::path::{named, path_components};

fn strings(parts: Vec<Vec<u8>>) -> Vec<String> {
    parts.into_iter().map(|p| String::from_utf8(p).unwrap()).collect()
}

#[test]
fn split_cuts_at_every_separator() {
    assert_eq!(strings(split_bytes(b"a/b/c", b'/')), vec!["a", "b", "c"]);
    assert_eq!(strings(split_bytes(b"", b'/')), vec![""]);
    assert_eq!(strings(split_bytes(b"/", b'/')), vec!["", ""]);
    assert_eq!(strings(split_bytes(b"a//b/", b'/')), vec!["a", "", "b", ""]);
    assert_eq!(strings(split_bytes(b"one\ntwo\n", b'\n')), vec!["one", "two", ""]);
}

#[test]
fn trim_takes_blanks_off_both_ends() {
    assert_eq!(trim_bytes(b"  a b \t\r\n"), b"a b".to_vec());
    assert_eq!(trim_bytes(b"\x0b\x0c"), Vec::<u8>::new());
    assert_eq!(trim_bytes(b""), Vec::<u8>::new());
    assert_eq!(trim_bytes(b"x"), b"x".to_vec());
    assert!(blank(b' ') && blank(b'\t') && blank(b'\n') && blank(b'\r'));
    assert!(!blank(b'a') && !blank(0) && !blank(0x0e) && !blank(0x08));
}

#[test]
fn order_is_lexicographic() {
    assert!(bytes_lt(b"", b"a"));
    assert!(!bytes_lt(b"", b""));
    assert!(bytes_lt(b"a", b"ab"));
    assert!(!bytes_lt(b"ab", b"a"));
    assert!(bytes_lt(b"ab", b"b"));
    assert!(bytes_lt(b"*", b"**"));
    assert!(bytes_lt(b"**", b"a"));
    assert!(!bytes_lt(b"a", b"a"));
    assert!(bytes_lt(&[0x7f], &[0x80]));
    assert!(bytes_eq(b"abc", b"abc"));
    assert!(!bytes_eq(b"abc", b"abd"));
    assert!(!bytes_eq(b"abc", b"ab"));
}

#[test]
fn only_named_components_count() {
    assert_eq!(strings(path_components(b"a/b/c")), vec!["a", "b", "c"]);
    assert_eq!(strings(path_components(b"/a//b/")), vec!["a", "b"]);
    assert_eq!(strings(path_components(b"./a/./b")), vec!["a", "b"]);
    assert_eq!(strings(path_components(b"a/../b")), vec!["a", "b"]);
    assert_eq!(strings(path_components(b"...")), vec!["..."]);
    assert_eq!(strings(path_components(b"")), Vec::<String>::new());
    assert_eq!(strings(path_components(b"/")), Vec::<String>::new());
    assert!(named(b"a") && named(b".a") && named(b"..."));
    assert!(!named(b"") && !named(b".") && !named(b".."));
}

#[test]
fn trim_knows_the_blanks_of_more_than_one_byte() {
    // No-break space, next line, Ogham space mark, en quad, hair space,
    // line separator, paragraph separator, narrow no-break space, medium
    // mathematical space, ideographic space.
    let blanks = "\u{a0}\u{85}\u{1680}\u{2000}\u{200a}\u{2028}\u{2029}\u{202f}\u{205f}\u{3000}";
    let text = format!("{} a\u{a0}b {}", blanks, blanks);
    assert_eq!(trim_bytes(text.as_bytes()), "a\u{a0}b".as_bytes().to_vec());
    assert_eq!(trim_bytes(blanks.as_bytes()), Vec::<u8>::new());
    // A zero width space is no blank, nor is a part of a blank.
    assert_eq!(trim_bytes("\u{200b}".as_bytes()), "\u{200b}".as_bytes().to_vec());
    assert_eq!(trim_bytes(&[0xc2]), vec![0xc2]);
    assert_eq!(trim_bytes(&[0xe2, 0x80]), vec![0xe2, 0x80]);
    assert_eq!(trim_bytes(&[0x80, 0x20]), vec![0x80]);
    for text in ["  x y\t", "\u{2003}x\u{3000}", "x", "", "\u{feff}x ", "\u{1680}\u{180e}\u{2007}"] {
        assert_eq!(trim_bytes(text.as_bytes()), text.trim().as_bytes().to_vec());
    }
}
