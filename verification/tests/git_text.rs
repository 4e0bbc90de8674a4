use helix_ext::bytes::{compare, find_byte, find_byteset, Order};
use helix_ext::components::{normalize, parts_of, same_parts, Part};
use helix_ext::git::error::GitError;
use helix_ext::git::number::{to_signed, to_signed_with_radix, to_unsigned_with_radix};
use helix_ext::git::pattern::{
    first_wildcard_pos, parse_pattern, strip_base_handle_recompute_basename_pos, Case, Pattern,
};
use helix_ext::git::quote::undo;
use helix_ext::git::unicode::{str_decompose, str_precompose};
use helix_ext::git::wildmatch::{is_glob_character, wildmatch, WildmatchMode};
use helix_ext::path::{
    ancestors, extension, file_name, is_absolute, is_current_dir, join, parent, with_extension,
};

const PLAIN: WildmatchMode = WildmatchMode { no_match_slash_literal: false, ignore_case: false };
const PATHS: WildmatchMode = WildmatchMode { no_match_slash_literal: true, ignore_case: false };
const ANY_CASE: WildmatchMode = WildmatchMode { no_match_slash_literal: false, ignore_case: true };

#[test]
fn wildcards() {
    let yes: [(&[u8], &[u8]); 22] = [
        (b"foo", b"foo"),
        (b"", b""),
        (b"???", b"foo"),
        (b"*", b"foo"),
        (b"f*", b"foo"),
        (b"*foo*", b"foo"),
        (b"*ob*a*r*", b"foobar"),
        (b"*ab", b"aaaaaaabababab"),
        (b"foo\\*", b"foo*"),
        (b"f\\oo", b"foo"),
        (b"*[al]?", b"ball"),
        (b"[ten]", b"e"),
        (b"t[a-g]n", b"ten"),
        (b"t[!a-g]n", b"ton"),
        (b"a[]]b", b"a]b"),
        (b"a[]-]b", b"a-b"),
        (b"[[:alpha:]][[:digit:]][[:upper:]]", b"a1B"),
        (b"[[:digit:][:upper:][:space:]]", b"A"),
        (b"[[:xdigit:]]", b"f"),
        (b"[\\-_]", b"-"),
        (b"**/foo", b"x/foo"),
        (b"foo*bar", b"foo/baz/bar"),
    ];
    for (p, t) in yes {
        assert!(wildmatch(p, t, PLAIN), "{:?} {:?}", p, t);
    }
    let no: [(&[u8], &[u8]); 11] = [
        (b"bar", b"foo"),
        (b"??", b"foo"),
        (b"*f", b"foo"),
        (b"foo\\*bar", b"foobar"),
        (b"[ten]", b"ten"),
        (b"t[!a-g]n", b"ten"),
        (b"a[]-]b", b"aab"),
        (b"[[:digit:][:upper:][:space:]]", b"a"),
        (b"[", b"a"),
        (b"[a", b"a"),
        (b"**[!te]", b"ten/te"),
    ];
    for (p, t) in no {
        assert!(!wildmatch(p, t, PLAIN), "{:?} {:?}", p, t);
    }
}

#[test]
fn wildcards_in_paths() {
    let yes: [(&[u8], &[u8]); 8] = [
        (b"foo/*", b"foo/bar"),
        (b"foo/**", b"foo/bar/baz"),
        (b"**/foo", b"bar/baz/foo"),
        (b"**/foo", b"foo"),
        (b"foo/**/bar", b"foo/bar"),
        (b"foo/**/bar", b"foo/b/a/z/bar"),
        (b"**/bar/*", b"deep/foo/bar/baz"),
        (b"-*-*-*", b"-a-b-c"),
    ];
    for (p, t) in yes {
        assert!(wildmatch(p, t, PATHS), "{:?} {:?}", p, t);
    }
    let no: [(&[u8], &[u8]); 6] = [
        (b"foo*bar", b"foo/baz/bar"),
        (b"foo?bar", b"foo/bar"),
        (b"foo[/]bar", b"foo/bar"),
        (b"*/foo", b"bar/baz/foo"),
        (b"**/bar*", b"deep/foo/bar/baz"),
        (b"foo/*", b"foo/bar/baz"),
    ];
    for (p, t) in no {
        assert!(!wildmatch(p, t, PATHS), "{:?} {:?}", p, t);
    }
    assert!(wildmatch(b"FoO*", b"fOoBar", ANY_CASE));
    assert!(!wildmatch(b"FoO*", b"fOoBar", PLAIN));
    assert!(wildmatch(b"[A-Z]", b"a", ANY_CASE));
    assert!(is_glob_character(b'*') && !is_glob_character(b'a'));
}

#[test]
fn patterns_of_rules() {
    let p = Pattern::from_bytes(b"*.o").unwrap();
    assert!(p.mode.no_sub_dir && p.mode.ends_with && !p.mode.negative);
    assert_eq!(p.first_wildcard_pos, Some(0));
    let p = Pattern::from_bytes(b"!/a/b/").unwrap();
    assert!(p.is_negative() && p.mode.absolute && p.mode.must_be_dir && !p.mode.no_sub_dir);
    assert_eq!(p.text, b"a/b".to_vec());
    assert!(Pattern::from_bytes(b"").is_none());
    assert!(Pattern::from_bytes(b"!  ").is_none());
    assert_eq!(Pattern::from_bytes(b"\\#x").unwrap().text, b"#x".to_vec());
    assert_eq!(first_wildcard_pos(b"ab*c"), Some(2));
    assert_eq!(first_wildcard_pos(b"abc"), None);
    let (text, mode, wild) = parse_pattern(b"x/y?", true).unwrap();
    assert_eq!((text, wild), (&b"x/y?"[..], Some(3)));
    assert!(!mode.no_sub_dir);
}

#[test]
fn patterns_match_paths() {
    let matches = |pat: &[u8], path: &[u8], is_dir: bool| {
        let p = Pattern::from_bytes(pat).unwrap();
        let base = path.iter().rposition(|b| *b == b'/').map(|i| i + 1);
        p.matches_repo_relative_path(path, base, Some(is_dir), Case::Sensitive, PATHS)
    };
    assert!(matches(b"*.o", b"a/b/c.o", false));
    assert!(matches(b"/c.o", b"c.o", false));
    assert!(!matches(b"/c.o", b"a/c.o", false));
    assert!(matches(b"dir/", b"a/dir", true));
    assert!(!matches(b"dir/", b"a/dir", false));
    assert!(matches(b"a/*", b"a/b", false));
    assert!(!matches(b"a/*", b"x/a/b", false));
}

#[test]
fn literal_patterns_match_themselves_only() {
    let p = Pattern::from_bytes(b"plain").unwrap();
    assert!(p.matches(b"plain", PLAIN));
    assert!(!p.matches(b"plainer", PLAIN));
    assert!(!p.matches(b"plai", PLAIN));
    let suffix = Pattern::from_bytes(b"*.tar.gz").unwrap();
    for t in [&b"a.tar.gz"[..], b".tar.gz", b"tar.gz", b"a.tar.gz2"] {
        assert_eq!(suffix.matches(t, PLAIN), wildmatch(b"*.tar.gz", t, PLAIN));
    }
}

#[test]
fn bases_are_stripped() {
    let (rest, pos) = strip_base_handle_recompute_basename_pos(b"a/b/", b"a/b/c/d", Some(6), Case::Sensitive)
        .unwrap();
    assert_eq!((rest, pos), (&b"c/d"[..], Some(2)));
    let (rest, pos) = strip_base_handle_recompute_basename_pos(b"a/", b"a/d", Some(2), Case::Sensitive)
        .unwrap();
    assert_eq!((rest, pos), (&b"d"[..], None));
    assert!(strip_base_handle_recompute_basename_pos(b"x/", b"a/d", None, Case::Sensitive).is_none());
}

#[test]
fn numbers_in_text() {
    assert_eq!(to_unsigned_with_radix::<u64>(b"ff", 16).unwrap(), 255);
    assert_eq!(to_unsigned_with_radix::<usize>(b"18", 10).unwrap(), 18);
    assert!(matches!(to_unsigned_with_radix::<u8>(b"256", 10), Err(GitError::Gen)));
    assert_eq!(to_unsigned_with_radix::<u8>(b"255", 10).unwrap(), 255);
    assert!(to_unsigned_with_radix::<u64>(b"", 10).is_err());
    assert!(to_unsigned_with_radix::<u64>(b"1x", 10).is_err());
    assert_eq!(to_signed::<i32>(b"-2147483648").unwrap(), i32::MIN);
    assert!(to_signed::<i32>(b"2147483648").is_err());
    assert_eq!(to_signed::<i64>(b"+7").unwrap(), 7);
    assert_eq!(to_signed_with_radix::<i64>(b"-z", 36).unwrap(), -35);
}

#[test]
fn quotes_are_undone() {
    assert_eq!(undo(b"plain text").unwrap(), (b"plain text".to_vec(), 10));
    assert_eq!(undo(b"\"plain text\" rest").unwrap(), (b"plain text".to_vec(), 12));
    assert_eq!(undo(b"\"a\\tb\\\\\\\"\\101\"").unwrap().0, b"a\tb\\\"A".to_vec());
    assert_eq!(undo(b"\"open").unwrap(), (b"open".to_vec(), 5));
    assert!(matches!(undo(b"\""), Err(GitError::Gen)));
    assert!(undo(b"\"\\x\"").is_err());
    assert!(undo(b"\"\\9\"").is_err());
}

#[test]
fn forms_of_text() {
    assert_eq!(str_precompose("a\u{308}"), "\u{e4}");
    assert_eq!(str_decompose("\u{e4}"), "a\u{308}");
    assert_eq!(str_precompose("plain"), "plain");
    assert_eq!(str_decompose("plain"), "plain");
}

#[test]
fn bytes_are_found() {
    assert_eq!(find_byte(b"a/b/c", b'/'), Some(1));
    assert_eq!(find_byte(b"abc", b'/'), None);
    assert_eq!(find_byteset(b"abc", b"cb"), Some(1));
    assert_eq!(find_byteset(b"abc", b"x"), None);
    assert!(matches!(compare(b"ab", b"abc"), Order::Less));
    assert!(matches!(compare(b"b", b"abc"), Order::Greater));
    assert!(matches!(compare(b"b", b"b"), Order::Equal));
}

#[test]
fn paths_in_parts() {
    let parts = parts_of(b"/a/../b/./c");
    assert_eq!(parts.len(), 5);
    assert!(matches!(parts[0], Part::Root));
    assert!(matches!(&parts[2], Part::Up));
    assert!(matches!(&parts[4], Part::Name(n) if n == b"c"));
    assert!(same_parts(&parts_of(b"a//b/"), &parts_of(b"a/b")));
    assert!(!same_parts(&parts_of(b"./a"), &parts_of(b"a")));
}

#[test]
fn paths_are_normalized() {
    assert_eq!(normalize(b"a/b", b"/w"), Some(b"a/b".to_vec()));
    assert_eq!(normalize(b"/a/../b", b"/w"), Some(b"/b".to_vec()));
    assert_eq!(normalize(b"a/../../x", b"/w/v"), Some(b"/w/x".to_vec()));
    assert_eq!(normalize(b"..", b"/w/v"), Some(b"/w".to_vec()));
    assert_eq!(normalize(b"/..", b"/w"), None);
}

#[test]
fn paths() {
    assert!(is_absolute(b"/a") && !is_absolute(b"a"));
    assert_eq!(join(b"a", b"b"), b"a/b".to_vec());
    assert_eq!(join(b"a/", b"b"), b"a/b".to_vec());
    assert_eq!(join(b"a", b"/b"), b"/b".to_vec());
    assert_eq!(join(b"", b"b"), b"b".to_vec());
    assert_eq!(parent(b"a/b"), Some(&b"a"[..]));
    assert_eq!(parent(b"a"), Some(&b""[..]));
    assert_eq!(parent(b"/"), None);
    assert_eq!(file_name(b"a/b/"), Some(&b"b"[..]));
    assert_eq!(file_name(b"a/.."), None);
    assert!(is_current_dir(b"."));
    assert_eq!(ancestors(b"/a/b"), vec![b"/a".to_vec(), b"/".to_vec()]);
    assert_eq!(with_extension(b"a/p.idx", b"pack"), b"a/p.pack".to_vec());
    assert_eq!(extension(b"a/p.idx"), Some(&b"idx"[..]));
    assert_eq!(extension(b"a/.hidden"), None);
}

#[test]
fn too_many_stars_match_nothing() {
    assert!(wildmatch(&b"*a".repeat(63), &b"a".repeat(63), PLAIN));
    assert!(!wildmatch(&b"*a".repeat(70), &b"a".repeat(70), PLAIN));
}
