use helix_ext::globset::error::{Error, ErrorKind};
use helix_ext::globset::glob::{Glob, GlobBuilder, MatchStrategy};
use helix_ext::globset::set::{Candidate, GlobSet, GlobSetBuilder};
use helix_ext::globset::table::{Hasher, Table};

fn glob(text: &str) -> Glob {
    match Glob::new(text) {
        Ok(g) => g,
        Err(_) => panic!("{} is a glob", text),
    }
}

fn error(text: &str) -> Error {
    match Glob::new(text) {
        Ok(_) => panic!("{} is no glob", text),
        Err(e) => e,
    }
}

fn set(texts: &[&str]) -> GlobSet {
    let mut builder = GlobSetBuilder::new();
    for text in texts {
        builder.add(glob(text));
    }
    match builder.build() {
        Ok(s) => s,
        Err(_) => panic!("the set can be built"),
    }
}

#[test]
fn regular_expressions_of_globs() {
    assert_eq!(glob("*.rs").regex(), "(?-u)^.*\\.rs$");
    assert_eq!(glob("a?c").regex(), "(?-u)^a.c$");
    assert_eq!(glob("**/a").regex(), "(?-u)^(?:/?|.*/)a$");
    assert_eq!(glob("a/**").regex(), "(?-u)^a/.*$");
    assert_eq!(glob("a/**/b").regex(), "(?-u)^a(?:/|/.*/)b$");
    assert_eq!(glob("[a-c]").regex(), "(?-u)^[a-c]$");
    assert_eq!(glob("[!a]").regex(), "(?-u)^[^a]$");
    assert_eq!(glob("{a,b}").regex(), "(?-u)^(?:a|b)$");
    assert_eq!(glob("").regex(), "(?-u)^$");
    assert_eq!(glob("*.rs").glob(), "*.rs");
}

#[test]
fn options_change_the_regular_expression() {
    let mut b = GlobBuilder::new("a*b?");
    b.case_insensitive(true).literal_separator(true);
    match b.build() {
        Ok(g) => assert_eq!(g.regex(), "(?-u)(?i)^a[^/]*b[^/]$"),
        Err(_) => panic!(),
    }
    let mut b = GlobBuilder::new("a\\b");
    b.backslash_escape(false);
    match b.build() {
        Ok(g) => assert_eq!(g.regex(), "(?-u)^a\\\\b$"),
        Err(_) => panic!(),
    }
    let mut b = GlobBuilder::new("a{,b}");
    b.empty_alternates(true);
    match b.build() {
        Ok(g) => assert_eq!(g.regex(), "(?-u)^a(?:|b)$"),
        Err(_) => panic!(),
    }
    let mut b = GlobBuilder::new("a[b");
    b.allow_unclosed_class(true);
    match b.build() {
        Ok(g) => assert_eq!(g.regex(), "(?-u)^a\\[b$"),
        Err(_) => panic!(),
    }
}

#[test]
fn errors_of_globs() {
    assert!(matches!(error("a[b").kind(), ErrorKind::UnclosedClass));
    assert!(matches!(error("[z-a]").kind(), ErrorKind::InvalidRange('z', 'a')));
    assert!(matches!(error("a}").kind(), ErrorKind::UnopenedAlternates));
    assert!(matches!(error("{a").kind(), ErrorKind::UnclosedAlternates));
    assert!(matches!(error("a\\").kind(), ErrorKind::DanglingEscape));
    assert_eq!(error("[z-a]").to_text(), "error parsing glob '[z-a]': invalid range; 'z' > 'a'");
    assert_eq!(error("[z-a]").kind().description(), "invalid character range");
    assert_eq!(
        error("a[b").to_text(),
        "error parsing glob 'a[b': unclosed character class; missing ']'"
    );
    assert_eq!(ErrorKind::Regex("too large".to_string()).to_text(), "too large");
}

#[test]
fn strategies_of_globs() {
    assert!(matches!(MatchStrategy::new(&glob("**/main.rs")), MatchStrategy::BasenameLiteral(s) if s == "main.rs"));
    assert!(matches!(MatchStrategy::new(&glob("src/main.rs")), MatchStrategy::Literal(s) if s == "src/main.rs"));
    assert!(matches!(MatchStrategy::new(&glob("*.rs")), MatchStrategy::Extension(s) if s == ".rs"));
    assert!(matches!(MatchStrategy::new(&glob("src/**")), MatchStrategy::Prefix(s) if s == "src/"));
    assert!(matches!(
        MatchStrategy::new(&glob("**/src/main.rs")),
        MatchStrategy::Suffix { suffix, component: true } if suffix == "/src/main.rs"
    ));
    assert!(matches!(MatchStrategy::new(&glob("a?b.rs")), MatchStrategy::RequiredExtension(s) if s == ".rs"));
    assert!(matches!(MatchStrategy::new(&glob("a?b*")), MatchStrategy::Regex));
}

#[test]
fn strategy_and_tokens_agree() {
    let paths: [&[u8]; 5] = [b"src/main.rs", b"main.rs", b"src/main.c", b"x/src/main.rs", b"src/"];
    for text in ["**/main.rs", "src/main.rs", "*.rs", "src/**", "**/src/main.rs", "src/m*n.rs"] {
        let g = glob(text);
        let m = match g.compile_matcher() {
            Some(m) => m,
            None => panic!("{} can be compiled", text),
        };
        assert_eq!(m.glob().glob(), text);
        let s = set(&[text]);
        for p in paths {
            assert_eq!(s.is_match(p), m.is_match(p), "{} on {:?}", text, p);
        }
    }
}

#[test]
fn set_gives_all_patterns_that_match() {
    let s = set(&["*.rs", "src/**", "**/main.rs", "a?n.c", "main.*", "**/src/main.rs"]);
    assert_eq!(s.matches(b"src/main.rs"), vec![0, 1, 2, 5]);
    assert_eq!(s.matches(b"main.rs"), vec![0, 2, 4]);
    assert_eq!(s.matches(b"axn.c"), vec![3]);
    assert_eq!(s.matches(b"other"), Vec::<usize>::new());
    assert!(!s.is_match(b"other"));
    for path in [&b"src/main.rs"[..], b"main.rs", b"axn.c", b"other", b""] {
        assert_eq!(s.is_match(path), !s.matches(path).is_empty());
    }
    assert!(s.is_match(b"axn.c"));
    let mut out = vec![9];
    s.matches_into(b"axn.c", &mut out);
    assert_eq!(out, vec![3]);
    let c = Candidate::new(b"main.rs");
    s.matches_candidate_into(&c, &mut out);
    assert_eq!(out, vec![0, 2, 4]);
    assert!(s.is_match_candidate(&c));
    assert!(!s.is_empty());
}

#[test]
fn empty_set_matches_nothing() {
    let s = GlobSet::empty();
    assert!(s.is_empty());
    assert!(!s.is_match(b"a"));
    assert_eq!(s.matches(b"a"), Vec::<usize>::new());
    match GlobSet::builder().build() {
        Ok(s) => assert!(s.is_empty()),
        Err(_) => panic!(),
    }
}

#[test]
fn case_is_ignored_where_it_is_asked_for() {
    let mut b = GlobBuilder::new("Read*.MD");
    b.case_insensitive(true);
    let g = match b.build() {
        Ok(g) => g,
        Err(_) => panic!(),
    };
    let copy = g.copy();
    assert!(copy.eq_glob(&g));
    assert!(!copy.eq_glob(&glob("Read*.MD")));
    let mut builder = GlobSetBuilder::new();
    builder.add(g);
    match builder.build() {
        Ok(s) => {
            assert!(s.is_match(b"readme.md"));
            assert!(!s.is_match(b"readme.txt"));
        },
        Err(_) => panic!(),
    }
}

#[test]
fn parts_of_globs() {
    assert_eq!(glob("src/main.rs").literal(), Some("src/main.rs".to_string()));
    assert_eq!(glob("*.rs").literal(), None);
    assert_eq!(glob("**/*.rs").ext(), Some(".rs".to_string()));
    assert_eq!(glob("**/*a.rs").ext(), None);
    assert_eq!(glob("a*.rs").required_ext(), Some(".rs".to_string()));
    assert_eq!(glob("src/*").prefix(), Some("src/".to_string()));
    assert_eq!(glob("*/main.rs").suffix(), Some(("/main.rs".to_string(), false)));
    assert_eq!(glob("**/main.rs").basename_literal(), Some("main.rs".to_string()));
    assert_eq!(glob("**/src/main.rs").basename_tokens(), None);
}

#[test]
fn globs_have_the_options_of_a_builder() {
    let g = Glob::new("a/**/b").unwrap();
    assert_eq!(g.regex(), "(?-u)^a(?:/|/.*/)b$");
    assert!(g.eq_glob(&GlobBuilder::new("a/**/b").build().unwrap()));
    assert_eq!(Glob::new("**/foo/bar").unwrap().suffix(), Some(("/foo/bar".to_string(), true)));
    assert_eq!(Glob::new("**/foo").unwrap().basename_literal(), Some("foo".to_string()));
    assert_eq!(Glob::new("foo").unwrap().basename_literal(), None);
    assert_eq!(Glob::new("**/foo/bar").unwrap().basename_literal(), None);
}

#[test]
fn hash_of_bytes() {
    let mut h = Hasher::new();
    assert_eq!(h.finish(), 0xcbf29ce484222325);
    h.write(b"a");
    assert_eq!(h.finish(), 0xaf63dc4c8601ec8c);
    let mut h = Hasher::new();
    h.write(b"foobar");
    assert_eq!(h.finish(), 0x85944171f73967e8);
}

#[test]
fn table_keeps_the_order_of_insertion() {
    let mut t = Table::new();
    assert!(t.is_empty());
    t.insert(b"rs", 3);
    t.insert(b"c", 1);
    t.insert(b"rs", 2);
    let mut out = Vec::new();
    t.extend_hits(b"rs", &mut out);
    assert_eq!(out, vec![3, 2]);
    assert!(t.contains_key(b"c"));
    assert!(!t.contains_key(b"h"));
    assert!(!t.is_empty());
}

#[test]
fn sets_without_regular_expressions_are_built() {
    let s = set(&["src/*", "**/a/b", "*/main.rs", "*.toml"]);
    assert_eq!(s.matches(b"src/x/y"), vec![0]);
    assert_eq!(s.matches(b"x/a/b"), vec![1]);
    assert_eq!(s.matches(b"a/b"), vec![1]);
    assert_eq!(s.matches(b"src/main.rs"), vec![0, 2]);
    assert_eq!(s.matches(b"src/Cargo.toml"), vec![0, 3]);
    assert!(s.matches(b"a").is_empty());
}

#[test]
fn expressions_that_are_too_large() {
    let long = "a".repeat(1_000_000);
    let with_extension = glob(&format!("?{}.rs", long));
    assert!(matches!(MatchStrategy::new(&with_extension), MatchStrategy::RequiredExtension(e) if e == ".rs"));
    assert!(with_extension.compile_matcher().is_none());
    let mut builder = GlobSetBuilder::new();
    builder.add(glob("a?b"));
    builder.add(glob(&format!("?{}.rs", long)));
    match builder.build() {
        Ok(_) => panic!("the expression is too large"),
        Err(e) => {
            assert!(matches!(e.kind, ErrorKind::Regex(_)));
            assert_eq!(e.glob, Some(with_extension.regex().to_string()));
        },
    }
    let mut builder = GlobSetBuilder::new();
    builder.add(glob(&format!("?{}?", long)));
    assert!(matches!(builder.build(), Err(Error { glob: None, kind: ErrorKind::Regex(_) })));
}

#[test]
fn matchers_agree_with_sets() {
    let texts = ["*.rs", "foo/**", "**/foo", "foo/*.c", "**/a/b", "a?b", "{x,y}.toml", "foo"];
    let s = set(&texts);
    for path in [".rs", "x.rs", "foo", "foo/", "foo/x.c", "d/foo", "q/a/b", "axb", "x.toml", "d/.rs", "foo/y/z.rs"] {
        let path = path.as_bytes();
        let alone: Vec<usize> = (0..texts.len())
            .filter(|i| glob(texts[*i]).compile_matcher().is_some_and(|m| m.is_match(path)))
            .collect();
        assert_eq!(s.matches(path), alone);
    }
}
