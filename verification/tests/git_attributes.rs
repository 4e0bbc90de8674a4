use helix_ext::git::attributes::line::{
    bytes_to_patterns, check_attr, parse_attr, parse_line, Assignment, Kind, StackState,
};
use helix_ext::git::attributes::search::{Attributes, MetadataCollection, Outcome, Search};
use helix_ext::git::config::file::GitConfigurationFile;
use helix_ext::git::config::parse::Events;
use helix_ext::git::error::GitError;
use helix_ext::git::filter::{
    attribute_names, encode_to_worktree, eol_convert_to_worktree, extract_digest, hx_apply, hx_convert_to_worktree,
    try_into_autocrlf, AttributesDigest, Configuration, Driver, EolAutoCrlf, EolConfiguration, EolMode, MaybeDelayed,
    Stats, ToWorktreeOutcome,
};
use helix_ext::git::pipeline::Pipeline;

fn globals(text: &[u8]) -> (Search, MetadataCollection) {
    let mut search = Search::new();
    let mut collection = MetadataCollection::new();
    search.add_builtin(&mut collection);
    search.add_patterns_buffer(text, b"/etc/gitattributes".to_vec(), None, &mut collection, true);
    (search, collection)
}

fn asked(collection: &MetadataCollection, names: &[&str]) -> Outcome {
    let mut o = Outcome::new();
    o.initialize_with_selection(collection, names.iter().map(|n| n.as_bytes().to_vec()).collect());
    o
}

#[test]
fn words_are_read_back() {
    for word in [&b"text"[..], b"-text", b"!text", b"eol=crlf"] {
        assert_eq!(parse_attr(word).unwrap().to_word(), word.to_vec());
    }
    assert!(matches!(parse_attr(b"-text").unwrap().state, StackState::Off));
    assert!(matches!(parse_attr(b"!text").unwrap().state, StackState::Unspecified));
    assert!(matches!(parse_attr(b"a=b=c").unwrap().state, StackState::Value(v) if v == b"b=c"));
    assert!(matches!(parse_attr(b"b@d"), Err(GitError::Gen)));
    assert!(check_attr(b"ok-1.x_y").is_ok());
    assert!(check_attr(b"-no").is_err());
    let a = Assignment { name: b"x".to_vec(), state: StackState::Value(b"y".to_vec()) };
    assert_eq!(a.to_text(), "x=y");
    assert_eq!(a.copy().to_word(), b"x=y".to_vec());
    assert!(StackState::On.is_set() && !StackState::Off.is_set());
}

#[test]
fn lines_of_attributes() {
    assert!(parse_line(b"").is_none());
    assert!(parse_line(b"  # comment").is_none());
    match parse_line(b"*.c text eol=lf") {
        Some(Ok((Kind::Pattern(p), rest))) => {
            assert_eq!(p.text, b"*.c".to_vec());
            assert_eq!(rest.trim_ascii(), b"text eol=lf");
        },
        _ => panic!("a pattern"),
    }
    match parse_line(b"[attr]binary -diff") {
        Some(Ok((Kind::Macro(name), _))) => assert_eq!(name, b"binary".to_vec()),
        _ => panic!("a macro"),
    }
    match parse_line(b"\"with space\" text") {
        Some(Ok((Kind::Pattern(p), _))) => assert_eq!(p.text, b"with space".to_vec()),
        _ => panic!("a quoted pattern"),
    }
    assert!(matches!(parse_line(b"!neg text"), Some(Err(GitError::Gen))));
    assert!(matches!(parse_line(b"[attr]@ x"), Some(Err(GitError::Gen))));
    let lines = bytes_to_patterns(b"*.c text\n\n!bad x\n*.h b@d\n[attr]m a\n*.o -text\n");
    let numbers: Vec<usize> = lines.iter().map(|m| m.sequence_number).collect();
    assert_eq!(numbers, vec![1, 5, 6]);
    assert!(lines[1].is_macro);
}

#[test]
fn later_lines_and_macros() {
    let (search, collection) = globals(b"*.c text\nsub/*.c -text\n*.bin binary\n*.x eol=crlf\n*.x !eol\n");
    let at = |path: &[u8], name: &str| {
        let mut o = asked(&collection, &[name]);
        search.pattern_matching_relative_path(path, Some(false), &mut o);
        o.selected_state(0)
    };
    assert!(matches!(at(b"a.c", "text"), StackState::On));
    assert!(matches!(at(b"sub/a.c", "text"), StackState::Off));
    assert!(matches!(at(b"a.bin", "text"), StackState::Off));
    assert!(matches!(at(b"a.bin", "binary"), StackState::On));
    assert!(matches!(at(b"a.bin", "diff"), StackState::Off));
    assert!(matches!(at(b"a.x", "eol"), StackState::Unspecified));
    assert!(matches!(at(b"a.y", "eol"), StackState::Unspecified));
}

#[test]
fn found_attributes_stay() {
    let (search, collection) = globals(b"*.c text\n*.c eol=lf\n* -text\n");
    let mut o = asked(&collection, &["text", "eol"]);
    assert!(search.pattern_matching_relative_path(b"a.c", None, &mut o));
    assert!(matches!(o.selected_state(0), StackState::Off));
    assert!(matches!(o.selected_state(1), StackState::Value(v) if v == b"lf"));
    assert!(o.is_done());
    o.initialize(&collection);
    assert!(!o.is_done());
    assert!(matches!(o.selected_state(0), StackState::Unspecified));
}

#[test]
fn files_below_a_directory() {
    let mut search = Search::new();
    let mut collection = MetadataCollection::new();
    search.add_patterns_buffer(
        b"/a.c text\n[attr]m x\n",
        b"sub/.gitattributes".to_vec(),
        Some(b"sub/".to_vec()),
        &mut collection,
        false,
    );
    let mut o = asked(&collection, &["text"]);
    assert!(!search.pattern_matching_relative_path(b"a.c", None, &mut o));
    assert!(search.pattern_matching_relative_path(b"sub/a.c", None, &mut o));
    assert_eq!(collection.number_of(b"m"), None);
    assert_eq!(collection.number_of(b"text"), Some(0));
}

const CRLF: EolConfiguration = EolConfiguration { auto_crlf: EolAutoCrlf::Enabled };
const NONE: EolConfiguration = EolConfiguration { auto_crlf: EolAutoCrlf::Disabled };
const INPUT: EolConfiguration = EolConfiguration { auto_crlf: EolAutoCrlf::Input };

#[test]
fn counts_of_contents() {
    let s = Stats::from_bytes(b"a\r\nb\nc\rd\0");
    assert_eq!((s.crlf, s.lone_lf, s.lone_cr, s.null), (1, 1, 1, 1));
    assert!(s.is_binary());
    let t = Stats::from_bytes(b"plain text\n");
    assert!(!t.is_binary());
    assert!(t.will_convert_lf_to_crlf(AttributesDigest::TextCrlf, NONE));
    assert!(!t.will_convert_lf_to_crlf(AttributesDigest::Text, NONE));
    assert_eq!(t.printable, 10);
}

#[test]
fn line_ends() {
    let convert = |s: &[u8], d: AttributesDigest, c: EolConfiguration| eol_convert_to_worktree(s, d, c);
    assert_eq!(convert(b"a\nb\n", AttributesDigest::TextCrlf, NONE), Some(b"a\r\nb\r\n".to_vec()));
    assert_eq!(convert(b"a\nb\n", AttributesDigest::Text, CRLF), Some(b"a\r\nb\r\n".to_vec()));
    assert_eq!(convert(b"a\nb\n", AttributesDigest::Text, INPUT), None);
    assert_eq!(convert(b"a\r\nb\n", AttributesDigest::TextAuto, CRLF), None);
    assert_eq!(convert(b"a\0\nb\n", AttributesDigest::TextAuto, CRLF), None);
    assert_eq!(convert(b"a\nb\n", AttributesDigest::Binary, CRLF), None);
    assert_eq!(convert(b"a\r\nb\n", AttributesDigest::TextCrlf, NONE), Some(b"a\r\nb\r\n".to_vec()));
    let once = convert(b"a\nb\r\n\n", AttributesDigest::TextCrlf, NONE).unwrap();
    assert_eq!(once, b"a\r\nb\r\n\r\n".to_vec());
    assert_eq!(convert(&once, AttributesDigest::TextCrlf, NONE), None);
    assert_eq!(CRLF.to_eol(), EolMode::CrLf);
    assert_eq!(INPUT.to_eol(), EolMode::Lf);
    assert_eq!(AttributesDigest::TextInput.to_eol(CRLF), Some(EolMode::Lf));
    assert_eq!(AttributesDigest::Binary.to_eol(CRLF), None);
    assert!(AttributesDigest::TextAutoCrlf.is_auto_text());
}

#[test]
fn configured_line_ends() {
    assert_eq!(try_into_autocrlf(b"input").unwrap(), EolAutoCrlf::Input);
    assert_eq!(try_into_autocrlf(b"yes").unwrap(), EolAutoCrlf::Enabled);
    assert_eq!(try_into_autocrlf(b"false").unwrap(), EolAutoCrlf::Disabled);
    assert!(matches!(try_into_autocrlf(b"sometimes"), Err(GitError::Gen)));
    let value = |v: &[u8]| StackState::Value(v.to_vec());
    let none = StackState::Unspecified;
    assert_eq!(extract_digest(&none, &none, &StackState::On, NONE), AttributesDigest::TextInput);
    assert_eq!(extract_digest(&none, &none, &StackState::On, CRLF), AttributesDigest::TextCrlf);
    assert_eq!(extract_digest(&none, &value(b"crlf"), &StackState::On, NONE), AttributesDigest::TextCrlf);
    assert_eq!(extract_digest(&none, &value(b"lf"), &none, NONE), AttributesDigest::TextInput);
    assert_eq!(extract_digest(&none, &none, &value(b"auto"), NONE), AttributesDigest::TextAuto);
    assert_eq!(extract_digest(&none, &none, &StackState::Off, CRLF), AttributesDigest::Binary);
    assert_eq!(extract_digest(&StackState::Off, &none, &none, CRLF), AttributesDigest::Binary);
    assert_eq!(extract_digest(&none, &none, &none, CRLF), AttributesDigest::TextAutoCrlf);
    assert_eq!(extract_digest(&none, &none, &none, INPUT), AttributesDigest::TextAutoInput);
    assert_eq!(extract_digest(&none, &none, &none, NONE), AttributesDigest::Binary);
}

#[test]
fn ids_in_contents() {
    let out = hx_apply(b"a $Id$ b").unwrap().unwrap();
    let id = helix_ext::git::object::hx_compute_hash(helix_ext::git::object::ObjectKind::Blob, b"a $Id$ b").unwrap();
    assert_eq!(out, format!("a $Id: {}$ b", id.as_oid().to_hex()).into_bytes());
    assert_eq!(hx_apply(b"nothing").unwrap(), None);
}

#[test]
fn encodings_of_contents() {
    assert_eq!(encode_to_worktree("h\u{e9}".as_bytes(), b"latin1").unwrap(), b"h\xe9".to_vec());
    assert!(matches!(encode_to_worktree(b"\xff", b"latin1"), Err(GitError::Gen)));
    assert!(encode_to_worktree(b"a", b"no-such-label").is_err());
    assert!(encode_to_worktree("\u{4e00}".as_bytes(), b"latin1").is_err());
}

#[test]
fn conversions() {
    let c = Configuration {
        driver: None,
        digest: AttributesDigest::TextCrlf,
        encoding: Some(b"latin1".to_vec()),
        apply_ident_filter: false,
    };
    match hx_convert_to_worktree("\u{e9}\n".as_bytes(), &c, NONE) {
        Ok(ToWorktreeOutcome::Buffer(b)) => assert_eq!(b, b"\xe9\r\n".to_vec()),
        _ => panic!("a buffer"),
    }
    let plain = Configuration { driver: None, digest: AttributesDigest::Binary, encoding: None, apply_ident_filter: false };
    match hx_convert_to_worktree(b"a\n", &plain, CRLF) {
        Ok(o) => {
            assert!(matches!(o, ToWorktreeOutcome::Unchanged(b"a\n")));
            assert_eq!(o.bytes(), b"a\n");
        },
        Err(_) => panic!(),
    }
    let driven = Configuration { driver: Some(0), ..plain };
    assert!(matches!(hx_convert_to_worktree(b"a\n", &driven, CRLF),
        Ok(ToWorktreeOutcome::Process(MaybeDelayed::Immediate(b))) if b.is_empty()));
    let bad = Configuration { driver: None, encoding: Some(b"latin1".to_vec()), ..driven };
    assert!(matches!(hx_convert_to_worktree("\u{4e00}".as_bytes(), &bad, CRLF), Err(GitError::Gen)));
}

fn pipeline(attributes: &[u8], config: &[u8]) -> Pipeline {
    let (search, collection) = globals(attributes);
    let file = GitConfigurationFile::from_parse_events_no_includes(Events::from_bytes(config).unwrap(), None);
    Pipeline::new(b"/w".to_vec(), Attributes::new(search, collection), &file)
}

#[test]
fn contents_for_the_worktree() {
    let attributes = b"*.c text\n*.bin binary\n*.l working-tree-encoding=latin1\n*.bad working-tree-encoding\n\
*.f filter=lfs\n*.g filter=other\n";
    let mut p = pipeline(attributes, b"[core]\n\tautocrlf = true\n[filter \"lfs\"]\n\tclean = x\n[filter]\n");
    assert_eq!(p.drivers.len(), 1);
    assert_eq!(p.eol_config, CRLF);
    assert_eq!(p.helix_pipeline_convert_to_worktree(b"a\n", b"src/a.c").unwrap().bytes(), b"a\r\n");
    assert_eq!(p.helix_pipeline_convert_to_worktree(b"a\n", b"a.bin").unwrap().bytes(), b"a\n");
    assert_eq!(p.helix_pipeline_convert_to_worktree("\u{e9}".as_bytes(), b"x.l").unwrap().bytes(), b"\xe9");
    assert!(matches!(p.helix_pipeline_convert_to_worktree(b"a", b"x.bad"), Err(GitError::Gen)));
    assert!(matches!(p.helix_pipeline_convert_to_worktree(b"a", b"x.f"), Ok(ToWorktreeOutcome::Process(_))));
    assert!(matches!(p.helix_pipeline_convert_to_worktree(b"a", b"x.g"), Ok(ToWorktreeOutcome::Unchanged(b"a"))));
    let q = pipeline(b"", b"[core]\n\tautocrlf = sometimes\n");
    assert_eq!(q.eol_config, NONE);
}

#[test]
fn attributes_of_paths() {
    let (search, collection) = globals(b"*.c crlf=input ident\n");
    let mut o = Outcome::new();
    o.initialize_with_selection(&collection, attribute_names());
    let a = Attributes::new(search, collection);
    assert!(a.hx_matching_attributes(b"x.c", Some(false), &mut o));
    let c = Configuration::at_path(&vec![Driver { name: b"x".to_vec() }], &o, CRLF).unwrap();
    assert_eq!(c.digest, AttributesDigest::TextInput);
    assert!(c.apply_ident_filter);
    assert!(c.driver.is_none() && c.encoding.is_none());
    assert!(!a.hx_matching_attributes(b"x.h", Some(false), &mut o));
}
