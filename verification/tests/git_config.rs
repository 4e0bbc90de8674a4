use helix_ext::git::config::body::{
    assign, contains_str, ends_with_newline, extract_newline, hx_value_implicit, value, values, Whitespace,
};
use helix_ext::git::config::file::{merge, GitConfigurationFile};
use helix_ext::git::config::follow::{
    gather_paths, gitdir_matches, include_condition_match, section_condition, Condition, FileIncludesOptions,
};
use helix_ext::git::config::inclusion::{Answers, Inclusion, NamedFile, Question, Stop};
use helix_ext::git::config::parse;
use helix_ext::git::config::parse::{parse_from_bytes, Event, Events, SectionHeader};
use helix_ext::git::config::source::{
    first_file_from_config_with_origin, global_paths, system_attributes, xdg_config, Environment, Source,
};
use helix_ext::git::config::value::{
    escape_subsection, escape_value, is_valid_name, is_valid_subsection, is_valid_value_name, normalize, rfind_byte,
    Boolean, ConfigPath, Interpolation, InterpolationContext, KeyRef,
};
use helix_ext::git::error::GitError;

fn file(text: &[u8]) -> GitConfigurationFile {
    GitConfigurationFile::from_parse_events_no_includes(Events::from_bytes(text).unwrap(), Some(b"/etc/x"))
}

#[test]
fn values_of_keys() {
    let f = file(
        b"[core]\n\tautocrlf = input\n[Core]\n\tAutoCRLF = \"true\" ; why\n[filter \"lfs\"]\n\tclean = a b  \n[x]\n\tflag\n",
    );
    assert_eq!(f.hx_string_filter(b"core.autocrlf"), Some(b"true".to_vec()));
    assert_eq!(f.hx_string_filter(b"CORE.AUTOCRLF"), Some(b"true".to_vec()));
    assert_eq!(f.hx_string_filter(b"filter.lfs.clean"), Some(b"a b".to_vec()));
    assert_eq!(f.hx_string_filter(b"filter.LFS.clean"), None);
    assert_eq!(f.hx_string_filter(b"x.flag"), None);
    assert_eq!(f.hx_string_filter(b"nothing"), None);
    assert!(matches!(f.hx_raw_value_filter_by(b"x", None, b"missing"), Err(GitError::KeyMissing)));
    assert_eq!(f.section_ids_by_name(b"core").unwrap().len(), 2);
    assert!(matches!(f.section_ids_by_name(b"y"), Err(GitError::Gen)));
    assert_eq!(f.hx_section_ids_by_name_and_subname(b"filter", Some(b"lfs")).unwrap().len(), 1);
    assert!(f.hx_section_ids_by_name_and_subname(b"filter", None).is_err());
    assert_eq!(f.len(), 4);
    assert_eq!(f.section(2).header.subsection_name, Some(b"lfs".to_vec()));
}

#[test]
fn values_over_lines() {
    let f = file(b"[a]\n\tb = one \\\n two\n\tc = \"x\\ty\\\"z\" # c\n\td=e;f\n");
    assert_eq!(f.hx_string_filter(b"a.b"), Some(b"one  two".to_vec()));
    assert_eq!(f.hx_string_filter(b"a.c"), Some(b"x\ty\"z".to_vec()));
    assert_eq!(f.hx_string_filter(b"a.d"), Some(b"e".to_vec()));
}

#[test]
fn written_parts_are_read() {
    for v in [&b""[..], b"plain", b" a ; b # c\"\\", b"two\nlines\t"] {
        let mut text = escape_value(v);
        let n = text.len();
        text.push(b'\n');
        let mut out = Vec::new();
        assert_eq!(parse::value(&text, 0, &mut out), Some(n));
        assert!(matches!(&out[..], [Event::Value(x)] if x[..] == text[..n]));
        assert_eq!(normalize(&text[..n]), v.to_vec());
    }
    for sub in [None, Some(b"a \"b\" \\".to_vec())] {
        let h = SectionHeader::new(b"na-me".to_vec(), sub.clone()).unwrap();
        let text = h.to_bstring();
        let (back, n) = parse::section_header(&text, 0).unwrap();
        assert_eq!((back.name, back.subsection_name, n), (b"na-me".to_vec(), sub, text.len()));
    }
}

#[test]
fn sections_are_listed_in_order() {
    let mut f = file(b"[a]\n[b]\n[a]\n");
    let more = file(b"[A]\n").section(0).copy();
    assert_eq!(f.insert_section_after(more, 0), 3);
    assert_eq!(f.section_order(), vec![0, 3, 1, 2]);
    assert_eq!(f.hx_section_ids_by_name_and_subname(b"a", None).unwrap(), vec![0, 3, 2]);
    assert_eq!(f.hx_section_ids_by_name_and_subname(b"b", None).unwrap(), vec![1]);
}

#[test]
fn files_that_cannot_be_read() {
    assert!(matches!(Events::from_bytes(b"[a"), Err(GitError::Gen)));
    assert!(Events::from_bytes(b"[a]\n1x = y\n").is_err());
    assert!(Events::from_bytes(b"[]\n").is_err());
    assert!(Events::from_bytes(b"[a \"b]\n").is_err());
    assert!(Events::from_bytes(b"\xef\xbb\xbf[a]\nb = c\n").is_ok());
    let mut out = Vec::new();
    parse_from_bytes(b"# top\n[a]\n\tb\n", &mut out).unwrap();
    assert!(matches!(&out[0], Event::Comment { tag: b'#', text } if text == b" top"));
    assert!(matches!(&out[2], Event::SectionHeader(h) if h.name == b"a"));
    let text: Vec<u8> = out.iter().flat_map(|e| e.to_bstr_lossy()).collect();
    assert_eq!(text, b" top\na\n\tb\n".to_vec());
}

#[test]
fn headers_are_read_back() {
    for (name, sub) in [("core", None), ("filter", Some("lfs")), ("a", Some("with \"quotes\" and \\"))] {
        let h = SectionHeader::new(name.as_bytes().to_vec(), sub.map(|s| s.as_bytes().to_vec())).unwrap();
        let mut text = h.to_bstring();
        text.extend_from_slice(b"\n\tk = v\n");
        let events = Events::from_bytes(&text).unwrap();
        assert_eq!(events.sections.len(), 1);
        assert_eq!(events.sections[0].header.name, name.as_bytes().to_vec());
        assert_eq!(events.sections[0].header.subsection_name, sub.map(|s| s.as_bytes().to_vec()));
    }
    assert!(matches!(SectionHeader::new(b"a b".to_vec(), None), Err(GitError::Gen)));
    assert!(SectionHeader::new(b"a".to_vec(), Some(b"x\ny".to_vec())).is_err());
    assert_eq!(escape_subsection(b"a\"b\\c"), b"a\\\"b\\\\c".to_vec());
    let dotted = Events::from_bytes(b"[a.b]\n").unwrap();
    assert_eq!(dotted.sections[0].header.name, b"a".to_vec());
    assert_eq!(dotted.sections[0].header.subsection_name, Some(b"b".to_vec()));
}

#[test]
fn names_in_files() {
    assert!(is_valid_name(b"core-1") && !is_valid_name(b"") && !is_valid_name(b"a.b"));
    assert!(is_valid_value_name(b"a-1") && !is_valid_value_name(b"1a"));
    assert!(is_valid_subsection(b"a b") && !is_valid_subsection(b"a\nb"));
}

#[test]
fn values_are_read_back() {
    for v in [&b"plain"[..], b" leading", b"trailing ", b"a;b#c", b"tab\tquote\"back\\line\nend", b""] {
        let escaped = escape_value(v);
        assert_eq!(normalize(&escaped), v.to_vec());
        let mut text = b"[a]\n\tb = ".to_vec();
        text.extend_from_slice(&escaped);
        text.push(b'\n');
        assert_eq!(file(&text).hx_string_filter(b"a.b"), Some(v.to_vec()));
    }
    assert_eq!(escape_value(b" x"), b"\" x\"".to_vec());
    assert_eq!(escape_value(b"a\tb"), b"a\\tb".to_vec());
    assert_eq!(normalize(b"\"a\"b\"c\""), b"abc".to_vec());
}

#[test]
fn truth_of_values() {
    for v in [&b"yes"[..], b"ON", b"True", b"1", b"-5"] {
        assert!(Boolean::try_from_bytes(v).unwrap().0);
    }
    for v in [&b"no"[..], b"off", b"FALSE", b"0", b""] {
        assert!(!Boolean::try_from_bytes(v).unwrap().0);
    }
    assert!(matches!(Boolean::try_from_bytes(b"maybe"), Err(GitError::Gen)));
}

#[test]
fn keys_in_parts() {
    let k = KeyRef::hx_parse_unvalidated(b"filter.a.b.clean").unwrap();
    assert_eq!(k.section_name, b"filter");
    assert_eq!(k.subsection_name, Some(&b"a.b"[..]));
    assert_eq!(k.value_name, b"clean");
    let k = KeyRef::hx_parse_unvalidated(b"core.autocrlf").unwrap();
    assert_eq!(k.subsection_name, None);
    assert!(KeyRef::hx_parse_unvalidated(b"core").is_none());
    assert_eq!(rfind_byte(b"a.b.c", b'.'), Some(3));
}

#[test]
fn assigned_values_are_found() {
    let mut f = file(b"[core]\n\ta = 1\n");
    f.section_push(b"core", None, b"b".to_vec(), Some(b" two ")).unwrap();
    f.section_push(b"remote", Some(b"origin"), b"url".to_vec(), Some(b"x")).unwrap();
    assert_eq!(f.hx_string_filter(b"core.a"), Some(b"1".to_vec()));
    assert_eq!(f.hx_string_filter(b"core.b"), Some(b" two ".to_vec()));
    assert_eq!(f.hx_string_filter(b"remote.origin.url"), Some(b"x".to_vec()));
    assert!(f.section_push(b"bad name", None, b"b".to_vec(), None).is_err());
    let pairs = vec![(b"a.b".to_vec(), b"1".to_vec()), (b"a.b".to_vec(), b"2".to_vec())];
    let g = GitConfigurationFile::from_pairs(&pairs).unwrap();
    assert_eq!(g.hx_string_filter(b"a.b"), Some(b"2".to_vec()));
    assert!(matches!(GitConfigurationFile::from_pairs(&vec![(b"ab".to_vec(), Vec::new())]), Err(GitError::Gen)));
    let mut events = Vec::new();
    assign(&mut events, b"k".to_vec(), Some(b"v w"), b"\n");
    assert_eq!(value(&events, b"K"), Some(b"v w".to_vec()));
    assert_eq!(values(&events, b"k"), vec![b"v w".to_vec()]);
    assert_eq!(hx_value_implicit(&events, b"k"), Some(Some(b"v w".to_vec())));
    assert_eq!(value(&events, b"other"), None);
}

#[test]
fn style_of_files() {
    assert_eq!(file(b"[a]\r\n\tb = c\r\n").detect_newline_style(), b"\r\n".to_vec());
    assert_eq!(file(b"[a]\n").detect_newline_style(), b"\n".to_vec());
    let events = Events::from_bytes(b"[a]\n  b= c\n").unwrap();
    let body = &events.sections[0].events;
    let w = Whitespace::from_body(body);
    assert_eq!(w.pre_key, Some(b"  ".to_vec()));
    assert_eq!(w.pre_sep, None);
    assert_eq!(w.post_sep, Some(b" ".to_vec()));
    assert_eq!(extract_newline(body), Some(b"\n".to_vec()));
    assert!(ends_with_newline(body, b"\n", false));
    assert!(contains_str(b"abc", b"bc") && !contains_str(b"abc", b"cb"));
}

#[test]
fn files_are_put_together() {
    let mut f = file(b"[a]\n\tk = 1\n[b]\n\tk = 1\n");
    let id = f.section(0).id;
    f.append_or_insert(file(b"[c]\n\tk = 2\n[b]\n\tk = 0\n"), Some(id));
    assert_eq!(f.hx_string_filter(b"b.k"), Some(b"1".to_vec()));
    assert_eq!(f.hx_string_filter(b"c.k"), Some(b"2".to_vec()));
    assert_eq!(f.section(1).header.name, b"c".to_vec());
    f.append_or_insert(file(b"[b]\n\tk = 3\n"), None);
    assert_eq!(f.hx_string_filter(b"b.k"), Some(b"3".to_vec()));
    assert!(f.eq_file(&f));
    assert!(!f.eq_file(&file(b"[a]\n")));
    assert!(file(b"[a]\nb=c\n").eq_file(&file(b"[a]\nb=c\n")));
}

#[test]
fn files_that_name_files() {
    let f = file(b"[include]\n\tpath = a\n\tpath = :(optional)b\n[includeIf \"gitdir:/w/\"]\n\tpath = c\n[other]\n");
    let paths = gather_paths(f.section(0));
    assert_eq!(paths.len(), 2);
    assert!(!paths[0].is_optional && paths[1].is_optional);
    assert_eq!(paths[1].value, b"b".to_vec());
    assert!(matches!(section_condition(f.section(0)), Condition::Always));
    assert!(matches!(section_condition(f.section(1)), Condition::GitDir { pattern, ignore_case: false }
        if pattern == b"/w/"));
    assert!(matches!(section_condition(f.section(2)), Condition::Never));
    assert!(matches!(include_condition_match(b"gitdir/i:x"), Condition::GitDir { ignore_case: true, .. }));
    assert!(matches!(include_condition_match(b"onbranch:x"), Condition::Never));
    let o = FileIncludesOptions::hx_follow();
    assert!(matches!(o.follows_at(0), Ok(true)));
    assert!(matches!(o.follows_at(10), Err(GitError::Gen)));
    assert!(matches!(FileIncludesOptions::hx_no_follow().follows_at(0), Ok(false)));
    assert_eq!(o.resolve_path(b"x", Some(b"/etc/conf")).unwrap(), Some(b"/etc/x".to_vec()));
    assert_eq!(o.resolve_path(b"/x", None).unwrap(), Some(b"/x".to_vec()));
    assert!(matches!(o.resolve_path(b"x", None), Err(GitError::Gen)));
    assert_eq!(o.gitdir_pattern(b"w/", None).unwrap(), Some(b"**/w/**".to_vec()));
    assert_eq!(o.gitdir_pattern(b"./w", Some(b"/etc/conf")).unwrap(), Some(b"/etc/w".to_vec()));
    assert!(gitdir_matches(b"**/w/**", b"/home/w/.git", None, false));
    assert!(gitdir_matches(b"/r/**", b"/l/.git", Some(b"/r/.git"), false));
    assert!(!gitdir_matches(b"/R/**", b"/r/.git", None, false));
    assert!(gitdir_matches(b"/R/**", b"/r/.git", None, true));
    assert!(matches!(FileIncludesOptions::check_interpolation_result(Err(GitError::Gen)), Ok(None)));
    assert!(matches!(FileIncludesOptions::check_interpolation_result(Err(GitError::Error)), Err(GitError::Gen)));
}

#[test]
fn paths_are_completed() {
    let context = InterpolationContext {
        git_install_dir: Some(b"/git"),
        home_dir: Some(b"/home/me"),
        finds_home_for_user: true,
    };
    let complete = |text: &[u8]| ConfigPath::from_bytes(text.to_vec()).hx_interpolate(context);
    assert!(matches!(complete(b"~/x"), Ok(Interpolation::Path(p)) if p == b"/home/me/x"));
    assert!(matches!(complete(b"%(prefix)/x"), Ok(Interpolation::Path(p)) if p == b"/git/x"));
    assert!(matches!(complete(b"~you/x/y"), Ok(Interpolation::InHomeOf { name, rest })
        if name == b"you" && rest == b"x/y"));
    assert!(matches!(complete(b"plain"), Ok(Interpolation::Path(p)) if p == b"plain"));
    assert!(matches!(complete(b""), Err(GitError::Gen)));
    let none = InterpolationContext { git_install_dir: None, home_dir: None, finds_home_for_user: false };
    assert!(ConfigPath::from_bytes(b"~/x".to_vec()).hx_interpolate(none).is_err());
    let f = file(b"[core]\n\tattributesFile = :(optional)~/a\n");
    let p = f.hx_path_filter(b"core.attributesFile").unwrap();
    assert!(p.is_optional);
    assert_eq!(p.value, b"~/a".to_vec());
}

#[test]
fn places_of_files() {
    let mut e = Environment {
        git_config_nosystem: None,
        git_config_system: None,
        git_config_global: None,
        xdg_config_home: None,
        home: Some(b"/h".to_vec()),
        installation: Some(b"/i/gitconfig".to_vec()),
    };
    assert_eq!(Source::System.hx_storage_location(&e), Some(b"/etc/gitconfig".to_vec()));
    assert_eq!(Source::Git.hx_storage_location(&e), Some(b"/h/.config/git/config".to_vec()));
    assert_eq!(Source::User.hx_storage_location(&e), Some(b"/h/.gitconfig".to_vec()));
    assert_eq!(xdg_config(b"attributes", &e), Some(b"/h/.config/git/attributes".to_vec()));
    assert_eq!(
        global_paths(&e),
        vec![
            b"/i/gitconfig".to_vec(),
            b"/etc/gitconfig".to_vec(),
            b"/h/.config/git/config".to_vec(),
            b"/h/.gitconfig".to_vec()
        ]
    );
    e.git_config_global = Some(b"/g".to_vec());
    e.git_config_nosystem = Some(b"1".to_vec());
    e.installation = None;
    assert_eq!(global_paths(&e), vec![b"/g".to_vec()]);
    assert_eq!(system_attributes(), b"/etc/gitattributes".to_vec());
    assert_eq!(first_file_from_config_with_origin(b"file:/etc/x\0core"), Some(b"/etc/x".to_vec()));
    assert_eq!(first_file_from_config_with_origin(b"command line:\0"), None);
}

#[test]
fn sections_have_ids_of_their_own() {
    let mut f = file(b"[a]\n[b]\n");
    assert_eq!(f.next_id(), 2);
    f.append_or_insert(file(b"[c]\n"), Some(0));
    assert_eq!(f.next_id(), 3);
    assert_eq!(f.section(1).id, 2);
    assert_eq!(f.section(2).id, 1);
}

fn taken_in(
    options: &FileIncludesOptions,
    answers: &Answers,
    config: &GitConfigurationFile,
) -> Result<GitConfigurationFile, Stop> {
    Inclusion {
        options,
        git_install_dir: Some(b"/opt"),
        home_dir: Some(b"/home/me"),
        git_dir: b"/work/r/.git",
        answers,
    }
    .resolve_includes(config)
}

#[test]
fn named_files_are_taken_in() {
    let options = FileIncludesOptions::hx_follow();
    let mut answers = Answers::new();
    let f = file(b"[core]\n\ta = 1\n[include]\n\tpath = more\n[core]\n\tb = 1\n");
    assert!(matches!(taken_in(&options, &answers, &f), Err(Stop::Ask(Question::File(p))) if p == b"/etc/more"));
    answers.add_file(b"/etc/more".to_vec(), NamedFile::Contents(b"[core]\n\ta = 2\n\tb = 2\n".to_vec()));
    let whole = taken_in(&options, &answers, &f).unwrap();
    assert_eq!(whole.hx_string_filter(b"core.a"), Some(b"2".to_vec()));
    assert_eq!(whole.hx_string_filter(b"core.b"), Some(b"1".to_vec()));
    assert_eq!(whole.len(), 4);
    answers.add_file(b"/etc/more".to_vec(), NamedFile::NotAFile);
    assert_eq!(taken_in(&options, &answers, &f).unwrap().len(), 3);
    answers.add_file(b"/etc/more".to_vec(), NamedFile::Failed);
    assert!(matches!(taken_in(&options, &answers, &f), Err(Stop::Failed)));
    answers.add_file(b"/etc/more".to_vec(), NamedFile::Contents(b"[include]\n\tpath = /etc/more\n".to_vec()));
    assert!(matches!(taken_in(&options, &answers, &f), Err(Stop::Failed)));
    assert!(taken_in(&FileIncludesOptions::hx_no_follow(), &answers, &f).is_ok());
    let plain = file(b"[core]\n\ta = 1\n");
    assert!(taken_in(&options, &answers, &plain).unwrap().eq_file(&plain));
}

#[test]
fn named_files_depend_on_the_repository() {
    let options = FileIncludesOptions::hx_follow();
    let mut answers = Answers::new();
    answers.add_file(b"/x".to_vec(), NamedFile::Contents(b"[core]\n\ta = 2\n".to_vec()));
    answers.add_file(b"/".to_vec(), NamedFile::Contents(Vec::new()));
    assert!(matches!(answers.files[1].1, NamedFile::NotAFile));
    let here = file(b"[includeIf \"gitdir:/work/\"]\n\tpath = /x\n");
    assert_eq!(taken_in(&options, &answers, &here).unwrap().len(), 2);
    let there = file(b"[includeIf \"gitdir:/other/\"]\n\tpath = /x\n");
    assert!(matches!(taken_in(&options, &answers, &there), Err(Stop::Ask(Question::RealDir))));
    answers.real_dir = Some(Some(b"/other/r/.git".to_vec()));
    assert_eq!(taken_in(&options, &answers, &there).unwrap().len(), 2);
    answers.real_dir = Some(Some(b"/third/r/.git".to_vec()));
    assert_eq!(taken_in(&options, &answers, &there).unwrap().len(), 1);
    answers.real_dir = Some(None);
    assert!(matches!(taken_in(&options, &answers, &there), Err(Stop::Failed)));
    let user = file(b"[include]\n\tpath = ~you/x\n");
    assert!(matches!(taken_in(&options, &answers, &user), Err(Stop::Ask(Question::HomeOf(n))) if n == b"you"));
    answers.homes.push((b"you".to_vec(), Some(b"/".to_vec())));
    assert_eq!(taken_in(&options, &answers, &user).unwrap().len(), 2);
    answers.homes.push((b"you".to_vec(), None));
    assert_eq!(taken_in(&options, &answers, &user).unwrap().len(), 1);
}

#[test]
fn files_are_put_one_after_the_other() {
    let a = GitConfigurationFile::from_bytes_owned(b"[core]\n\ta = 1\n\tb = 1", Some(b"/a")).unwrap();
    let b = GitConfigurationFile::from_bytes_owned(b"; c\n[core]\n\ta = 2\n", Some(b"/b")).unwrap();
    assert!(matches!(GitConfigurationFile::from_bytes_owned(b"[core", None), Err(GitError::Gen)));
    assert!(a.copy().eq_file(&a));
    assert_eq!(a.section_order(), vec![0]);
    assert_eq!(b.section_by_id(0).path, Some(b"/b".to_vec()));
    let both = merge(a, vec![b]).unwrap();
    assert_eq!(both.hx_string_filter(b"core.a"), Some(b"2".to_vec()));
    assert_eq!(both.hx_string_filter(b"core.b"), Some(b"1".to_vec()));
    assert_eq!(both.section_order(), vec![0, 1]);
}

#[test]
fn configuration_of_a_repository() {
    let parsed = |text: &[u8], path: &[u8]| GitConfigurationFile::from_bytes_owned(text, Some(path)).unwrap();
    let globals = vec![
        parsed(b"[core]\n\ta = system\n\tb = system\n\tc = system\n", b"/etc/gitconfig"),
        parsed(b"[core]\n\tb = user\n[include]\n\tpath = more\n", b"/home/me/.gitconfig"),
    ];
    let local = parsed(b"[core]\n\tc = local\n", b"/work/r/.git/config");
    let mut answers = Answers::new();
    answers.add_file(b"/home/me/more".to_vec(), NamedFile::Contents(b"[core]\n\tb = more\n".to_vec()));
    let options = FileIncludesOptions::hx_follow();
    let inclusion = Inclusion {
        options: &options,
        git_install_dir: None,
        home_dir: Some(b"/home/me"),
        git_dir: b"/work/r/.git",
        answers: &answers,
    };
    let whole = inclusion.hx_from_stage_one(&globals, &local, None).unwrap();
    for (key, value) in [(&b"core.a"[..], &b"system"[..]), (b"core.b", b"more"), (b"core.c", b"local")] {
        assert_eq!(whole.hx_string_filter(key), Some(value.to_vec()));
    }
    let env = vec![(b"core.c".to_vec(), b"env".to_vec())];
    let whole = inclusion.hx_from_stage_one(&globals, &local, Some(&env)).unwrap();
    assert_eq!(whole.hx_string_filter(b"core.c"), Some(b"env".to_vec()));
    let bad = vec![(b"nodot".to_vec(), b"x".to_vec())];
    assert!(matches!(inclusion.hx_from_stage_one(&globals, &local, Some(&bad)), Err(Stop::Failed)));
    let alone = inclusion.hx_from_stage_one(&Vec::new(), &local, None).unwrap();
    assert!(alone.eq_file(&local));
}
