//! Git's global ignore file.
use crate::bytes::{lit, to_vec};
use crate::path::{join, joined, paths_view};
use crate::text::{char_at, chars_of, utf8_string};
use vstd::prelude::*;
use vstd::utf8::{decode_utf8, valid_utf8};

verus! {

/// The regular expression for an assignment to `excludesfile`, with a group for the value.
pub open spec fn excludes_pattern() -> Seq<char> {
    "(?im-u)^\\s*excludesfile\\s*=\\s*\"?\\s*(\\S+?)\\s*\"?\\s*$"@
}

/// The place of the first group in the first match of a regular expression, where the text
/// does not have to be UTF-8.
pub uninterp spec fn group_span(pattern: Seq<char>, data: Seq<u8>) -> Option<(int, int)>;

/// `regex_automata::meta::Regex::captures` gives the place of the first group of a regular
/// expression in its first match, which is a place in the data.
#[verifier::external_body]
fn first_group(pattern: &str, data: &[u8]) -> (r: Option<(usize, usize)>)
    requires
        pattern@ == excludes_pattern(),
    ensures
        r matches Some((a, b)) ==> a <= b && b <= data@.len() && group_span(pattern@, data@)
            == Some((a as int, b as int)),
        r is None ==> group_span(pattern@, data@) is None,
{
    let re = regex_automata::meta::Regex::builder()
        .configure(regex_automata::meta::Regex::config().utf8_empty(false))
        .syntax(regex_automata::util::syntax::Config::new().utf8(false))
        .build(pattern)
        .ok()?;
    let mut caps = re.create_captures();
    re.captures(data, &mut caps);
    caps.get_group(1).map(|s| (s.start, s.end))
}

/// The text with `home` in the place of each `~`.
pub open spec fn with_home(s: Seq<char>, home: Seq<char>) -> Seq<char>
    decreases s.len(),
{
    if s.len() == 0 {
        seq![]
    } else if s.last() == '~' {
        with_home(s.drop_last(), home) + home
    } else {
        with_home(s.drop_last(), home).push(s.last())
    }
}

/// The path with the home directory in the place of each `~`, where it is known.
pub fn expand_tilde(path: &str, home: Option<&str>) -> (r: String)
    ensures
        r@ == (match home {
            None => path@,
            Some(h) => with_home(path@, h@),
        }),
{
    let h = match home {
        None => {
            return path.to_owned();
        },
        Some(h) => h,
    };
    let chars = chars_of(path);
    let mut out = String::new();
    let mut i: usize = 0;
    assert(chars@.take(0) =~= seq![]);
    while i < chars.len()
        invariant
            i <= chars@.len(),
            out@ == with_home(chars@.take(i as int), h@),
        decreases chars@.len() - i,
    {
        let c: char = char_at(&chars, i);
        assert(chars@.take(i + 1).drop_last() =~= chars@.take(i as int));
        if c == '~' {
            out.push_str(h);
        } else {
            out.push(c);
        }
        i += 1;
    }
    assert(chars@.take(chars@.len() as int) =~= chars@);
    out
}

/// The path of the ignore file that a value writes. `None` where the value is not UTF-8.
pub fn excludes_path(value: &[u8], home: Option<&str>) -> (r: Option<String>)
    ensures
        r is Some <==> valid_utf8(value@),
        r matches Some(p) ==> p@ == (match home {
            None => decode_utf8(value@),
            Some(h) => with_home(decode_utf8(value@), h@),
        }),
{
    match utf8_string(to_vec(value)) {
        None => None,
        Some(text) => Some(expand_tilde(text.as_str(), home)),
    }
}

/// The path of the global ignore file that a configuration file names.
pub fn parse_excludes_file(data: &[u8], home: Option<&str>) -> (r: Option<String>)
    ensures
        match group_span(excludes_pattern(), data@) {
            None => r is None,
            Some((a, b)) => {
                let value = data@.subrange(a, b);
                &&& r is Some <==> valid_utf8(value)
                &&& r matches Some(p) ==> p@ == (match home {
                    None => decode_utf8(value),
                    Some(h) => with_home(decode_utf8(value), h@),
                })
            },
        },
{
    let pattern: &str = "(?im-u)^\\s*excludesfile\\s*=\\s*\"?\\s*(\\S+?)\\s*\"?\\s*$";
    match first_group(pattern, data) {
        None => None,
        Some((a, b)) => excludes_path(&data[a..b], home),
    }
}

/// The path of the global ignore file where no configuration names one: `git/ignore` in the
/// directory for configurations, which is `.config` in the home directory unless another one
/// is set.
pub fn excludes_file_default(config_home: Option<&[u8]>, home: Option<&[u8]>) -> (r: Option<Vec<u8>>)
    ensures
        match (config_home, home) {
            (Some(c), _) if c@.len() > 0 => r matches Some(p) && p@ == joined(
                c@,
                lit("git/ignore"),
            ),
            (_, Some(h)) => r matches Some(p) && p@ == joined(
                joined(h@, lit(".config")),
                lit("git/ignore"),
            ),
            _ => r is None,
        },
{
    if let Some(c) = config_home {
        if c.len() > 0 {
            return Some(join(c, "git/ignore".as_bytes()));
        }
    }
    match home {
        Some(h) => {
            let dir = join(h, ".config".as_bytes());
            Some(join(dir.as_slice(), "git/ignore".as_bytes()))
        },
        None => None,
    }
}

/// The path that the first of the configuration files from `i` on names which names one.
pub open spec fn named_by(files: Seq<Vec<u8>>, home: Option<Seq<char>>, i: int) -> Option<Seq<char>>
    decreases files.len() - i,
{
    if i >= files.len() {
        None
    } else {
        match group_span(excludes_pattern(), files[i]@) {
            Some((a, b)) if valid_utf8(files[i]@.subrange(a, b)) => {
                let value = decode_utf8(files[i]@.subrange(a, b));
                Some(
                    match home {
                        None => value,
                        Some(h) => with_home(value, h),
                    },
                )
            },
            _ => named_by(files, home, i + 1),
        }
    }
}

/// The text of an optional string.
pub open spec fn opt_text(s: Option<&str>) -> Option<Seq<char>> {
    match s {
        None => None,
        Some(s) => Some(s@),
    }
}

/// The path of the global ignore file that the first of the configuration files names which
/// names one.
pub fn gitconfig_excludes_path(files: &Vec<Vec<u8>>, home: Option<&str>) -> (r: Option<String>)
    ensures
        match named_by(files@, opt_text(home), 0) {
            Some(p) => r matches Some(s) && s@ == p,
            None => r is None,
        },
{
    let mut i: usize = 0;
    while i < files.len()
        invariant
            i <= files@.len(),
            named_by(files@, opt_text(home), 0) == named_by(files@, opt_text(home), i as int),
        decreases files@.len() - i,
    {
        if let Some(p) = parse_excludes_file(files[i].as_slice(), home) {
            return Some(p);
        }
        i += 1;
    }
    None
}

/// What the environment says of git's configuration files.
#[derive(Debug, Clone, Copy)]
pub struct GitVariables<'a> {
    /// The user's file, from `GIT_CONFIG_GLOBAL`.
    pub config_global: Option<&'a [u8]>,
    /// The file of the system, from `GIT_CONFIG_SYSTEM`.
    pub config_system: Option<&'a [u8]>,
    /// The directory for configurations, from `XDG_CONFIG_HOME`.
    pub config_home: Option<&'a [u8]>,
    pub home: Option<&'a [u8]>,
}

/// The value of a variable that is set and not empty.
pub open spec fn set_value(v: Option<&[u8]>) -> Option<Seq<u8>> {
    match v {
        Some(s) if s@.len() > 0 => Some(s@),
        _ => None,
    }
}

/// The place, if there is one.
pub open spec fn one_or_none(p: Option<Seq<u8>>) -> Seq<Seq<u8>> {
    match p {
        Some(x) => seq![x],
        None => Seq::empty(),
    }
}

impl<'a> GitVariables<'a> {
    /// The configuration files in the order in which they are asked for the global ignore file:
    /// the user's, the one in the home directory, the one in the directory for configurations, and
    /// that of the system.
    pub open spec fn places(self) -> Seq<Seq<u8>> {
        one_or_none(set_value(self.config_global)) + one_or_none(
            match self.home {
                Some(h) => Some(joined(h@, lit(".gitconfig"))),
                None => None,
            },
        ) + one_or_none(
            match (set_value(self.config_home), self.home) {
                (Some(c), _) => Some(joined(c, lit("git/config"))),
                (None, Some(h)) => Some(joined(joined(h@, lit(".config")), lit("git/config"))),
                (None, None) => None,
            },
        ) + seq![
            match set_value(self.config_system) {
                Some(f) => f,
                None => lit("/etc/gitconfig"),
            },
        ]
    }

    /// The configuration files in the order in which they are asked for the global ignore file.
    pub fn gitconfig_paths(&self) -> (r: Vec<Vec<u8>>)
        ensures
            paths_view(r@) == self.places(),
    {
        let mut out: Vec<Vec<u8>> = Vec::new();
        assert(paths_view(out@) =~= Seq::<Seq<u8>>::empty());
        if let Some(file) = not_empty(self.config_global) {
            out.push(to_vec(file));
        }
        let ghost first = one_or_none(set_value(self.config_global));
        assert(paths_view(out@) =~= first);
        if let Some(home) = self.home {
            out.push(join(home, ".gitconfig".as_bytes()));
        }
        let ghost second = paths_view(out@);
        assert(second =~= first + one_or_none(
            match self.home {
                Some(h) => Some(joined(h@, lit(".gitconfig"))),
                None => None,
            },
        ));
        match not_empty(self.config_home) {
            Some(dir) => {
                out.push(join(dir, "git/config".as_bytes()));
            },
            None => {
                if let Some(home) = self.home {
                    let dir = join(home, ".config".as_bytes());
                    out.push(join(dir.as_slice(), "git/config".as_bytes()));
                }
            },
        }
        let ghost third = paths_view(out@);
        assert(third =~= second + one_or_none(
            match (set_value(self.config_home), self.home) {
                (Some(c), _) => Some(joined(c, lit("git/config"))),
                (None, Some(h)) => Some(joined(joined(h@, lit(".config")), lit("git/config"))),
                (None, None) => None,
            },
        ));
        match not_empty(self.config_system) {
            Some(file) => out.push(to_vec(file)),
            None => out.push(to_vec("/etc/gitconfig".as_bytes())),
        }
        assert(paths_view(out@) =~= self.places());
        out
    }
}

/// The value of a variable that is set and not empty.
fn not_empty<'a>(v: Option<&'a [u8]>) -> (r: Option<&'a [u8]>)
    ensures
        match set_value(v) {
            Some(x) => r matches Some(y) && y@ == x,
            None => r is None,
        },
{
    match v {
        Some(s) => {
            if s.len() > 0 {
                Some(s)
            } else {
                None
            }
        },
        None => None,
    }
}

} // verus!
