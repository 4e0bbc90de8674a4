//! Where configuration files are looked for.
use crate::bytes::{eq_bytes, find_byte, from, lit, pos_of, strip_prefix, to_vec};
use crate::git::config::value::{boolean_value, Boolean};
use crate::path::{join, joined, paths_view};
use vstd::prelude::*;

verus! {

/// A place of configuration files.
#[derive(Debug, Clone, Copy, PartialEq, Eq, Structural)]
pub enum Source {
    GitInstallation,
    System,
    Git,
    User,
}

/// The variables of the environment that say where configuration files are.
#[derive(Debug)]
pub struct Environment {
    pub git_config_nosystem: Option<Vec<u8>>,
    pub git_config_system: Option<Vec<u8>>,
    pub git_config_global: Option<Vec<u8>>,
    pub xdg_config_home: Option<Vec<u8>>,
    pub home: Option<Vec<u8>>,
    /// The file that comes with the installation.
    pub installation: Option<Vec<u8>>,
}

/// What an optional text stands for.
pub open spec fn maybe(v: Option<Vec<u8>>) -> Option<Seq<u8>> {
    match v {
        Some(s) => Some(s@),
        None => None,
    }
}

/// A copy of an optional text.
fn copied(v: &Option<Vec<u8>>) -> (r: Option<Vec<u8>>)
    ensures
        maybe(r) == maybe(*v),
{
    match v {
        Some(s) => Some(to_vec(s.as_slice())),
        None => None,
    }
}

/// The file `file` among the user's own.
pub open spec fn xdg_path(e: Environment, file: Seq<u8>) -> Option<Seq<u8>> {
    match e.xdg_config_home {
        Some(home) => Some(joined(joined(home@, lit("git")), file)),
        None => match e.home {
            Some(home) => Some(joined(joined(joined(home@, lit(".config")), lit("git")), file)),
            None => None,
        },
    }
}

/// The file `file` among the user's own.
pub fn xdg_config(file: &[u8], e: &Environment) -> (r: Option<Vec<u8>>)
    ensures
        maybe(r) == xdg_path(*e, file@),
{
    match &e.xdg_config_home {
        Some(home) => {
            let dir = join(home.as_slice(), "git".as_bytes());
            Some(join(dir.as_slice(), file))
        },
        None => match &e.home {
            Some(home) => {
                let dir = join(home.as_slice(), ".config".as_bytes());
                let git = join(dir.as_slice(), "git".as_bytes());
                Some(join(git.as_slice(), file))
            },
            None => None,
        },
    }
}

/// Where the file of a place is.
pub open spec fn location(s: Source, e: Environment) -> Option<Seq<u8>> {
    match s {
        Source::GitInstallation => maybe(e.installation),
        Source::System => if e.git_config_nosystem matches Some(v) && boolean_value(v@) == Some(true) {
            None
        } else if e.git_config_system is Some {
            maybe(e.git_config_system)
        } else {
            Some(joined(lit("/"), lit("etc/gitconfig")))
        },
        Source::Git => if e.git_config_global is Some {
            maybe(e.git_config_global)
        } else {
            xdg_path(e, lit("config"))
        },
        Source::User => if e.git_config_global is Some {
            maybe(e.git_config_global)
        } else {
            match e.home {
                Some(home) => Some(joined(home@, lit(".gitconfig"))),
                None => None,
            }
        },
    }
}

impl Source {
    /// Where the file of this place is.
    pub fn hx_storage_location(self, e: &Environment) -> (r: Option<Vec<u8>>)
        ensures
            maybe(r) == location(self, *e),
    {
        match self {
            Source::GitInstallation => copied(&e.installation),
            Source::System => {
                let off = match &e.git_config_nosystem {
                    Some(v) => match Boolean::try_from_bytes(v.as_slice()) {
                        Ok(b) => b.0,
                        Err(_) => false,
                    },
                    None => false,
                };
                if off {
                    None
                } else if e.git_config_system.is_some() {
                    copied(&e.git_config_system)
                } else {
                    Some(join("/".as_bytes(), "etc/gitconfig".as_bytes()))
                }
            },
            Source::Git => if e.git_config_global.is_some() {
                copied(&e.git_config_global)
            } else {
                xdg_config("config".as_bytes(), e)
            },
            Source::User => if e.git_config_global.is_some() {
                copied(&e.git_config_global)
            } else {
                match &e.home {
                    Some(home) => Some(join(home.as_slice(), ".gitconfig".as_bytes())),
                    None => None,
                }
            },
        }
    }
}

/// The file that the list `s` of values with their origins names first.
pub open spec fn first_origin(s: Seq<u8>) -> Option<Seq<u8>> {
    let file = from(s, lit("file:").len() as int);
    if crate::bytes::begins(s, lit("file:")) && pos_of(file, 0, 0) < file.len() {
        Some(file.subrange(0, pos_of(file, 0, 0)))
    } else {
        None
    }
}

/// The file that the list `source` of values with their origins names first.
pub fn first_file_from_config_with_origin(source: &[u8]) -> (r: Option<Vec<u8>>)
    ensures
        maybe(r) == first_origin(source@),
{
    match strip_prefix(source, "file:".as_bytes()) {
        None => None,
        Some(file) => {
            let n = file.len();
            proof {
                crate::bytes::lemma_pos_of(file@, 0, 0);
            }
            match find_byte(file, 0) {
                None => None,
                Some(end) => {
                    assert(end == pos_of(file@, 0, 0) && end < n);
                    Some(to_vec(&file[0..end]))
                },
            }
        },
    }
}

/// The file of attributes of the whole system.
pub fn system_attributes() -> (r: Vec<u8>)
    ensures
        r@ == joined(lit("/"), lit("etc/gitattributes")),
{
    join("/".as_bytes(), "etc/gitattributes".as_bytes())
}

/// The places of the files that hold for all repositories, in the order in which they are read.
pub open spec fn global_sources() -> Seq<Source> {
    seq![Source::GitInstallation, Source::System, Source::Git, Source::User]
}

/// The files of the first `n` places, without those that came before.
pub open spec fn global_files(e: Environment, n: int) -> Seq<Seq<u8>>
    decreases n,
{
    if n <= 0 {
        Seq::empty()
    } else {
        let before = global_files(e, n - 1);
        match location(global_sources()[n - 1], e) {
            Some(p) if !before.contains(p) => before.push(p),
            _ => before,
        }
    }
}

/// The files that hold for all repositories, in the order in which they are read.
pub fn global_paths(e: &Environment) -> (r: Vec<Vec<u8>>)
    ensures
        paths_view(r@) == global_files(*e, 4),
{
    let mut out: Vec<Vec<u8>> = Vec::new();
    assert(paths_view(out@) =~= Seq::<Seq<u8>>::empty());
    assert(paths_view(out@) == global_files(*e, 0));
    push_new(&mut out, Source::GitInstallation.hx_storage_location(e));
    assert(paths_view(out@) == global_files(*e, 1));
    push_new(&mut out, Source::System.hx_storage_location(e));
    assert(paths_view(out@) == global_files(*e, 2));
    push_new(&mut out, Source::Git.hx_storage_location(e));
    assert(paths_view(out@) == global_files(*e, 3));
    push_new(&mut out, Source::User.hx_storage_location(e));
    out
}

/// Adds a path that is not among `out` yet.
fn push_new(out: &mut Vec<Vec<u8>>, path: Option<Vec<u8>>)
    ensures
        paths_view(final(out)@) == (match path {
            Some(p) if !paths_view(old(out)@).contains(p@) => paths_view(old(out)@).push(p@),
            _ => paths_view(old(out)@),
        }),
{
    if let Some(p) = path {
        let mut k: usize = 0;
        while k < out.len()
            invariant
                k <= out@.len(),
                *out == *old(out),
                path == Some(p),
                forall|j: int| 0 <= j < k ==> #[trigger] out@[j]@ != p@,
            decreases out.len() - k,
        {
            if eq_bytes(out[k].as_slice(), p.as_slice()) {
                assert(paths_view(out@)[k as int] == p@);
                return;
            }
            k += 1;
        }
        assert(!paths_view(out@).contains(p@)) by {
            if paths_view(out@).contains(p@) {
                let j = choose|j: int| 0 <= j < out@.len() && paths_view(out@)[j] == p@;
                assert(out@[j]@ == p@);
            }
        }
        let ghost before = paths_view(out@);
        let ghost bytes = p@;
        out.push(p);
        assert(paths_view(out@) =~= before.push(bytes));
    }
}

/// The files that hold for all repositories come in the order of their places, and none comes twice.
pub proof fn law_no_file_is_read_twice(e: Environment, n: int)
    ensures
        global_files(e, n).no_duplicates(),
    decreases n,
{
    if n > 0 {
        law_no_file_is_read_twice(e, n - 1);
    }
}

} // verus!
