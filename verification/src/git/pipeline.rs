//! Making the contents for the worktree.
use crate::ascii::{eq_ignore_case, lowered};
use crate::bytes::{lit, to_vec};
use crate::git::attributes::search::{
    attributes_at, known_number, state_of, Attributes, MetadataCollection, Outcome, OutcomeView,
};
use crate::git::config::file::{value_of_key, GitConfigurationFile, SectionView};
use crate::git::error::GitError;
use crate::git::filter::{
    attribute_names, autocrlf_of, converted_as, filter_attributes, hx_convert_to_worktree, is_configuration,
    selected_names, try_into_autocrlf, wanted_encoding, Configuration, Driver, EolAutoCrlf, EolConfiguration, ToWorktreeOutcome,
};
use crate::git::repo::worktree::{all_normal, below, names_from, GixWorktreeGixFsStack};
use crate::path::paths_view;
use vstd::prelude::*;

verus! {

/// Makes the contents for the worktree.
#[derive(Debug)]
pub struct Pipeline {
    pub stack: GixWorktreeGixFsStack,
    pub attributes: Attributes,
    pub attrs: Outcome,
    pub drivers: Vec<Driver>,
    pub eol_config: EolConfiguration,
}

/// The names of the drivers.
pub open spec fn driver_names(v: Seq<Driver>) -> Seq<Seq<u8>> {
    Seq::new(v.len(), |i: int| v[i].name@)
}

/// The names of the drivers that the first `n` sections configure.
pub open spec fn configured_drivers(sections: Seq<SectionView>, n: int) -> Seq<Seq<u8>>
    decreases n,
{
    if n <= 0 {
        Seq::empty()
    } else {
        let before = configured_drivers(sections, n - 1);
        let header = sections[n - 1].header;
        match header.subsection_name {
            Some(name) if lowered(header.name) == lowered(lit("filter")) => before.push(name),
            _ => before,
        }
    }
}

/// The drivers that a configuration has.
fn drivers_of(config: &GitConfigurationFile) -> (r: Vec<Driver>)
    ensures
        driver_names(r@) == configured_drivers(config@.sections, config@.sections.len() as int),
{
    let mut out: Vec<Driver> = Vec::new();
    let mut i: usize = 0;
    assert(driver_names(out@) =~= Seq::<Seq<u8>>::empty());
    while i < config.len()
        invariant
            i <= config@.sections.len(),
            driver_names(out@) == configured_drivers(config@.sections, i as int),
        decreases config@.sections.len() - i,
    {
        let section = config.section(i);
        let ghost before = driver_names(out@);
        if eq_ignore_case(section.header.name.as_slice(), "filter".as_bytes()) {
            if let Some(name) = &section.header.subsection_name {
                out.push(Driver { name: to_vec(name.as_slice()) });
                assert(driver_names(out@) =~= before.push(name@));
            }
        }
        i += 1;
    }
    out
}

/// What the configuration says of how lines end. A value that cannot be read counts as none.
pub open spec fn configured_autocrlf(value: Option<Seq<u8>>) -> EolAutoCrlf {
    match value {
        Some(v) => match autocrlf_of(v) {
            Some(x) => x,
            None => EolAutoCrlf::Disabled,
        },
        None => EolAutoCrlf::Disabled,
    }
}

/// The attributes of the file at `rela_path`.
pub open spec fn file_attributes(p: Pipeline, rela_path: Seq<u8>) -> OutcomeView {
    let names = names_from(rela_path, 0);
    attributes_at(p.attributes, below(Seq::empty(), names, names.len() as int), None, p.attrs@)
}

/// The attributes that are asked for have the numbers that the collection gives them, once what is found has a
/// place for each attribute of it; before, they have none.
pub open spec fn numbers_known(c: MetadataCollection, o: OutcomeView) -> bool {
    forall|k: int|
        0 <= k < o.selected.len() ==> (#[trigger] o.selected[k]).1 == (if o.found.len() == c@.names.len() {
            known_number(c@.names, o.selected[k].0)
        } else {
            None
        })
}

impl Pipeline {
    /// The attributes that are asked for are those that say how contents are filtered.
    pub open spec fn wf(self) -> bool {
        &&& self.attributes.wf()
        &&& self.attrs.wf()
        &&& self.attrs@.found.len() <= self.attributes.collection@.names.len()
        &&& selected_names(self.attrs@) == filter_attributes()
        &&& numbers_known(self.attributes.collection, self.attrs@)
    }

    /// Makes contents for the worktree at `root`, with the drivers and the line ends that `config` has.
    pub fn new(root: Vec<u8>, attributes: Attributes, config: &GitConfigurationFile) -> (r: Pipeline)
        requires
            attributes.wf(),
        ensures
            r.wf(),
            r.attributes == attributes,
            r.attrs@.found.len() == 0,
            r.stack.root@ == root@,
            r.stack.components@.len() == 0,
            driver_names(r.drivers@) == configured_drivers(config@.sections, config@.sections.len() as int),
            r.eol_config.auto_crlf == configured_autocrlf(value_of_key(config@, lit("core.autocrlf"))),
    {
        let auto_crlf = match config.hx_string_filter("core.autocrlf".as_bytes()) {
            Some(value) => match try_into_autocrlf(value.as_slice()) {
                Ok(x) => x,
                Err(_) => EolAutoCrlf::Disabled,
            },
            None => EolAutoCrlf::Disabled,
        };
        let mut attrs = Outcome::new();
        let names = attribute_names();
        let ghost asked = paths_view(names@);
        assert(forall|k: int| 0 <= k < names@.len() ==> #[trigger] names@[k]@ == asked[k]);
        let collection = MetadataCollection::new();
        attrs.initialize_with_selection(&collection, names);
        assert(collection@.names.len() == collection.names@.len());
        assert(selected_names(attrs@) =~= filter_attributes());
        Pipeline {
            stack: GixWorktreeGixFsStack::new(root),
            attributes,
            attrs,
            drivers: drivers_of(config),
            eol_config: EolConfiguration { auto_crlf },
        }
    }

    /// Makes the contents for the worktree of the file at `rela_path` whose contents are `src`. An error where
    /// the attributes name an encoding that is none, or the contents cannot be made.
    pub fn helix_pipeline_convert_to_worktree<'input>(&mut self, src: &'input [u8], rela_path: &[u8]) -> (r: Result<
        ToWorktreeOutcome<'input>,
        GitError,
    >)
        requires
            old(self).wf(),
            all_normal(names_from(rela_path@, 0)),
        ensures
            final(self).wf(),
            final(self).attributes == old(self).attributes,
            final(self).stack.root == old(self).stack.root,
            paths_view(final(self).stack.components@) == names_from(rela_path@, 0),
            final(self).drivers == old(self).drivers,
            final(self).eol_config == old(self).eol_config,
            final(self).attrs@ == file_attributes(*old(self), rela_path@),
            ({
                let o = file_attributes(*old(self), rela_path@);
                if wanted_encoding(state_of(o, 5)) is Err {
                    r matches Err(e) && e is Gen
                } else {
                    exists|c: Configuration|
                        #[trigger] is_configuration(c, old(self).drivers@, o, old(self).eol_config) && converted_as(
                            src@,
                            c,
                            old(self).eol_config,
                            r,
                        )
                }
            }),
    {
        self.stack.hx_make_relative_path_current(rela_path);
        let path = self.stack.hx_current_relative();
        let found = self.attributes.hx_matching_attributes(path.as_slice(), None, &mut self.attrs);
        assert(selected_names(self.attrs@) =~= selected_names(old(self).attrs@));
        match Configuration::at_path(&self.drivers, &self.attrs, self.eol_config) {
            Err(e) => Err(e),
            Ok(c) => {
                let ghost g = c;
                let r = hx_convert_to_worktree(src, &c, self.eol_config);
                assert(is_configuration(g, old(self).drivers@, self.attrs@, old(self).eol_config));
                r
            },
        }
    }
}

} // verus!
