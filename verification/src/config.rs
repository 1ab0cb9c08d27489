//! The application configuration: the link mode and the registered
//! sources, with the rules for adding, removing and finding sources.
//! Reading and writing the configuration file is the application's
//! work; the rules here decide what the configuration holds.

use crate::source::{Source, SourceView};
use crate::strutil::{chars_to_string, push_str_chars_pub, str_eq};
use vstd::prelude::*;

verus! {

/// How packages are linked into a target.
#[derive(Debug, Clone, Copy, PartialEq, Eq, Structural)]
pub enum Mode {
    Symlink,
    Copy,
}

/// The views of a list of sources.
pub open spec fn source_views(ss: Seq<Source>) -> Seq<SourceView> {
    ss.map_values(|s: Source| s@)
}

/// The application configuration: the link mode and the registered
/// sources, in registration order.
#[derive(Debug)]
pub struct Config {
    pub mode: Mode,
    pub sources: Vec<Source>,
}

/// Mathematical model of a configuration.
#[verifier::ext_equal]
pub ghost struct ConfigView {
    pub mode: Mode,
    pub sources: Seq<SourceView>,
}

impl View for Config {
    type V = ConfigView;

    open spec fn view(&self) -> ConfigView {
        ConfigView { mode: self.mode, sources: source_views(self.sources@) }
    }
}

/// Whether some registered source carries the given id.
pub open spec fn spec_has_source(c: ConfigView, id: Seq<char>) -> bool {
    exists|j: int| 0 <= j < c.sources.len() && (#[trigger] c.sources[j]).id == id
}

/// Adding a source whose id is already registered is refused.
#[derive(Debug, Clone, Copy, PartialEq, Eq, Structural)]
pub struct DuplicateSourceError;

impl DuplicateSourceError {
    /// A human-readable description of the error.
    pub fn message(&self) -> (r: String)
        ensures
            r@ == "Source already exists"@,
    {
        String::from_str("Source already exists")
    }
}

/// The registered sources with every source of the given id dropped.
pub open spec fn spec_retain_sources(ss: Seq<SourceView>, id: Seq<char>) -> Seq<SourceView>
    decreases ss.len(),
{
    if ss.len() == 0 {
        ss
    } else {
        (if ss[0].id == id {
            Seq::empty()
        } else {
            seq![ss[0]]
        }) + spec_retain_sources(ss.drop_first(), id)
    }
}

/// Retention grows one source at a time.
proof fn lemma_retain_snoc(ss: Seq<SourceView>, s: SourceView, id: Seq<char>)
    ensures
        spec_retain_sources(ss.push(s), id) == spec_retain_sources(ss, id) + (if s.id == id {
            Seq::<SourceView>::empty()
        } else {
            seq![s]
        }),
    decreases ss.len(),
{
    let tail = if s.id == id {
        Seq::<SourceView>::empty()
    } else {
        seq![s]
    };
    if ss.len() == 0 {
        assert(ss.push(s)[0] == s);
        assert(ss.push(s).drop_first() =~= Seq::<SourceView>::empty());
        assert(spec_retain_sources(Seq::<SourceView>::empty(), id) == Seq::<SourceView>::empty());
        assert(spec_retain_sources(ss.push(s), id) == tail + Seq::<SourceView>::empty());
        assert(tail + Seq::<SourceView>::empty() =~= tail);
        assert(spec_retain_sources(ss, id) + tail =~= tail);
    } else {
        assert(ss.push(s)[0] == ss[0]);
        assert(ss.push(s).drop_first() =~= ss.drop_first().push(s));
        lemma_retain_snoc(ss.drop_first(), s, id);
        let h = if ss[0].id == id {
            Seq::<SourceView>::empty()
        } else {
            seq![ss[0]]
        };
        assert(h + (spec_retain_sources(ss.drop_first(), id) + tail) =~= (h + spec_retain_sources(
            ss.drop_first(),
            id,
        )) + tail);
    }
}

impl Config {
    /// Whether some registered source carries the given id.
    pub fn has_source(&self, id: &str) -> (r: bool)
        ensures
            r == spec_has_source(self@, id@),
    {
        let mut j: usize = 0;
        while j < self.sources.len()
            invariant
                j <= self.sources.len(),
                forall|k: int| 0 <= k < j ==> (#[trigger] self@.sources[k]).id != id@,
            decreases self.sources.len() - j,
        {
            if str_eq(self.sources[j].id.as_str(), id) {
                proof {
                    assert(self@.sources[j as int].id == id@);
                }
                return true;
            }
            j = j + 1;
        }
        false
    }

    /// Registers a source; a source with the same id being present is
    /// refused and nothing changes.
    pub fn add_source(&mut self, source: Source) -> (r: Result<(), DuplicateSourceError>)
        ensures
            match r {
                Ok(_) => !spec_has_source(old(self)@, source@.id) && final(self)@.mode == old(
                    self,
                )@.mode && final(self)@.sources == old(self)@.sources.push(source@),
                Err(_) => spec_has_source(old(self)@, source@.id) && final(self)@ == old(self)@,
            },
    {
        if self.has_source(source.id.as_str()) {
            return Err(DuplicateSourceError);
        }
        let ghost ss0 = self@.sources;
        self.sources.push(source);
        proof {
            assert(source_views(self.sources@) =~= ss0.push(self.sources@[self.sources@.len()
                - 1]@));
        }
        Ok(())
    }

    /// Removes every source with the given id; an absent id changes
    /// nothing.  Says whether anything was removed.
    pub fn remove_source(&mut self, id: &str) -> (removed: bool)
        ensures
            final(self)@.mode == old(self)@.mode,
            final(self)@.sources == spec_retain_sources(old(self)@.sources, id@),
            removed == spec_has_source(old(self)@, id@),
    {
        let ghost ss = self@.sources;
        let mut kept: Vec<Source> = Vec::new();
        let mut removed = false;
        let mut i: usize = 0;
        proof {
            assert(ss.take(0) =~= Seq::<SourceView>::empty());
            assert(source_views(kept@) =~= spec_retain_sources(source_views(self.sources@).take(0), id@));
        }
        while i < self.sources.len()
            invariant
                i <= self.sources.len(),
                ss == source_views(self.sources@),
                source_views(kept@) == spec_retain_sources(ss.take(i as int), id@),
                removed == exists|k: int| 0 <= k < i && (#[trigger] ss[k]).id == id@,
            decreases self.sources.len() - i,
        {
            let ghost kept0 = kept@;
            let same = str_eq(self.sources[i].id.as_str(), id);
            if same {
                removed = true;
                proof {
                    assert(ss[i as int].id == id@);
                    assert(source_views(kept@) =~= source_views(kept0) + Seq::<
                        SourceView,
                    >::empty());
                }
            } else {
                kept.push(self.sources[i].clone());
                proof {
                    assert(kept@ == kept0.push(kept@[kept@.len() - 1]));
                    assert(source_views(kept@) =~= source_views(kept0) + seq![ss[i as int]]);
                }
            }
            proof {
                lemma_retain_snoc(ss.take(i as int), ss[i as int], id@);
                assert(ss.take(i as int).push(ss[i as int]) =~= ss.take(i + 1));
            }
            i = i + 1;
        }
        proof {
            assert(ss.take(i as int) =~= ss);
        }
        self.sources = kept;
        removed
    }
}

impl Default for Config {
    /// Symlink mode, no sources.
    fn default() -> (c: Config)
        ensures
            c@.mode == Mode::Symlink,
            c@.sources.len() == 0,
    {
        Config { mode: Mode::Symlink, sources: Vec::new() }
    }
}

/// Per-workspace configuration: the link mode alone.
#[derive(Debug, Clone, Copy, PartialEq, Eq, Structural)]
pub struct WorkspaceConfig {
    pub mode: Mode,
}

impl Default for WorkspaceConfig {
    /// Symlink mode.
    fn default() -> (c: WorkspaceConfig)
        ensures
            c.mode == Mode::Symlink,
    {
        WorkspaceConfig { mode: Mode::Symlink }
    }
}

/// Why the configuration health check fails.
#[derive(Debug, Clone, Copy, PartialEq, Eq, Structural)]
pub enum HealthCheckError {
    /// The configuration file does not exist.
    ConfigFileNotExist,
    /// The configuration file is not readable as a configuration.
    ConfigFileInvalid,
}

impl HealthCheckError {
    /// A human-readable description of the error.
    pub fn message(&self) -> (r: String)
        ensures
            *self == HealthCheckError::ConfigFileNotExist ==> r@ == "File does not exist"@,
            *self == HealthCheckError::ConfigFileInvalid ==> r@ == "Config file is invalid"@,
    {
        match self {
            HealthCheckError::ConfigFileNotExist => String::from_str("File does not exist"),
            HealthCheckError::ConfigFileInvalid => String::from_str("Config file is invalid"),
        }
    }
}

/// The health check's rule: the configuration is healthy exactly when
/// its file exists.
pub fn healthcheck_from_exists(config_file_exists: bool) -> (r: Result<(), HealthCheckError>)
    ensures
        r is Ok <==> config_file_exists,
        r is Err ==> r == Err::<(), HealthCheckError>(HealthCheckError::ConfigFileNotExist),
{
    if config_file_exists {
        Ok(())
    } else {
        Err(HealthCheckError::ConfigFileNotExist)
    }
}

/// The path of the root configuration file under the given home
/// directory.
pub fn get_root_config_path(home_dir: &str) -> (r: String)
    ensures
        r@ == home_dir@ + "/.npmpink.json"@,
{
    let mut out: Vec<char> = Vec::new();
    push_str_chars_pub(&mut out, home_dir);
    push_str_chars_pub(&mut out, "/.npmpink.json");
    proof {
        assert(out@ =~= home_dir@ + "/.npmpink.json"@);
    }
    chars_to_string(&out)
}

} // verus!
