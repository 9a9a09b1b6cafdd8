//! Machine-local user settings (source locations, tool paths, the user's own
//! registries), configured once rather than per build. Where a directory is
//! unset the defaults are laid out under the user's home; finding that home
//! and reading the settings file are the caller's part.

use crate::donors::Donor;
use crate::keyed::Keyed;
use crate::mg::{join_path, path_join};
use crate::targets::Target;
use crate::templates::Template;
use vstd::prelude::*;

verus! {

/// The user settings.
#[derive(Clone, Debug)]
pub struct Settings {
    /// Folder holding the MacPack donor disks.
    pub macpack_dir: Option<String>,
    /// Macintosh Garden archive root.
    pub mg_archive: Option<String>,
    /// `rb-cli` binary path; falls back to `rb-cli` on PATH.
    pub rb_cli: Option<String>,
    /// Download / work cache dir.
    pub cache_dir: Option<String>,
    /// Curated overlay the per-title download picks are pinned into.
    pub curated_overlay: Option<String>,
    /// The user's build targets, overlaying the bundled ones.
    pub targets: Keyed<Target>,
    /// The user's base-OS templates, overlaying the template file.
    pub templates: Keyed<Template>,
    /// The user's donor images, overlaying the donor file.
    pub donors: Keyed<Donor>,
    /// Where the user's saved collections live.
    pub collections_dir: Option<String>,
    /// The user's own library records.
    pub user_library: Option<String>,
    /// Where built disk images are written.
    pub output_dir: Option<String>,
    /// Root of the user's source library.
    pub sources_dir: Option<String>,
    /// The revision of the first-run setup the user has been through.
    pub setup_seen: Option<u32>,
}

impl Default for Settings {
    /// Nothing configured.
    fn default() -> (s: Self)
        ensures
            s.macpack_dir is None,
            s.mg_archive is None,
            s.rb_cli is None,
            s.cache_dir is None,
            s.curated_overlay is None,
            s.targets.wf() && s.targets.entries@.len() == 0,
            s.templates.wf() && s.templates.entries@.len() == 0,
            s.donors.wf() && s.donors.entries@.len() == 0,
            s.collections_dir is None,
            s.user_library is None,
            s.output_dir is None,
            s.sources_dir is None,
            s.setup_seen is None,
    {
        Settings {
            macpack_dir: None,
            mg_archive: None,
            rb_cli: None,
            cache_dir: None,
            curated_overlay: None,
            targets: Keyed::new(),
            templates: Keyed::new(),
            donors: Keyed::new(),
            collections_dir: None,
            user_library: None,
            output_dir: None,
            sources_dir: None,
            setup_seen: None,
        }
    }
}

/// The conventional subfolders of the source library, with what goes in
/// each. Advisory: these are what the app creates and where its pickers open.
pub fn source_subdirs() -> (r: Vec<(&'static str, &'static str)>)
    ensures
        r@.len() == 4,
        r@[0].0@ == "Templates"@,
        r@[1].0@ == "Donors"@,
        r@[2].0@ == "Captures"@,
        r@[3].0@ == "MacPack"@,
{
    vec![
        ("Templates", "base OS disk images (System 6.0.8 / 7.1 / 7.5.5 / 7.6.1)"),
        ("Donors", "donor + reservoir images titles are copied or harvested from"),
        ("Captures", "hand-made .mar captures of apps installed in an emulator"),
        ("MacPack", "the MacPack donor set"),
    ]
}

/// `<base>/MacAtrium/Images`, where `base` is the home directory (or the
/// temp directory where there is none). Not under Documents: built images
/// are hundreds of MB and Documents is often cloud-synced.
pub fn default_output_dir(base: &str) -> (r: String)
    ensures
        r@ == path_join(path_join(base@, "MacAtrium"@), "Images"@),
{
    let m = join_path(base, "MacAtrium");
    join_path(m.as_str(), "Images")
}

/// `<base>/MacAtrium/Sources`, for the same reason.
pub fn default_sources_dir(base: &str) -> (r: String)
    ensures
        r@ == path_join(path_join(base@, "MacAtrium"@), "Sources"@),
{
    let m = join_path(base, "MacAtrium");
    join_path(m.as_str(), "Sources")
}

/// The user-facing data root: `<Documents>/MacAtrium`, else
/// `<home>/.macatrium`, else `./.macatrium`.
pub fn user_root(documents: Option<&str>, home: Option<&str>) -> (r: String)
    ensures
        r@ == match documents {
            Some(d) => path_join(d@, "MacAtrium"@),
            None => match home {
                Some(h) => path_join(h@, ".macatrium"@),
                None => path_join("."@, ".macatrium"@),
            },
        },
{
    match documents {
        Some(d) => join_path(d, "MacAtrium"),
        None => match home {
            Some(h) => join_path(h, ".macatrium"),
            None => join_path(".", ".macatrium"),
        },
    }
}

/// The text of an optional string, or `dflt`.
pub open spec fn or_text(o: Option<String>, dflt: Seq<char>) -> Seq<char> {
    match o {
        Some(s) => s@,
        None => dflt,
    }
}

impl Settings {
    /// The settings the file gave, or the defaults where it was absent or
    /// unparseable (first run has no config).
    pub fn load_default(loaded: Option<Settings>) -> (s: Settings)
        ensures
            match loaded {
                Some(g) => s == g,
                None => s.macpack_dir is None && s.output_dir is None && s.sources_dir is None
                    && s.user_library is None && s.collections_dir is None
                    && s.targets.entries@.len() == 0 && s.templates.entries@.len() == 0
                    && s.donors.entries@.len() == 0,
            },
    {
        match loaded {
            Some(g) => g,
            None => Settings::default(),
        }
    }

    /// The user's imported-title library: `user_library`, else
    /// `<user_root>/library.jsonl`.
    pub fn user_library(&self, user_root: &str) -> (r: String)
        ensures
            r@ == or_text(self.user_library, path_join(user_root@, "library.jsonl"@)),
    {
        match &self.user_library {
            Some(p) => p.clone(),
            None => join_path(user_root, "library.jsonl"),
        }
    }

    /// Where built disk images go: `output_dir`, else the default under `base`.
    pub fn output_dir(&self, base: &str) -> (r: String)
        ensures
            r@ == or_text(self.output_dir, path_join(path_join(base@, "MacAtrium"@), "Images"@)),
    {
        match &self.output_dir {
            Some(p) => p.clone(),
            None => default_output_dir(base),
        }
    }

    /// The source-library root: `sources_dir`, else the default under `base`.
    pub fn sources_dir(&self, base: &str) -> (r: String)
        ensures
            r@ == or_text(self.sources_dir, path_join(path_join(base@, "MacAtrium"@), "Sources"@)),
    {
        match &self.sources_dir {
            Some(p) => p.clone(),
            None => default_sources_dir(base),
        }
    }

    /// A conventional subfolder of the source library (not created here).
    pub fn source_subdir(&self, name: &str, base: &str) -> (r: String)
        ensures
            r@ == path_join(or_text(self.sources_dir, path_join(path_join(base@, "MacAtrium"@), "Sources"@)), name@),
    {
        let root = self.sources_dir(base);
        join_path(root.as_str(), name)
    }

    /// Where imported captures are expanded: `<sources>/Captures/_staged`.
    pub fn import_stage_dir(&self, base: &str) -> (r: String)
        ensures
            r@ == path_join(
                path_join(or_text(self.sources_dir, path_join(path_join(base@, "MacAtrium"@), "Sources"@)), "Captures"@),
                "_staged"@,
            ),
    {
        let c = self.source_subdir("Captures", base);
        join_path(c.as_str(), "_staged")
    }
}

} // verus!
